//! A path value, stored as its sequence of components.
//!
//! A component is a single step of a path: the root `/`, the current
//! directory `.`, the parent directory `..`, or a plain name.  All
//! comparisons in the trie are component-wise, never character-wise, so
//! this type is the only path representation the trie works with.  Its
//! mathematical view is the sequence of component character sequences.

use vstd::prelude::*;

verus! {

/// The views of a sequence of paths, in order.
pub(crate) open spec fn views_of(ps: Seq<TriePath>) -> Seq<Seq<Seq<char>>> {
    ps.map_values(|p: TriePath| p@)
}

/// A path as an ordered sequence of components.
///
/// The empty sequence stands for the empty path, which the trie rejects
/// on insertion but uses internally as the sentinel root's label.
#[derive(Debug, Clone, PartialEq, Eq)]
pub struct TriePath {
    segments: Vec<String>,
}

impl View for TriePath {
    type V = Seq<Seq<char>>;

    closed spec fn view(&self) -> Seq<Seq<char>> {
        self.segments@.map_values(|s: String| s@)
    }
}

impl TriePath {
    /// Builds a path from its components, in order.
    pub fn from_segments(segments: Vec<String>) -> (p: TriePath)
        ensures
            p@ == segments@.map_values(|s: String| s@),
    {
        TriePath { segments }
    }

    /// The empty path: no components at all.
    pub fn empty() -> (p: TriePath)
        ensures
            p@ == Seq::<Seq<char>>::empty(),
    {
        let p = TriePath { segments: Vec::new() };
        proof {
            assert(p@ =~= Seq::<Seq<char>>::empty());
        }
        p
    }

    /// The components of the path, in order.
    pub fn segments(&self) -> (r: &Vec<String>)
        ensures
            r@.map_values(|s: String| s@) == self@,
    {
        &self.segments
    }

    /// The number of components.
    pub fn len(&self) -> (n: usize)
        ensures
            n == self@.len(),
    {
        self.segments.len()
    }

    /// Whether the path has no components.
    pub fn is_empty(&self) -> (r: bool)
        ensures
            r == (self@.len() == 0),
    {
        self.segments.len() == 0
    }

    /// An exact copy of the path.
    pub(crate) fn duplicate(&self) -> (r: TriePath)
        ensures
            r@ == self@,
    {
        let mut segments: Vec<String> = Vec::new();
        let mut i: usize = 0;
        while i < self.segments.len()
            invariant
                i <= self.segments.len(),
                segments@.len() == i,
                forall|k: int| 0 <= k < i ==> segments@[k] == self.segments@[k],
            decreases self.segments.len() - i,
        {
            segments.push(self.segments[i].clone());
            i = i + 1;
        }
        let r = TriePath { segments };
        proof {
            assert(r.segments@ =~= self.segments@);
        }
        r
    }

    /// The number of leading components the two paths share.
    ///
    /// The result is maximal: it reaches the end of one of the paths, or
    /// stops at the first position where the components differ.
    pub(crate) fn common_prefix_len(&self, other: &TriePath) -> (r: usize)
        ensures
            r <= self@.len(),
            r <= other@.len(),
            forall|k: int| 0 <= k < r ==> self@[k] == other@[k],
            r < self@.len() && r < other@.len() ==> self@[r as int] != other@[r as int],
    {
        let mut i: usize = 0;
        while i < self.segments.len() && i < other.segments.len()
            invariant
                i <= self.segments.len(),
                i <= other.segments.len(),
                forall|k: int| 0 <= k < i ==> self@[k] == other@[k],
            decreases self.segments.len() - i,
        {
            if !self.segments[i].eq(&other.segments[i]) {
                assert(self@[i as int] != other@[i as int]);
                return i;
            }
            assert(self@[i as int] == other@[i as int]);
            i = i + 1;
        }
        i
    }

    /// Whether `prefix` is a component-wise prefix of this path.
    pub(crate) fn starts_with(&self, prefix: &TriePath) -> (r: bool)
        ensures
            r == prefix@.is_prefix_of(self@),
    {
        let c = self.common_prefix_len(prefix);
        let r = c == prefix.segments.len();
        proof {
            if r {
                assert(prefix@ =~= self@.subrange(0, prefix@.len() as int));
            } else {
                assert(c < prefix@.len());
                if prefix@.is_prefix_of(self@) {
                    assert(c < self@.len());
                    assert(prefix@[c as int] == self@.subrange(0, prefix@.len() as int)[c as int]);
                    assert(false);
                }
            }
        }
        r
    }

    /// The path without its first `n` components.
    pub(crate) fn suffix_from(&self, n: usize) -> (r: TriePath)
        requires
            n <= self@.len(),
        ensures
            r@ == self@.skip(n as int),
    {
        let mut segments: Vec<String> = Vec::new();
        let mut i: usize = n;
        while i < self.segments.len()
            invariant
                n <= i <= self.segments.len(),
                segments@.len() == i - n,
                forall|k: int| 0 <= k < i - n ==> segments@[k] == self.segments@[n + k],
            decreases self.segments.len() - i,
        {
            segments.push(self.segments[i].clone());
            i = i + 1;
        }
        let r = TriePath { segments };
        proof {
            assert(r@ =~= self@.skip(n as int));
        }
        r
    }

    /// The first `n` components of the path.
    pub(crate) fn prefix_to(&self, n: usize) -> (r: TriePath)
        requires
            n <= self@.len(),
        ensures
            r@ == self@.take(n as int),
    {
        let mut segments: Vec<String> = Vec::new();
        let mut i: usize = 0;
        while i < n
            invariant
                i <= n <= self.segments.len(),
                segments@.len() == i,
                forall|k: int| 0 <= k < i ==> segments@[k] == self.segments@[k],
            decreases n - i,
        {
            segments.push(self.segments[i].clone());
            i = i + 1;
        }
        let r = TriePath { segments };
        proof {
            assert(r@ =~= self@.take(n as int));
        }
        r
    }

    /// This path followed by all of `other`'s components.
    pub(crate) fn append(&self, other: &TriePath) -> (r: TriePath)
        ensures
            r@ == self@ + other@,
    {
        let mut joined = self.duplicate();
        proof {
            assert(joined@ =~= self@ + other@.take(0));
        }
        let mut i: usize = 0;
        while i < other.segments.len()
            invariant
                i <= other.segments.len(),
                joined.segments@.len() == self@.len() + i,
                joined@ == self@ + other@.take(i as int),
            decreases other.segments.len() - i,
        {
            let ghost prev = joined@;
            joined.segments.push(other.segments[i].clone());
            proof {
                assert(joined@ =~= prev.push(other@[i as int]));
                assert(joined@ =~= self@ + other@.take(i as int + 1));
            }
            i = i + 1;
        }
        proof {
            assert(other@.take(other@.len() as int) =~= other@);
        }
        joined
    }
}

} // verus!
