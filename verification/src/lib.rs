//! A path-compressed trie over component-wise paths.
//!
//! The trie stores a set of distinct, non-empty paths and iterates over
//! them in pre-order, while sharing common leading components internally.
//! A path here is a [`TriePath`]: an ordered sequence of components, so
//! that absolute paths, relative paths and the `.`/`..` forms all live in
//! one structure.  All prefix reasoning is component-wise: `child1` is
//! not a prefix of `child12`.
//!
//! The model of a trie is the pre-order sequence of its inserted paths,
//! each path a sequence of component character sequences.  Insertion
//! rejects the empty path and exact duplicates; otherwise it turns the
//! sequence into exactly [`PathTrie::after_insert`], which places the new
//! path where the compression algorithm puts it.  Iteration yields
//! exactly that sequence.

mod iterator;
mod node;
mod path;

pub use iterator::PathTrieIterator;
pub use path::TriePath;

use vstd::prelude::*;

use node::Node;

verus! {

/// Why an insertion was rejected.  Both cases leave the trie unchanged.
#[derive(Debug, Clone, Copy, PartialEq, Eq)]
pub enum InsertError {
    /// The path to insert had no components.
    EmptyPath,
    /// The exact same path, component for component, was already inserted.
    DuplicatePath,
}

/// A path-compressed trie of component-wise paths.
#[derive(Debug)]
pub struct PathTrie {
    // The following root node is not a filesystem root, but an empty path
    // which serves as a common ancestor for all path nodes, among which
    // may be multiple filesystem root nodes, relative paths, etc.  This
    // was done to maximize reuse of the Node logic, without having to
    // handle special edge cases here in PathTrie.
    pub(crate) root_node: Node,
}

impl View for PathTrie {
    type V = Seq<Seq<Seq<char>>>;

    /// The pre-order sequence of inserted paths.
    closed spec fn view(&self) -> Seq<Seq<Seq<char>>> {
        self.root_node.elems(Seq::<Seq<char>>::empty())
    }
}

impl PathTrie {
    /// The trie's invariant: the tree is properly compressed and the
    /// sentinel root carries the empty label and is never itself an
    /// element.
    pub closed spec fn wf(self) -> bool {
        &&& self.root_node.wf()
        &&& self.root_node.path@ == Seq::<Seq<char>>::empty()
        &&& !self.root_node.is_element
    }

    /// The element sequence this trie will hold once `path` has been
    /// successfully inserted: every present element in its place, and the
    /// new path where the insertion algorithm puts it — appended at the
    /// end of its parent's region, except that a path inserted as an
    /// ancestor of existing ones comes just before them.
    pub closed spec fn after_insert(self, path: Seq<Seq<char>>) -> Seq<Seq<Seq<char>>> {
        self.root_node.elems_after(Seq::<Seq<char>>::empty(), path)
    }

    /// An empty trie: just the sentinel root, no inserted paths.
    pub fn new() -> (t: Self)
        ensures
            t.wf(),
            t@ == Seq::<Seq<Seq<char>>>::empty(),
    {
        let t = PathTrie {
            root_node: Node { path: TriePath::empty(), children: Vec::new(), is_element: false },
        };
        proof {
            assert(t.root_node.children@.len() == 0);
            assert(t.root_node.wf());
            assert(t@ =~= Seq::<Seq<Seq<char>>>::empty());
        }
        t
    }

    /// Inserts a path.  Rejects the empty path and a path already
    /// inserted, leaving the trie unchanged; otherwise the element
    /// sequence becomes exactly [`PathTrie::after_insert`] of the path:
    /// the given path joins the elements at its determined place.
    pub fn insert(&mut self, path: &TriePath) -> (r: Result<(), InsertError>)
        requires
            old(self).wf(),
        ensures
            final(self).wf(),
            path@.len() == 0 ==> r == Err::<(), InsertError>(InsertError::EmptyPath)
                && final(self)@ == old(self)@,
            path@.len() > 0 && old(self)@.contains(path@) ==> r == Err::<(), InsertError>(
                InsertError::DuplicatePath,
            ) && final(self)@ == old(self)@,
            path@.len() > 0 && !old(self)@.contains(path@) ==> r is Ok
                && final(self)@ == old(self).after_insert(path@)
                && final(self)@.to_multiset() == old(self)@.to_multiset().insert(path@)
                && final(self)@.contains(path@),
    {
        if path.is_empty() {
            return Err(InsertError::EmptyPath);
        }
        let r = self.root_node.insert(path, Ghost(Seq::<Seq<char>>::empty()));
        proof {
            broadcast use vstd::seq_lib::group_to_multiset_ensures, vstd::multiset::group_multiset_axioms;

            let e = Seq::<Seq<char>>::empty();
            assert(e + old(self).root_node.path@ + path@ =~= path@);
            assert(self.root_node.path@ =~= e);
            match r {
                Ok(()) => {
                    assert(self@.to_multiset().count(path@) > 0);
                    assert(self@.contains(path@));
                },
                Err(er) => {},
            }
        }
        r
    }

    /// An iterator over all inserted paths, in pre-order.
    pub fn iter(&self) -> (it: PathTrieIterator)
        ensures
            it.wf(),
            it@ == self@,
    {
        PathTrieIterator::new(self)
    }
}

impl Default for PathTrie {
    /// The same empty trie as [`PathTrie::new`].
    fn default() -> (t: Self)
        ensures
            t.wf(),
            t@ == Seq::<Seq<Seq<char>>>::empty(),
    {
        PathTrie::new()
    }
}

/// The trie's model is its root's element sequence, with no prefix above
/// the sentinel's empty label.
pub(crate) proof fn lemma_trie_view(t: &PathTrie)
    ensures
        t@ == t.root_node.elems(Seq::<Seq<char>>::empty()),
{
}

/// No path is ever yielded twice: the element sequence of a well-formed
/// trie holds pairwise distinct paths, so inserting a set of distinct
/// paths and iterating gives back exactly that set, each path once.
pub proof fn lemma_elements_distinct(t: PathTrie, i: int, j: int)
    requires
        t.wf(),
        0 <= i < t@.len(),
        0 <= j < t@.len(),
        i != j,
    ensures
        t@[i] != t@[j],
{
    node::lemma_elems_order(t.root_node, Seq::<Seq<char>>::empty(), i, j);
}

/// Pre-order puts every ancestor first: where one inserted path is a
/// proper component-wise prefix of another, iteration yields it strictly
/// earlier.
pub proof fn lemma_ancestor_before_descendant(t: PathTrie, i: int, j: int)
    requires
        t.wf(),
        0 <= i < t@.len(),
        0 <= j < t@.len(),
        t@[i].len() < t@[j].len(),
        t@[i].is_prefix_of(t@[j]),
    ensures
        i < j,
{
    assert(i != j);
    node::lemma_elems_order(t.root_node, Seq::<Seq<char>>::empty(), i, j);
}

/// Every stored path has at least one component: the empty path is
/// rejected on insertion and the sentinel root is never an element.
pub proof fn lemma_elements_nonempty(t: PathTrie, k: int)
    requires
        t.wf(),
        0 <= k < t@.len(),
    ensures
        t@[k].len() > 0,
{
    let e = Seq::<Seq<char>>::empty();
    assert(t@.contains(t@[k]));
    node::lemma_elems_cases(t.root_node, e, t@[k]);
    assert(Node::children_elems(t.root_node.children@, e + t.root_node.path@).contains(t@[k]));
    node::lemma_children_elems_shape(t.root_node.children@, e + t.root_node.path@, t@[k]);
    assert((e + t.root_node.path@).len() == 0);
}

/// A path that shares its leading component with no stored path is
/// appended: the present elements keep their places and order, and the
/// new path is yielded last.  In particular, paths with pairwise distinct
/// leading components come out in insertion order.
pub proof fn lemma_after_insert_unshared(t: PathTrie, p: Seq<Seq<char>>)
    requires
        t.wf(),
        p.len() > 0,
        forall|k: int| 0 <= k < t@.len() ==> (#[trigger] t@[k])[0] != p[0],
    ensures
        t.after_insert(p) == t@ + seq![p],
{
    let e = Seq::<Seq<char>>::empty();
    let cs = t.root_node.children@;
    let cur = e + t.root_node.path@;
    node::lemma_match_index_props(cs, p[0]);
    let m = Node::match_index(cs, p[0]);
    if m < cs.len() {
        assert(cs[m].has_element());
        node::lemma_has_element_elems(cs[m], cur);
        assert(cs[m].elems(cur).len() > 0);
        let q = cs[m].elems(cur)[0];
        assert(cs[m].elems(cur).contains(q));
        node::lemma_elems_extend(cs[m], cur, q);
        assert(cur.len() == 0);
        assert(q[0] == (cur + cs[m].path@)[0]);
        assert(q[0] == p[0]);
        node::lemma_children_elems_mem(cs, cur, q);
        node::lemma_elems_from_children(t.root_node, e, q);
        assert(t@.contains(q));
        let k = choose|k: int| 0 <= k < t@.len() && t@[k] == q;
        assert(t@[k][0] != p[0]);
        assert(false);
    }
    assert(t.after_insert(p) =~= t@ + seq![p]) by {
        assert(t.root_node.elems_after(e, p) == t.root_node.elems(e) + seq![cur + p]);
        assert(cur + p =~= p);
    }
}

/// An inserted path stays inserted: adding one more path to the element
/// multiset never removes a member, so a duplicate is still rejected no
/// matter how many other paths were inserted in between.
pub proof fn lemma_inserted_path_persists(
    before: Seq<Seq<Seq<char>>>,
    after: Seq<Seq<Seq<char>>>,
    p: Seq<Seq<char>>,
    q: Seq<Seq<char>>,
)
    requires
        after.to_multiset() == before.to_multiset().insert(q),
        before.contains(p),
    ensures
        after.contains(p),
{
    broadcast use vstd::seq_lib::group_to_multiset_ensures, vstd::multiset::group_multiset_axioms;

    assert(before.to_multiset().count(p) > 0);
    assert(after.to_multiset().count(p) > 0);
}

} // verus!
