//! The compressed-trie node.
//!
//! A node owns a component-sequence label, relative to its parent, a flag
//! that marks whether the cumulative path down to this node was explicitly
//! inserted, and an ordered collection of child nodes.  The compression
//! invariant (`wf`) says that no two children share their leading
//! component, which is exactly what keeps the tree maximally factored:
//! component-wise, no two sibling subtrees could be merged further.
//!
//! The mathematical model of a subtree is `elems`: the pre-order sequence
//! of the cumulative paths of all nodes marked as inserted, each path a
//! `Seq<Seq<char>>` of components.

use vstd::multiset::Multiset;
use vstd::prelude::*;
use vstd::seq_lib::lemma_multiset_commutative;

use crate::iterator::NodeIterator;
use crate::path::views_of;
use crate::path::TriePath;
use crate::InsertError;

verus! {

broadcast use vstd::seq_lib::group_seq_properties, vstd::multiset::group_multiset_axioms;

/// One node of the compressed trie.
#[derive(Debug)]
pub(crate) struct Node {
    /// The path segment this node contributes, relative to its parent.
    pub path: TriePath,
    /// The child nodes, in insertion order of the events that created them.
    pub children: Vec<Node>,
    /// Whether the cumulative path at this node was explicitly inserted.
    pub is_element: bool,
}

impl Node {
    /// The pre-order sequence of inserted cumulative paths of the subtree
    /// rooted here, where `pre` is the cumulative path of the parent.
    pub(crate) open spec fn elems(self, pre: Seq<Seq<char>>) -> Seq<Seq<Seq<char>>>
        decreases self,
    {
        let cur = pre + self.path@;
        (if self.is_element {
            seq![cur]
        } else {
            Seq::<Seq<Seq<char>>>::empty()
        }) + Node::children_elems(self.children@, cur)
    }

    /// The concatenation of the element sequences of the subtrees in `cs`,
    /// in order, where `pre` is the cumulative path of their parent.
    pub(crate) open spec fn children_elems(cs: Seq<Node>, pre: Seq<Seq<char>>) -> Seq<Seq<Seq<char>>>
        decreases cs,
    {
        if cs.len() == 0 {
            Seq::<Seq<Seq<char>>>::empty()
        } else {
            cs[0].elems(pre) + Node::children_elems(cs.drop_first(), pre)
        }
    }

    /// Whether the subtree rooted here stores at least one path.
    pub(crate) open spec fn has_element(self) -> bool
        decreases self,
    {
        self.is_element || exists|i: int|
            0 <= i < self.children@.len() && (#[trigger] self.children@[i]).has_element()
    }

    /// The compression invariant: every child's label is non-empty, no two
    /// children share their leading component, every child subtree stores
    /// at least one path, and every child satisfies the same conditions.
    pub(crate) open spec fn wf(self) -> bool
        decreases self,
    {
        &&& (forall|i: int|
            0 <= i < self.children@.len() ==> (#[trigger] self.children@[i]).path@.len() > 0)
        &&& (forall|i: int, j: int|
            0 <= i < self.children@.len() && 0 <= j < self.children@.len() && i != j
                ==> (#[trigger] self.children@[i]).path@[0] != (#[trigger] self.children@[j]).path@[0])
        &&& (forall|i: int| 0 <= i < self.children@.len() ==> (#[trigger] self.children@[i]).has_element())
        &&& (forall|i: int| 0 <= i < self.children@.len() ==> (#[trigger] self.children@[i]).wf())
    }

    /// The position of the first child whose label begins with component
    /// `f`, or the number of children when there is none.  Under the
    /// compression invariant at most one child can begin with `f`, so
    /// this is the only child the insertion of a path starting with `f`
    /// can touch.
    pub(crate) open spec fn match_index(cs: Seq<Node>, f: Seq<char>) -> int
        decreases cs,
    {
        if cs.len() == 0 {
            0
        } else if cs[0].path@.len() > 0 && cs[0].path@[0] == f {
            0
        } else {
            1 + Node::match_index(cs.drop_first(), f)
        }
    }

    /// The element sequence of the subtree rooted here once `target`,
    /// expressed relative to this node, has been inserted; `pre` is the
    /// cumulative path of this node's parent.  This pins, case by case,
    /// where the insertion algorithm places every element:
    /// - an exact match promotes this node, so its own path comes first
    ///   and everything else keeps its place;
    /// - recursing into the child whose label is a prefix of the target
    ///   rewrites that child's block in place, all siblings untouched;
    /// - a split removes the affected child's block and appends, at the
    ///   end, the junction's block: the new path before the old subtree's
    ///   elements when the target is their ancestor, after them
    ///   otherwise;
    /// - with no child to meet, the new path is appended at the very end.
    pub(crate) open spec fn elems_after(
        self,
        pre: Seq<Seq<char>>,
        target: Seq<Seq<char>>,
    ) -> Seq<Seq<Seq<char>>>
        decreases self,
    {
        let cur = pre + self.path@;
        let newp = cur + target;
        if target.len() == 0 {
            seq![cur] + self.elems(pre)
        } else {
            let i = Node::match_index(self.children@, target[0]);
            if !(0 <= i < self.children@.len()) {
                self.elems(pre) + seq![newp]
            } else {
                let child = self.children@[i];
                let opt = if self.is_element {
                    seq![cur]
                } else {
                    Seq::<Seq<Seq<char>>>::empty()
                };
                let before = Node::children_elems(self.children@.take(i), cur);
                let after = Node::children_elems(self.children@.skip(i + 1), cur);
                if child.path@.is_prefix_of(target) {
                    opt + (before + child.elems_after(cur, target.skip(child.path@.len() as int))
                        + after)
                } else if common_len(child.path@, target) == target.len() {
                    opt + ((before + after) + (seq![newp] + child.elems(cur)))
                } else {
                    opt + ((before + after) + (child.elems(cur) + seq![newp]))
                }
            }
        }
    }
}

/// The number of leading components two component sequences share.
pub(crate) open spec fn common_len(a: Seq<Seq<char>>, b: Seq<Seq<char>>) -> int
    decreases a,
{
    if a.len() == 0 || b.len() == 0 || a[0] != b[0] {
        0
    } else {
        1 + common_len(a.drop_first(), b.drop_first())
    }
}

/// The first matching child position is a match, and nothing before it
/// is.
pub(crate) proof fn lemma_match_index_props(cs: Seq<Node>, f: Seq<char>)
    ensures
        0 <= Node::match_index(cs, f) <= cs.len(),
        Node::match_index(cs, f) < cs.len() ==> cs[Node::match_index(cs, f)].path@.len() > 0
            && cs[Node::match_index(cs, f)].path@[0] == f,
        forall|k: int|
            0 <= k < Node::match_index(cs, f) ==> !((#[trigger] cs[k]).path@.len() > 0
                && cs[k].path@[0] == f),
    decreases cs,
{
    if cs.len() == 0 {
    } else if cs[0].path@.len() > 0 && cs[0].path@[0] == f {
    } else {
        lemma_match_index_props(cs.drop_first(), f);
        let m = Node::match_index(cs, f);
        assert(m == 1 + Node::match_index(cs.drop_first(), f));
        if m < cs.len() {
            assert(cs[m] == cs.drop_first()[m - 1]);
        }
        assert forall|k: int| 0 <= k < m implies !((#[trigger] cs[k]).path@.len() > 0
            && cs[k].path@[0] == f) by {
            if k > 0 {
                assert(cs.drop_first()[k - 1] == cs[k]);
            }
        }
    }
}

/// The shared-prefix length is the unique bound below which the
/// components agree and at which, where both sequences go on, they
/// differ.
pub(crate) proof fn lemma_common_len_is(a: Seq<Seq<char>>, b: Seq<Seq<char>>, r: int)
    requires
        0 <= r <= a.len(),
        r <= b.len(),
        forall|k: int| 0 <= k < r ==> a[k] == b[k],
        r < a.len() && r < b.len() ==> a[r] != b[r],
    ensures
        common_len(a, b) == r,
    decreases r,
{
    if r == 0 {
        if a.len() > 0 && b.len() > 0 {
            assert(a[0] != b[0]);
        }
    } else {
        assert(a[0] == b[0]);
        assert forall|k: int| 0 <= k < r - 1 implies a.drop_first()[k] == b.drop_first()[k] by {
            assert(a.drop_first()[k] == a[k + 1]);
            assert(b.drop_first()[k] == b[k + 1]);
        }
        if r - 1 < a.drop_first().len() && r - 1 < b.drop_first().len() {
            assert(a.drop_first()[r - 1] == a[r]);
            assert(b.drop_first()[r - 1] == b[r]);
        }
        lemma_common_len_is(a.drop_first(), b.drop_first(), r - 1);
        assert(common_len(a, b) == 1 + common_len(a.drop_first(), b.drop_first()));
    }
}

/// A subtree stores a path exactly when its element sequence is
/// non-empty.
pub(crate) proof fn lemma_has_element_elems(n: Node, pre: Seq<Seq<char>>)
    ensures
        n.has_element() <==> n.elems(pre).len() > 0,
    decreases n,
{
    lemma_children_has_elems(n.children@, pre + n.path@);
}

/// Some subtree of a child list stores a path exactly when the list's
/// element sequence is non-empty.
pub(crate) proof fn lemma_children_has_elems(cs: Seq<Node>, pre: Seq<Seq<char>>)
    ensures
        (exists|i: int| 0 <= i < cs.len() && (#[trigger] cs[i]).has_element())
            <==> Node::children_elems(cs, pre).len() > 0,
    decreases cs,
{
    if cs.len() == 0 {
    } else {
        lemma_has_element_elems(cs[0], pre);
        lemma_children_has_elems(cs.drop_first(), pre);
        if Node::children_elems(cs, pre).len() > 0 {
            if cs[0].elems(pre).len() > 0 {
                assert(0 <= 0 < cs.len() && cs[0].has_element());
            } else {
                let i = choose|i: int|
                    0 <= i < cs.drop_first().len() && (#[trigger] cs.drop_first()[i]).has_element();
                assert(cs[i + 1] == cs.drop_first()[i]);
                assert(cs[i + 1].has_element());
            }
        }
        if exists|i: int| 0 <= i < cs.len() && (#[trigger] cs[i]).has_element() {
            let i = choose|i: int| 0 <= i < cs.len() && (#[trigger] cs[i]).has_element();
            if i == 0 {
                assert(cs[0].elems(pre).len() > 0);
            } else {
                assert(cs.drop_first()[i - 1] == cs[i]);
                assert(exists|k: int|
                    0 <= k < cs.drop_first().len() && (#[trigger] cs.drop_first()[k]).has_element());
                assert(Node::children_elems(cs.drop_first(), pre).len() > 0);
            }
        }
    }
}

/// Appending a subtree to a child list appends its elements.
pub(crate) proof fn lemma_children_elems_push(cs: Seq<Node>, pre: Seq<Seq<char>>, n: Node)
    ensures
        Node::children_elems(cs.push(n), pre) == Node::children_elems(cs, pre) + n.elems(pre),
    decreases cs,
{
    if cs.len() == 0 {
        assert(cs.push(n).drop_first() =~= cs);
        assert(cs.push(n)[0] == n);
        assert(Node::children_elems(cs, pre) + n.elems(pre) =~= n.elems(pre)
            + Node::children_elems(cs, pre));
    } else {
        assert(cs.push(n).drop_first() =~= cs.drop_first().push(n));
        lemma_children_elems_push(cs.drop_first(), pre, n);
        assert(Node::children_elems(cs.push(n), pre) =~= Node::children_elems(cs, pre)
            + n.elems(pre));
    }
}

/// The element sequence of a child list splits around any position.
pub(crate) proof fn lemma_children_elems_split(cs: Seq<Node>, pre: Seq<Seq<char>>, i: int)
    requires
        0 <= i <= cs.len(),
    ensures
        Node::children_elems(cs, pre) == Node::children_elems(cs.take(i), pre)
            + Node::children_elems(cs.skip(i), pre),
    decreases i,
{
    if i == 0 {
        assert(cs.take(0).len() == 0);
        assert(cs.skip(0) =~= cs);
        assert(Node::children_elems(cs, pre) =~= Node::children_elems(cs.take(0), pre)
            + Node::children_elems(cs.skip(0), pre));
    } else {
        assert(cs.len() > 0);
        lemma_children_elems_split(cs.drop_first(), pre, i - 1);
        assert(cs.take(i).drop_first() =~= cs.drop_first().take(i - 1));
        assert(cs.take(i).len() > 0);
        assert(cs.take(i)[0] == cs[0]);
        assert(cs.skip(i) =~= cs.drop_first().skip(i - 1));
        assert(Node::children_elems(cs, pre) =~= Node::children_elems(cs.take(i), pre)
            + Node::children_elems(cs.skip(i), pre));
    }
}

/// The element sequence of a child list around one child: the part before
/// it, its own elements, and the part after it.
pub(crate) proof fn lemma_children_elems_at(cs: Seq<Node>, pre: Seq<Seq<char>>, i: int)
    requires
        0 <= i < cs.len(),
    ensures
        Node::children_elems(cs, pre) == Node::children_elems(cs.take(i), pre) + cs[i].elems(pre)
            + Node::children_elems(cs.skip(i + 1), pre),
{
    lemma_children_elems_split(cs, pre, i);
    assert(cs.skip(i).len() > 0);
    assert(cs.skip(i)[0] == cs[i]);
    assert(cs.skip(i).drop_first() =~= cs.skip(i + 1));
    assert(Node::children_elems(cs, pre) =~= Node::children_elems(cs.take(i), pre)
        + cs[i].elems(pre) + Node::children_elems(cs.skip(i + 1), pre));
}

/// A path occurs among a child list's elements exactly when it occurs in
/// the elements of one of the children.
pub(crate) proof fn lemma_children_elems_mem(cs: Seq<Node>, pre: Seq<Seq<char>>, p: Seq<Seq<char>>)
    ensures
        Node::children_elems(cs, pre).contains(p) <==> exists|i: int|
            0 <= i < cs.len() && (#[trigger] cs[i]).elems(pre).contains(p),
    decreases cs,
{
    if cs.len() == 0 {
    } else {
        lemma_children_elems_mem(cs.drop_first(), pre, p);
        if Node::children_elems(cs, pre).contains(p) {
            if cs[0].elems(pre).contains(p) {
                assert(0 <= 0 < cs.len() && cs[0].elems(pre).contains(p));
            } else {
                assert(Node::children_elems(cs.drop_first(), pre).contains(p));
                let i = choose|i: int|
                    0 <= i < cs.drop_first().len() && (#[trigger] cs.drop_first()[i]).elems(
                        pre,
                    ).contains(p);
                assert(cs[i + 1] == cs.drop_first()[i]);
                assert(cs[i + 1].elems(pre).contains(p));
            }
        }
        if exists|i: int| 0 <= i < cs.len() && (#[trigger] cs[i]).elems(pre).contains(p) {
            let i = choose|i: int| 0 <= i < cs.len() && (#[trigger] cs[i]).elems(pre).contains(p);
            if i == 0 {
                let k = choose|k: int|
                    0 <= k < cs[0].elems(pre).len() && cs[0].elems(pre)[k] == p;
                assert(Node::children_elems(cs, pre)[k] == p);
            } else {
                assert(cs.drop_first()[i - 1] == cs[i]);
                assert(Node::children_elems(cs.drop_first(), pre).contains(p));
                let k = choose|k: int|
                    0 <= k < Node::children_elems(cs.drop_first(), pre).len()
                        && Node::children_elems(cs.drop_first(), pre)[k] == p;
                assert(Node::children_elems(cs, pre)[cs[0].elems(pre).len() + k] == p);
            }
        }
    }
}

/// Every element of a subtree extends the subtree root's cumulative path.
pub(crate) proof fn lemma_elems_extend(n: Node, pre: Seq<Seq<char>>, p: Seq<Seq<char>>)
    requires
        n.elems(pre).contains(p),
    ensures
        (pre + n.path@).is_prefix_of(p),
    decreases n,
{
    let cur = pre + n.path@;
    if n.is_element && p == cur {
        assert(cur.is_prefix_of(p)) by {
            assert(cur =~= p.subrange(0, cur.len() as int));
        }
    } else {
        assert(Node::children_elems(n.children@, cur).contains(p)) by {
            let k = choose|k: int| 0 <= k < n.elems(pre).len() && n.elems(pre)[k] == p;
            if n.is_element {
                assert(n.elems(pre)[0] == cur);
                assert(k != 0);
                assert(Node::children_elems(n.children@, cur)[k - 1] == p);
            } else {
                assert(Node::children_elems(n.children@, cur)[k] == p);
            }
        }
        lemma_children_elems_mem(n.children@, cur, p);
        let i = choose|i: int|
            0 <= i < n.children@.len() && (#[trigger] n.children@[i]).elems(cur).contains(p);
        lemma_elems_extend(n.children@[i], cur, p);
        assert((cur + n.children@[i].path@).is_prefix_of(p));
        assert(cur.is_prefix_of(p)) by {
            assert(cur =~= (cur + n.children@[i].path@).subrange(0, cur.len() as int));
            assert(cur =~= p.subrange(0, cur.len() as int));
        }
    }
}

/// Every element found among the children of a well-formed node is longer
/// than the node's own cumulative path and starts, component-wise, with
/// the label of the child subtree it came from.
pub(crate) proof fn lemma_children_elems_shape(
    cs: Seq<Node>,
    pre: Seq<Seq<char>>,
    p: Seq<Seq<char>>,
)
    requires
        Node::children_elems(cs, pre).contains(p),
        forall|i: int| 0 <= i < cs.len() ==> (#[trigger] cs[i]).path@.len() > 0,
    ensures
        p.len() > pre.len(),
        exists|i: int|
            0 <= i < cs.len() && (#[trigger] cs[i]).elems(pre).contains(p) && p[pre.len() as int]
                == cs[i].path@[0],
{
    lemma_children_elems_mem(cs, pre, p);
    let i = choose|i: int| 0 <= i < cs.len() && (#[trigger] cs[i]).elems(pre).contains(p);
    lemma_elems_extend(cs[i], pre, p);
    assert((pre + cs[i].path@).len() > pre.len());
    assert(p[pre.len() as int] == (pre + cs[i].path@)[pre.len() as int]);
    assert(cs[i].elems(pre).contains(p) && p[pre.len() as int] == cs[i].path@[0]);
}

/// Every position in a child list's element sequence falls into the
/// block contributed by exactly one child, at the offset where that
/// child's elements begin.
pub(crate) proof fn lemma_children_elems_block(cs: Seq<Node>, pre: Seq<Seq<char>>, k: int)
    requires
        0 <= k < Node::children_elems(cs, pre).len(),
    ensures
        exists|a: int|
            0 <= a < cs.len() && Node::children_elems(cs.take(a), pre).len() <= k && k
                - Node::children_elems(cs.take(a), pre).len() < (#[trigger] cs[a]).elems(
                pre,
            ).len() && Node::children_elems(cs, pre)[k] == cs[a].elems(pre)[k
                - Node::children_elems(cs.take(a), pre).len()],
    decreases cs,
{
    assert(cs.len() > 0);
    let h = cs[0].elems(pre);
    if k < h.len() {
        assert(Node::children_elems(cs.take(0), pre).len() == 0);
        assert(Node::children_elems(cs, pre)[k] == cs[0].elems(pre)[k]);
        assert(0 <= 0 < cs.len() && Node::children_elems(cs.take(0), pre).len() <= k && k
            - Node::children_elems(cs.take(0), pre).len() < cs[0].elems(pre).len()
            && Node::children_elems(cs, pre)[k] == cs[0].elems(pre)[k - Node::children_elems(
            cs.take(0),
            pre,
        ).len()]);
    } else {
        let d = cs.drop_first();
        lemma_children_elems_block(d, pre, k - h.len());
        let a1 = choose|a: int|
            0 <= a < d.len() && Node::children_elems(d.take(a), pre).len() <= k - h.len() && (k
                - h.len()) - Node::children_elems(d.take(a), pre).len() < (#[trigger] d[a]).elems(
                pre,
            ).len() && Node::children_elems(d, pre)[k - h.len()] == d[a].elems(pre)[(k - h.len())
                - Node::children_elems(d.take(a), pre).len()];
        let a = a1 + 1;
        assert(cs.take(a)[0] == cs[0]);
        assert(cs.take(a).drop_first() =~= d.take(a1));
        assert(Node::children_elems(cs.take(a), pre) == h + Node::children_elems(
            d.take(a1),
            pre,
        ));
        assert(cs[a] == d[a1]);
        assert(Node::children_elems(cs, pre)[k] == Node::children_elems(d, pre)[k - h.len()]);
        assert(0 <= a < cs.len() && Node::children_elems(cs.take(a), pre).len() <= k && k
            - Node::children_elems(cs.take(a), pre).len() < cs[a].elems(pre).len()
            && Node::children_elems(cs, pre)[k] == cs[a].elems(pre)[k - Node::children_elems(
            cs.take(a),
            pre,
        ).len()]);
    }
}

/// Two distinct positions of a well-formed subtree's element sequence
/// hold distinct paths, and a path standing at the first position is
/// never a prefix of one standing earlier: pre-order yields every
/// ancestor before all of its descendants.
pub(crate) proof fn lemma_elems_order(n: Node, pre: Seq<Seq<char>>, i: int, j: int)
    requires
        n.wf(),
        0 <= i < n.elems(pre).len(),
        0 <= j < n.elems(pre).len(),
        i != j,
    ensures
        n.elems(pre)[i] != n.elems(pre)[j],
        n.elems(pre)[i].is_prefix_of(n.elems(pre)[j]) ==> i < j,
    decreases n,
{
    let cur = pre + n.path@;
    let es = n.elems(pre);
    let cs = n.children@;
    let ce = Node::children_elems(cs, cur);
    let off: int = if n.is_element {
        1
    } else {
        0
    };
    if n.is_element && i == 0 {
        assert(es[0] == cur);
        assert(ce[j - 1] == es[j]);
        assert(ce.contains(es[j]));
        lemma_children_elems_shape(cs, cur, es[j]);
        assert(es[j].len() > cur.len());
        assert(es[i] != es[j]);
    } else if n.is_element && j == 0 {
        assert(es[0] == cur);
        assert(ce[i - 1] == es[i]);
        assert(ce.contains(es[i]));
        lemma_children_elems_shape(cs, cur, es[i]);
        assert(es[i].len() > cur.len());
        assert(es[i] != es[j]);
        if es[i].is_prefix_of(es[j]) {
            assert(es[i].len() <= es[j].len());
            assert(false);
        }
    } else {
        let li = i - off;
        let lj = j - off;
        assert(ce[li] == es[i]);
        assert(ce[lj] == es[j]);
        lemma_children_elems_block(cs, cur, li);
        lemma_children_elems_block(cs, cur, lj);
        let a = choose|a: int|
            0 <= a < cs.len() && Node::children_elems(cs.take(a), cur).len() <= li && li
                - Node::children_elems(cs.take(a), cur).len() < (#[trigger] cs[a]).elems(
                cur,
            ).len() && Node::children_elems(cs, cur)[li] == cs[a].elems(cur)[li
                - Node::children_elems(cs.take(a), cur).len()];
        let b = choose|b: int|
            0 <= b < cs.len() && Node::children_elems(cs.take(b), cur).len() <= lj && lj
                - Node::children_elems(cs.take(b), cur).len() < (#[trigger] cs[b]).elems(
                cur,
            ).len() && Node::children_elems(cs, cur)[lj] == cs[b].elems(cur)[lj
                - Node::children_elems(cs.take(b), cur).len()];
        let offa = Node::children_elems(cs.take(a), cur).len();
        let offb = Node::children_elems(cs.take(b), cur).len();
        let la = li - offa;
        let lb = lj - offb;
        assert(es[i] == cs[a].elems(cur)[la]);
        assert(es[j] == cs[b].elems(cur)[lb]);
        assert(cs[a].elems(cur).contains(es[i]));
        assert(cs[b].elems(cur).contains(es[j]));
        lemma_elems_extend(cs[a], cur, es[i]);
        lemma_elems_extend(cs[b], cur, es[j]);
        assert(cs[a].path@.len() > 0);
        assert(cs[b].path@.len() > 0);
        assert(es[i].len() > cur.len());
        assert(es[j].len() > cur.len());
        assert(es[i][cur.len() as int] == (cur + cs[a].path@)[cur.len() as int]);
        assert(es[j][cur.len() as int] == (cur + cs[b].path@)[cur.len() as int]);
        assert(es[i][cur.len() as int] == cs[a].path@[0]);
        assert(es[j][cur.len() as int] == cs[b].path@[0]);
        if a == b {
            assert(offa == offb);
            assert(la != lb);
            assert(decreases_to!(n => n.children));
            assert(decreases_to!(n.children => cs));
            assert(decreases_to!(cs => cs[a]));
            lemma_elems_order(cs[a], cur, la, lb);
            assert(es[i] != es[j]);
            if es[i].is_prefix_of(es[j]) {
                assert(la < lb);
                assert(i < j);
            }
        } else {
            assert(cs[a].path@[0] != cs[b].path@[0]);
            assert(es[i][cur.len() as int] != es[j][cur.len() as int]);
            assert(es[i] != es[j]);
            if es[i].is_prefix_of(es[j]) {
                assert(es[i][cur.len() as int] == es[j].subrange(0, es[i].len() as int)[cur.len()
                    as int]);
                assert(false);
            }
        }
    }
}

/// Turning a sequence with one element prepended into a multiset inserts
/// that element.
pub(crate) proof fn lemma_to_multiset_cons(x: Seq<Seq<char>>, s: Seq<Seq<Seq<char>>>)
    ensures
        (seq![x] + s).to_multiset() == s.to_multiset().insert(x),
{
    broadcast use vstd::seq_lib::group_to_multiset_ensures;

    lemma_multiset_commutative(seq![x], s);
    assert(seq![x] =~= Seq::<Seq<Seq<char>>>::empty().push(x));
    assert(Seq::<Seq<Seq<char>>>::empty().push(x).to_multiset()
        =~= Seq::<Seq<Seq<char>>>::empty().to_multiset().insert(x));
    assert(Seq::<Seq<Seq<char>>>::empty().to_multiset() =~= Multiset::<Seq<Seq<char>>>::empty())
        by {
        assert(Seq::<Seq<Seq<char>>>::empty().to_multiset().len() == 0);
    }
    assert((seq![x] + s).to_multiset() =~= s.to_multiset().insert(x));
}

/// Appending one element to a sequence inserts it into the multiset.
pub(crate) proof fn lemma_to_multiset_snoc(s: Seq<Seq<Seq<char>>>, x: Seq<Seq<char>>)
    ensures
        (s + seq![x]).to_multiset() == s.to_multiset().insert(x),
{
    broadcast use vstd::seq_lib::group_to_multiset_ensures;

    assert(s + seq![x] =~= s.push(x));
    assert(s.push(x).to_multiset() =~= s.to_multiset().insert(x));
}

/// A three-way concatenation turns into a multiset sum part by part.
pub(crate) proof fn lemma_concat3_multiset(
    a: Seq<Seq<Seq<char>>>,
    b: Seq<Seq<Seq<char>>>,
    c: Seq<Seq<Seq<char>>>,
)
    ensures
        (a + b + c).to_multiset() == a.to_multiset().add(b.to_multiset()).add(c.to_multiset()),
{
    lemma_multiset_commutative(a, b);
    lemma_multiset_commutative(a + b, c);
}

/// An element of a node's sequence is either the node's own cumulative
/// path, or one contributed by a child subtree.
pub(crate) proof fn lemma_elems_cases(n: Node, pre: Seq<Seq<char>>, p: Seq<Seq<char>>)
    requires
        n.elems(pre).contains(p),
    ensures
        (n.is_element && p == pre + n.path@) || Node::children_elems(
            n.children@,
            pre + n.path@,
        ).contains(p),
{
    let cur = pre + n.path@;
    let k = choose|k: int| 0 <= k < n.elems(pre).len() && n.elems(pre)[k] == p;
    if n.is_element {
        if k != 0 {
            assert(Node::children_elems(n.children@, cur)[k - 1] == p);
        }
    } else {
        assert(Node::children_elems(n.children@, cur)[k] == p);
    }
}

/// A path contributed by a child subtree occurs in the node's sequence.
pub(crate) proof fn lemma_elems_from_children(n: Node, pre: Seq<Seq<char>>, p: Seq<Seq<char>>)
    requires
        Node::children_elems(n.children@, pre + n.path@).contains(p),
    ensures
        n.elems(pre).contains(p),
{
    let cur = pre + n.path@;
    let k = choose|k: int|
        0 <= k < Node::children_elems(n.children@, cur).len() && Node::children_elems(
            n.children@,
            cur,
        )[k] == p;
    if n.is_element {
        assert(n.elems(pre)[k + 1] == p);
    } else {
        assert(n.elems(pre)[k] == p);
    }
}

/// An inserted node's own cumulative path occurs in its sequence.
pub(crate) proof fn lemma_elems_contains_self(n: Node, pre: Seq<Seq<char>>)
    requires
        n.is_element,
    ensures
        n.elems(pre).contains(pre + n.path@),
{
    assert(n.elems(pre)[0] == pre + n.path@);
}

/// Replacing one child by a well-formed junction that carries the same
/// leading component and the same elements plus one new path yields a
/// well-formed node holding the old elements plus that path.
/// Replacing one child by a junction that carries the same elements plus
/// one new path adds exactly that path to the node's element multiset.
#[verifier::rlimit(100)]
pub(crate) proof fn lemma_split_elems(
    oldn: Node,
    newn: Node,
    junction: Node,
    jelems: Seq<Seq<Seq<char>>>,
    pre: Seq<Seq<char>>,
    cur: Seq<Seq<char>>,
    newp: Seq<Seq<char>>,
    i: int,
)
    requires
        0 <= i < oldn.children@.len(),
        cur == pre + oldn.path@,
        newn.path@ == oldn.path@,
        newn.is_element == oldn.is_element,
        newn.children@ == oldn.children@.remove(i).push(junction),
        junction.elems(cur) == jelems,
        jelems.to_multiset() == oldn.children@[i].elems(cur).to_multiset().insert(newp),
    ensures
        newn.elems(pre).to_multiset() == oldn.elems(pre).to_multiset().insert(newp),
        newn.elems(pre) == (if oldn.is_element {
            seq![cur]
        } else {
            Seq::<Seq<Seq<char>>>::empty()
        }) + ((Node::children_elems(oldn.children@.take(i), cur) + Node::children_elems(
            oldn.children@.skip(i + 1),
            cur,
        )) + jelems),
{
    let cs = oldn.children@;
    let csn = newn.children@;
    let opt = if oldn.is_element {
        seq![cur]
    } else {
        Seq::<Seq<Seq<char>>>::empty()
    };
    let t = Node::children_elems(cs.take(i), cur);
    let s = Node::children_elems(cs.skip(i + 1), cur);
    let c0 = cs[i].elems(cur);
    lemma_children_elems_at(cs, cur, i);
    lemma_children_elems_push(cs.remove(i), cur, junction);
    lemma_children_elems_split(cs.remove(i), cur, i);
    assert(cs.remove(i).take(i) =~= cs.take(i));
    assert(cs.remove(i).skip(i) =~= cs.skip(i + 1));
    assert(Node::children_elems(csn, cur) == (t + s) + jelems);
    assert(oldn.elems(pre) == opt + (t + c0 + s));
    assert(newn.elems(pre) == opt + ((t + s) + jelems)) by {
        assert(pre + newn.path@ == cur);
    }
    lemma_concat3_multiset(t, c0, s);
    lemma_multiset_commutative(t, s);
    lemma_multiset_commutative(t + s, jelems);
    lemma_multiset_commutative(opt, t + c0 + s);
    lemma_multiset_commutative(opt, (t + s) + jelems);
    assert(newn.elems(pre).to_multiset() =~= oldn.elems(pre).to_multiset().insert(newp));
}

/// A path that is longer than a node's cumulative path, continues with
/// the leading component of one child, and does not occur in that child's
/// subtree occurs nowhere in the node's elements.
pub(crate) proof fn lemma_split_not_contained(
    oldn: Node,
    pre: Seq<Seq<char>>,
    cur: Seq<Seq<char>>,
    newp: Seq<Seq<char>>,
    i: int,
)
    requires
        oldn.wf(),
        0 <= i < oldn.children@.len(),
        cur == pre + oldn.path@,
        newp.len() > cur.len(),
        newp[cur.len() as int] == oldn.children@[i].path@[0],
        !oldn.children@[i].elems(cur).contains(newp),
    ensures
        !oldn.elems(pre).contains(newp),
{
    let cs = oldn.children@;
    if oldn.elems(pre).contains(newp) {
        lemma_elems_cases(oldn, pre, newp);
        if oldn.is_element && newp == cur {
            assert(false);
        } else {
            lemma_children_elems_mem(cs, cur, newp);
            let k = choose|k: int| 0 <= k < cs.len() && (#[trigger] cs[k]).elems(cur).contains(
                newp,
            );
            lemma_elems_extend(cs[k], cur, newp);
            assert(cs[k].path@.len() > 0);
            assert(newp[cur.len() as int] == (cur + cs[k].path@)[cur.len() as int]);
            assert(newp[cur.len() as int] == cs[k].path@[0]);
            if k != i {
                assert(cs[k].path@[0] != cs[i].path@[0]);
                assert(false);
            } else {
                assert(false);
            }
        }
    }
}

/// Replacing one child by a well-formed junction that keeps the child's
/// leading component preserves the compression invariant.
pub(crate) proof fn lemma_split_wf(oldn: Node, newn: Node, junction: Node, i: int)
    requires
        oldn.wf(),
        0 <= i < oldn.children@.len(),
        newn.children@ == oldn.children@.remove(i).push(junction),
        junction.wf(),
        junction.has_element(),
        junction.path@.len() > 0,
        junction.path@[0] == oldn.children@[i].path@[0],
    ensures
        newn.wf(),
{
    let cs = oldn.children@;
    let csn = newn.children@;
    assert forall|a: int| 0 <= a < csn.len() implies (#[trigger] csn[a]).path@.len() > 0
        && csn[a].wf() && csn[a].has_element() by {
        if a < i {
            assert(csn[a] == cs[a]);
        } else if a < cs.len() - 1 {
            assert(csn[a] == cs[a + 1]);
        } else {
            assert(csn[a] == junction);
        }
    }
    assert forall|a: int, b: int| 0 <= a < csn.len() && 0 <= b < csn.len() && a != b implies (
    #[trigger] csn[a]).path@[0] != (#[trigger] csn[b]).path@[0] by {
        let oa: int = if a < i {
            a
        } else {
            a + 1
        };
        let ob: int = if b < i {
            b
        } else {
            b + 1
        };
        if a < cs.len() - 1 && b < cs.len() - 1 {
            assert(csn[a] == cs[oa] && csn[b] == cs[ob]);
            assert(oa != ob && oa != i && ob != i);
            assert(cs[oa].path@[0] != cs[ob].path@[0]);
        } else if a == cs.len() - 1 {
            assert(csn[a] == junction && csn[b] == cs[ob]);
            assert(ob != i);
            assert(cs[ob].path@[0] != cs[i].path@[0]);
        } else {
            assert(csn[b] == junction && csn[a] == cs[oa]);
            assert(oa != i);
            assert(cs[oa].path@[0] != cs[i].path@[0]);
        }
    }
}

/// The three facts an insertion needs after a split: the invariant holds
/// again, exactly the new path was added, and it was not there before.
pub(crate) proof fn lemma_split_finish(
    oldn: Node,
    newn: Node,
    junction: Node,
    jelems: Seq<Seq<Seq<char>>>,
    pre: Seq<Seq<char>>,
    cur: Seq<Seq<char>>,
    newp: Seq<Seq<char>>,
    i: int,
)
    requires
        oldn.wf(),
        0 <= i < oldn.children@.len(),
        cur == pre + oldn.path@,
        newn.path@ == oldn.path@,
        newn.is_element == oldn.is_element,
        newn.children@ == oldn.children@.remove(i).push(junction),
        junction.wf(),
        junction.has_element(),
        junction.path@.len() > 0,
        junction.path@[0] == oldn.children@[i].path@[0],
        junction.elems(cur) == jelems,
        jelems.to_multiset() == oldn.children@[i].elems(cur).to_multiset().insert(newp),
        newp.len() > cur.len(),
        newp[cur.len() as int] == oldn.children@[i].path@[0],
        !oldn.children@[i].elems(cur).contains(newp),
    ensures
        newn.wf(),
        newn.elems(pre).to_multiset() == oldn.elems(pre).to_multiset().insert(newp),
        newn.elems(pre) == (if oldn.is_element {
            seq![cur]
        } else {
            Seq::<Seq<Seq<char>>>::empty()
        }) + ((Node::children_elems(oldn.children@.take(i), cur) + Node::children_elems(
            oldn.children@.skip(i + 1),
            cur,
        )) + jelems),
        !oldn.elems(pre).contains(newp),
{
    lemma_split_elems(oldn, newn, junction, jelems, pre, cur, newp, i);
    lemma_split_not_contained(oldn, pre, cur, newp, i);
    lemma_split_wf(oldn, newn, junction, i);
}

/// What the child scan of an insertion found.
pub(crate) enum ScanOutcome {
    /// No child shares its leading component with the target path.
    Append,
    /// The child at this index has a label that is a component-wise
    /// prefix of the target path.
    Recurse(usize),
    /// The child at this index shares this many leading components with
    /// the target path, while its label is not a prefix of the target.
    Split(usize, usize),
}

impl Node {
    /// Decides where a non-empty target path, relative to this node,
    /// belongs below this node.  By the compression invariant at most one
    /// child can share its leading component with the target, so the
    /// outcome is determined.
    fn scan_children(&self, target: &TriePath) -> (r: ScanOutcome)
        requires
            self.wf(),
            target@.len() > 0,
        ensures
            match r {
                ScanOutcome::Append => forall|k: int|
                    0 <= k < self.children@.len() ==> (#[trigger] self.children@[k]).path@[0]
                        != target@[0],
                ScanOutcome::Recurse(i) => i < self.children@.len()
                    && self.children@[i as int].path@.is_prefix_of(target@),
                ScanOutcome::Split(i, c) => i < self.children@.len() && 0 < c < self.children@[
                    i as int
                ].path@.len() && c <= target@.len() && (forall|k: int|
                    0 <= k < c ==> self.children@[i as int].path@[k] == target@[k]) && (c
                    < target@.len() ==> self.children@[i as int].path@[c as int] != target@[
                    c as int
                ]) && !self.children@[i as int].path@.is_prefix_of(target@),
            },
    {
        let mut idx: usize = 0;
        while idx < self.children.len()
            invariant
                self.wf(),
                target@.len() > 0,
                idx <= self.children@.len(),
                forall|k: int|
                    0 <= k < idx ==> (#[trigger] self.children@[k]).path@[0] != target@[0],
            decreases self.children@.len() - idx,
        {
            let child = &self.children[idx];
            if target.starts_with(&child.path) {
                return ScanOutcome::Recurse(idx);
            }
            let c = child.path.common_prefix_len(target);
            if c > 0 {
                proof {
                    assert(self.children@[idx as int].path@.len() > 0);
                    if c == child.path@.len() {
                        assert(child.path@.is_prefix_of(target@)) by {
                            assert(child.path@ =~= target@.subrange(0, c as int));
                        }
                        assert(false);
                    }
                }
                return ScanOutcome::Split(idx, c);
            }
            proof {
                assert(self.children@[idx as int].path@.len() > 0);
                assert(child.path@[0] != target@[0]);
            }
            idx = idx + 1;
        }
        ScanOutcome::Append
    }

    /// Inserts `target`, expressed relative to this node, into the
    /// subtree rooted here, splitting a child when the target shares only
    /// part of its label.  `pre` is the cumulative path of this node's
    /// parent; the affected element is thus `pre` + label + `target`.
    ///
    /// Fails with `DuplicatePath` exactly when that element is already
    /// present, and then changes nothing; otherwise the subtree's element
    /// sequence becomes exactly `elems_after`, which places that one new
    /// element case by case.
    #[verifier::rlimit(50)]
    pub(crate) fn insert(
        &mut self,
        target: &TriePath,
        Ghost(pre): Ghost<Seq<Seq<char>>>,
    ) -> (r: Result<(), InsertError>)
        requires
            old(self).wf(),
        ensures
            final(self).wf(),
            final(self).path@ == old(self).path@,
            target@.len() > 0 ==> final(self).is_element == old(self).is_element,
            target@.len() == 0 ==> final(self).children == old(self).children,
            match r {
                Ok(()) => !old(self).elems(pre).contains(pre + old(self).path@ + target@)
                    && final(self).elems(pre) == old(self).elems_after(pre, target@)
                    && final(self).elems(pre).to_multiset() == old(self).elems(
                    pre,
                ).to_multiset().insert(pre + old(self).path@ + target@),
                Err(e) => e == InsertError::DuplicatePath && final(self).elems(pre) == old(
                    self,
                ).elems(pre) && old(self).elems(pre).contains(pre + old(self).path@ + target@),
            },
        decreases *old(self),
    {
        let ghost cs = old(self).children@;
        let ghost lab = old(self).path@;
        let ghost cur = pre + lab;
        let ghost newp = pre + lab + target@;

        // Exact match: the target names this node's own cumulative path.
        if target.is_empty() {
            proof {
                assert(newp =~= cur);
            }
            if self.is_element {
                proof {
                    lemma_elems_contains_self(*self, pre);
                }
                return Err(InsertError::DuplicatePath);
            }
            self.is_element = true;
            proof {
                assert(self.children@ == cs);
                assert(self.elems(pre) =~= seq![cur] + Node::children_elems(cs, cur));
                assert(old(self).elems(pre) =~= Node::children_elems(cs, cur));
                assert(!old(self).elems(pre).contains(newp)) by {
                    if Node::children_elems(cs, cur).contains(newp) {
                        lemma_children_elems_shape(cs, cur, newp);
                        assert(newp.len() > cur.len());
                        assert(false);
                    }
                }
                lemma_to_multiset_cons(cur, Node::children_elems(cs, cur));
                assert(self.elems(pre).to_multiset() =~= old(self).elems(
                    pre,
                ).to_multiset().insert(newp));
                assert(self.elems(pre) =~= old(self).elems_after(pre, target@)) by {
                    assert(old(self).elems_after(pre, target@) == seq![cur] + old(self).elems(
                        pre,
                    ));
                    assert(seq![cur] + old(self).elems(pre) =~= seq![cur] + Node::children_elems(
                        cs,
                        cur,
                    ));
                }
            }
            return Ok(());
        }
        proof {
            assert(newp.len() == cur.len() + target@.len());
            assert(newp.skip(cur.len() as int) =~= target@);
            assert(newp[cur.len() as int] == target@[0]);
        }

        match self.scan_children(target) {
            ScanOutcome::Append => {
                // No child shares the target's leading component: the
                // target becomes a fresh leaf child.
                let leaf = Node {
                    path: target.duplicate(),
                    children: Vec::new(),
                    is_element: true,
                };
                let ghost leaf1 = leaf;
                proof {
                    assert(leaf1.wf());
                    assert(leaf1.elems(cur) =~= seq![newp]) by {
                        assert(Node::children_elems(leaf1.children@, cur + leaf1.path@).len()
                            == 0);
                        assert(cur + leaf1.path@ == newp);
                    }
                }
                self.children.push(leaf);
                proof {
                    assert(self.children@ == cs.push(leaf1));
                    lemma_children_elems_push(cs, cur, leaf1);
                    assert(self.elems(pre) =~= old(self).elems(pre) + seq![newp]);
                    lemma_to_multiset_snoc(old(self).elems(pre), newp);
                    assert(self.elems(pre).to_multiset() =~= old(self).elems(
                        pre,
                    ).to_multiset().insert(newp));
                    assert(!old(self).elems(pre).contains(newp)) by {
                        if old(self).elems(pre).contains(newp) {
                            lemma_elems_cases(*old(self), pre, newp);
                            if old(self).is_element && newp == cur {
                                assert(false);
                            } else {
                                lemma_children_elems_shape(cs, cur, newp);
                                let i = choose|i: int|
                                    0 <= i < cs.len() && (#[trigger] cs[i]).elems(cur).contains(
                                        newp,
                                    ) && newp[cur.len() as int] == cs[i].path@[0];
                                assert(cs[i].path@[0] != target@[0]);
                                assert(false);
                            }
                        }
                    }
                    assert(self.elems(pre) =~= old(self).elems_after(pre, target@)) by {
                        lemma_match_index_props(cs, target@[0]);
                        if Node::match_index(cs, target@[0]) < cs.len() {
                            let m = Node::match_index(cs, target@[0]);
                            assert(cs[m].path@[0] == target@[0]);
                            assert(false);
                        }
                        assert(old(self).elems_after(pre, target@) == old(self).elems(pre)
                            + seq![newp]);
                    }
                    assert(self.wf()) by {
                        assert(leaf1.has_element());
                        assert forall|i: int| 0 <= i < self.children@.len() implies (
                        #[trigger] self.children@[i]).path@.len() > 0 && self.children@[i].wf()
                            && self.children@[i].has_element() by {
                            if i < cs.len() {
                                assert(self.children@[i] == cs[i]);
                            } else {
                                assert(self.children@[i] == leaf1);
                            }
                        }
                        assert forall|i: int, j: int|
                            0 <= i < self.children@.len() && 0 <= j < self.children@.len() && i
                                != j implies (#[trigger] self.children@[i]).path@[0] != (
                        #[trigger] self.children@[j]).path@[0] by {
                            if i < cs.len() && j < cs.len() {
                                assert(self.children@[i] == cs[i] && self.children@[j] == cs[j]);
                            } else if i == cs.len() {
                                assert(self.children@[i] == leaf1 && self.children@[j] == cs[j]);
                                assert(cs[j].path@[0] != target@[0]);
                            } else {
                                assert(self.children@[j] == leaf1 && self.children@[i] == cs[i]);
                                assert(cs[i].path@[0] != target@[0]);
                            }
                        }
                    }
                }
                Ok(())
            },
            ScanOutcome::Recurse(i) => {
                // Some child's label is a prefix of the target: the
                // target belongs in that child's subtree.
                proof {
                    assert(cs[i as int].wf());
                    assert(cs[i as int].path@.len() > 0);
                    assert(decreases_to!(*old(self) => old(self).children));
                    assert(decreases_to!(old(self).children => cs));
                    assert(decreases_to!(cs => cs[i as int]));
                }
                let mut child = self.children.remove(i);
                let stripped = target.suffix_from(child.path.len());
                let ghost lab0 = cs[i as int].path@;
                proof {
                    assert(child == cs[i as int]);
                    assert(lab0 =~= target@.subrange(0, lab0.len() as int));
                    assert(lab0 + stripped@ =~= target@);
                    assert(cur + lab0 + stripped@ =~= newp);
                    assert(target@[0] == lab0[0]);
                }
                let r = child.insert(&stripped, Ghost(cur));
                let ghost child1 = child;
                self.children.insert(i, child);
                proof {
                    let csn = self.children@;
                    assert(csn =~= cs.update(i as int, child1));
                    assert(csn.take(i as int) =~= cs.take(i as int));
                    assert(csn.skip(i as int + 1) =~= cs.skip(i as int + 1));
                    assert(csn[i as int] == child1);
                    lemma_children_elems_at(cs, cur, i as int);
                    lemma_children_elems_at(csn, cur, i as int);
                    let opt = if old(self).is_element {
                        seq![cur]
                    } else {
                        Seq::<Seq<Seq<char>>>::empty()
                    };
                    let t = Node::children_elems(cs.take(i as int), cur);
                    let s = Node::children_elems(cs.skip(i as int + 1), cur);
                    let c0 = cs[i as int].elems(cur);
                    let c1 = child1.elems(cur);
                    assert(old(self).elems(pre) == opt + (t + c0 + s));
                    assert(self.elems(pre) == opt + (t + c1 + s));
                    assert(cur + lab0 + stripped@ == newp);
                    match r {
                        Ok(()) => {
                            assert(!cs[i as int].elems(cur).contains(newp));
                            assert(c1.to_multiset() == c0.to_multiset().insert(newp));
                            lemma_concat3_multiset(t, c0, s);
                            lemma_concat3_multiset(t, c1, s);
                            lemma_multiset_commutative(opt, t + c0 + s);
                            lemma_multiset_commutative(opt, t + c1 + s);
                            assert(self.elems(pre).to_multiset() =~= old(self).elems(
                                pre,
                            ).to_multiset().insert(newp));
                            assert(!old(self).elems(pre).contains(newp)) by {
                                if old(self).elems(pre).contains(newp) {
                                    lemma_elems_cases(*old(self), pre, newp);
                                    if old(self).is_element && newp == cur {
                                        assert(false);
                                    } else {
                                        lemma_children_elems_mem(cs, cur, newp);
                                        let k = choose|k: int|
                                            0 <= k < cs.len() && (#[trigger] cs[k]).elems(
                                                cur,
                                            ).contains(newp);
                                        lemma_elems_extend(cs[k], cur, newp);
                                        assert(cs[k].path@.len() > 0);
                                        assert(newp[cur.len() as int] == (cur + cs[k].path@)[
                                            cur.len() as int]);
                                        assert(newp[cur.len() as int] == cs[k].path@[0]);
                                        if k != i as int {
                                            assert(cs[k].path@[0] != cs[i as int].path@[0]);
                                            assert(false);
                                        } else {
                                            assert(false);
                                        }
                                    }
                                }
                            }
                            assert(self.elems(pre) == old(self).elems_after(pre, target@)) by {
                                lemma_match_index_props(cs, target@[0]);
                                let m = Node::match_index(cs, target@[0]);
                                if m == cs.len() {
                                    assert(!(cs[i as int].path@.len() > 0 && cs[i as int].path@[0]
                                        == target@[0]));
                                    assert(false);
                                }
                                if m != i as int {
                                    assert(cs[m].path@[0] == target@[0]);
                                    assert(cs[m].path@[0] != cs[i as int].path@[0]);
                                    assert(false);
                                }
                                assert(cs[i as int].path@.is_prefix_of(target@));
                                assert(stripped@ == target@.skip(cs[i as int].path@.len() as int));
                                assert(c1 == Node::elems_after(cs[i as int], cur, stripped@));
                                assert(old(self).elems_after(pre, target@) == opt + ((t + c1)
                                    + s));
                            }
                        },
                        Err(e) => {
                            assert(c1 == c0);
                            assert(self.elems(pre) =~= old(self).elems(pre));
                            assert(cs[i as int].elems(cur).contains(newp));
                            lemma_children_elems_mem(cs, cur, newp);
                            lemma_elems_from_children(*old(self), pre, newp);
                        },
                    }
                    assert(child1.has_element()) by {
                        lemma_has_element_elems(cs[i as int], cur);
                        lemma_has_element_elems(child1, cur);
                        match r {
                            Ok(()) => {
                                broadcast use vstd::seq_lib::group_to_multiset_ensures;

                                assert(c1.to_multiset().count(newp) > 0);
                                assert(c1.contains(newp));
                            },
                            Err(e) => {
                                assert(cs[i as int].has_element());
                            },
                        }
                    }
                    assert(self.wf()) by {
                        assert(child1.wf());
                        assert(child1.path@ == lab0);
                        assert forall|a: int| 0 <= a < csn.len() implies (
                        #[trigger] csn[a]).path@.len() > 0 && csn[a].wf() && csn[a].has_element()
                            by {
                            if a != i as int {
                                assert(csn[a] == cs[a]);
                            }
                        }
                        assert forall|a: int, b: int|
                            0 <= a < csn.len() && 0 <= b < csn.len() && a != b implies (
                        #[trigger] csn[a]).path@[0] != (#[trigger] csn[b]).path@[0] by {
                            assert(csn[a].path@[0] == cs[a].path@[0]);
                            assert(csn[b].path@[0] == cs[b].path@[0]);
                        }
                    }
                }
                r
            },
            ScanOutcome::Split(i, c) => {
                // Some child shares part of its label with the target: a
                // junction labelled with the shared part takes the place
                // of that child, which keeps only the remainder of its
                // label.
                let ghost lab0 = cs[i as int].path@;
                let mut problem = self.children.remove(i);
                let common = problem.path.prefix_to(c);
                let rest = problem.path.suffix_from(c);
                problem.path = rest;
                let ghost problem1 = problem;
                proof {
                    assert(problem1.children@ == cs[i as int].children@);
                    assert(problem1.is_element == cs[i as int].is_element);
                    assert(problem1.path@ == lab0.skip(c as int));
                    assert(problem1.path@.len() > 0);
                    assert(common@ == lab0.take(c as int));
                    assert(common@ =~= target@.take(c as int));
                    assert(common@[0] == lab0[0]);
                    assert(lab0[0] == target@[0]);
                    assert(problem1.wf()) by {
                        assert(cs[i as int].wf());
                        assert(problem1.children@ == cs[i as int].children@);
                    }
                    assert(problem1.has_element()) by {
                        assert(cs[i as int].has_element());
                        assert(problem1.children@ == cs[i as int].children@);
                        assert(problem1.is_element == cs[i as int].is_element);
                    }
                    assert((cur + common@) + problem1.path@ =~= cur + lab0);
                    assert(problem1.elems(cur + common@) == cs[i as int].elems(cur)) by {
                        assert((cur + common@) + problem1.path@ == cur + lab0);
                    }
                }
                let ghost x = cur + common@;
                if c == target.len() {
                    // The target is itself an ancestor of the child: the
                    // junction is the inserted element and keeps the
                    // child as its only child.
                    let mut jc: Vec<Node> = Vec::new();
                    jc.push(problem);
                    let junction = Node { path: common, children: jc, is_element: true };
                    let ghost junction1 = junction;
                    proof {
                        assert(junction1.children@ =~= seq![problem1]);
                        assert(common@ =~= target@);
                        assert(x == newp);
                        assert(junction1.children@[0] == problem1);
                        assert(junction1.wf());
                        assert(junction1.has_element());
                        assert(junction1.elems(cur) =~= seq![newp] + cs[i as int].elems(cur)) by {
                            assert(cur + junction1.path@ == x);
                            assert(seq![problem1][0] == problem1);
                            assert(seq![problem1].drop_first() =~= Seq::<Node>::empty());
                            assert(Node::children_elems(Seq::<Node>::empty(), x)
                                =~= Seq::<Seq<Seq<char>>>::empty());
                            assert(Node::children_elems(seq![problem1], x) =~= problem1.elems(x));
                        }
                    }
                    self.children.push(junction);
                    proof {
                        lemma_to_multiset_cons(newp, cs[i as int].elems(cur));
                        assert(!cs[i as int].elems(cur).contains(newp)) by {
                            if cs[i as int].elems(cur).contains(newp) {
                                lemma_elems_extend(cs[i as int], cur, newp);
                                assert((cur + lab0).len() > newp.len());
                                assert(false);
                            }
                        }
                        lemma_split_finish(
                            *old(self),
                            *self,
                            junction1,
                            seq![newp] + cs[i as int].elems(cur),
                            pre,
                            cur,
                            newp,
                            i as int,
                        );
                        assert(self.elems(pre) == old(self).elems_after(pre, target@)) by {
                            lemma_match_index_props(cs, target@[0]);
                            let m = Node::match_index(cs, target@[0]);
                            if m == cs.len() {
                                assert(!(cs[i as int].path@.len() > 0 && cs[i as int].path@[0]
                                    == target@[0]));
                                assert(false);
                            }
                            if m != i as int {
                                assert(cs[m].path@[0] == target@[0]);
                                assert(cs[m].path@[0] != cs[i as int].path@[0]);
                                assert(false);
                            }
                            lemma_common_len_is(lab0, target@, c as int);
                            assert(!lab0.is_prefix_of(target@));
                            assert(old(self).elems_after(pre, target@) == (if old(
                                self,
                            ).is_element {
                                seq![cur]
                            } else {
                                Seq::<Seq<Seq<char>>>::empty()
                            }) + ((Node::children_elems(cs.take(i as int), cur)
                                + Node::children_elems(cs.skip(i as int + 1), cur)) + (seq![newp]
                                + cs[i as int].elems(cur))));
                        }
                    }
                    Ok(())
                } else {
                    // The target and the child part ways after the shared
                    // components: the junction gets the relabelled child
                    // and a fresh leaf for the target's remainder.
                    let leaf = Node {
                        path: target.suffix_from(c),
                        children: Vec::new(),
                        is_element: true,
                    };
                    let ghost leaf1 = leaf;
                    let mut jc: Vec<Node> = Vec::new();
                    jc.push(problem);
                    jc.push(leaf);
                    let junction = Node { path: common, children: jc, is_element: false };
                    let ghost junction1 = junction;
                    proof {
                        assert(junction1.children@ =~= seq![problem1, leaf1]);
                        assert(junction1.children@[0] == problem1);
                        assert(junction1.children@[1] == leaf1);
                        assert(leaf1.path@ == target@.skip(c as int));
                        assert(leaf1.path@.len() > 0);
                        assert(leaf1.wf());
                        assert(leaf1.has_element());
                        assert(junction1.has_element());
                        assert(lab0[c as int] != target@[c as int]);
                        assert(problem1.path@[0] == lab0[c as int]);
                        assert(leaf1.path@[0] == target@[c as int]);
                        assert(junction1.wf()) by {
                            assert forall|a: int, b: int|
                                0 <= a < junction1.children@.len() && 0 <= b
                                    < junction1.children@.len() && a != b implies (
                            #[trigger] junction1.children@[a]).path@[0] != (
                            #[trigger] junction1.children@[b]).path@[0] by {
                                assert(junction1.children@[0] == problem1);
                                assert(junction1.children@[1] == leaf1);
                            }
                        }
                        assert(leaf1.elems(x) =~= seq![newp]) by {
                            assert(x + leaf1.path@ =~= newp);
                            assert(Node::children_elems(leaf1.children@, x + leaf1.path@).len()
                                == 0);
                        }
                        assert(junction1.elems(cur) =~= cs[i as int].elems(cur) + seq![newp]) by {
                            assert(cur + junction1.path@ == x);
                            assert(seq![problem1, leaf1][0] == problem1);
                            assert(seq![problem1, leaf1].drop_first() =~= seq![leaf1]);
                            assert(seq![leaf1][0] == leaf1);
                            assert(seq![leaf1].drop_first() =~= Seq::<Node>::empty());
                            assert(Node::children_elems(Seq::<Node>::empty(), x)
                                =~= Seq::<Seq<Seq<char>>>::empty());
                            assert(Node::children_elems(seq![leaf1], x) =~= leaf1.elems(x));
                            assert(Node::children_elems(seq![problem1, leaf1], x)
                                =~= problem1.elems(x) + leaf1.elems(x));
                        }
                    }
                    self.children.push(junction);
                    proof {
                        lemma_to_multiset_snoc(cs[i as int].elems(cur), newp);
                        assert(!cs[i as int].elems(cur).contains(newp)) by {
                            if cs[i as int].elems(cur).contains(newp) {
                                lemma_elems_extend(cs[i as int], cur, newp);
                                assert(newp[cur.len() + c as int] == (cur + lab0)[cur.len()
                                    + c as int]);
                                assert(newp[cur.len() + c as int] == target@[c as int]);
                                assert((cur + lab0)[cur.len() + c as int] == lab0[c as int]);
                                assert(false);
                            }
                        }
                        lemma_split_finish(
                            *old(self),
                            *self,
                            junction1,
                            cs[i as int].elems(cur) + seq![newp],
                            pre,
                            cur,
                            newp,
                            i as int,
                        );
                        assert(self.elems(pre) == old(self).elems_after(pre, target@)) by {
                            lemma_match_index_props(cs, target@[0]);
                            let m = Node::match_index(cs, target@[0]);
                            if m == cs.len() {
                                assert(!(cs[i as int].path@.len() > 0 && cs[i as int].path@[0]
                                    == target@[0]));
                                assert(false);
                            }
                            if m != i as int {
                                assert(cs[m].path@[0] == target@[0]);
                                assert(cs[m].path@[0] != cs[i as int].path@[0]);
                                assert(false);
                            }
                            lemma_common_len_is(lab0, target@, c as int);
                            assert(!lab0.is_prefix_of(target@));
                            assert(old(self).elems_after(pre, target@) == (if old(
                                self,
                            ).is_element {
                                seq![cur]
                            } else {
                                Seq::<Seq<Seq<char>>>::empty()
                            }) + ((Node::children_elems(cs.take(i as int), cur)
                                + Node::children_elems(cs.skip(i as int + 1), cur)) + (cs[
                                i as int].elems(cur) + seq![newp])));
                        }
                    }
                    Ok(())
                }
            },
        }
    }

    /// Appends to `out`, in pre-order, the full path of every inserted
    /// node of this subtree, each built by concatenating the labels from
    /// `prefix` down.
    pub(crate) fn push_elems(&self, prefix: &TriePath, out: &mut Vec<TriePath>)
        ensures
            views_of(final(out)@) == views_of(old(out)@) + self.elems(prefix@),
        decreases *self,
    {
        let ghost base = views_of(out@);
        let cur = prefix.append(&self.path);
        let ghost curv = prefix@ + self.path@;
        let ghost opt: Seq<Seq<Seq<char>>> = if self.is_element {
            seq![curv]
        } else {
            Seq::<Seq<Seq<char>>>::empty()
        };
        if self.is_element {
            let dup = cur.duplicate();
            out.push(dup);
        }
        proof {
            assert(views_of(out@) =~= base + opt);
            assert(self.children@.take(0).len() == 0);
            assert(views_of(out@) =~= base + opt + Node::children_elems(
                self.children@.take(0),
                curv,
            ));
        }
        let mut i: usize = 0;
        while i < self.children.len()
            invariant
                i <= self.children@.len(),
                cur@ == curv,
                views_of(out@) == base + opt + Node::children_elems(
                    self.children@.take(i as int),
                    curv,
                ),
            decreases self.children@.len() - i,
        {
            proof {
                assert(decreases_to!(*self => self.children));
                assert(decreases_to!(self.children => self.children@));
                assert(decreases_to!(self.children@ => self.children@[i as int]));
            }
            let child = &self.children[i];
            child.push_elems(&cur, out);
            proof {
                assert(self.children@.take(i as int + 1) =~= self.children@.take(
                    i as int,
                ).push(self.children@[i as int]));
                lemma_children_elems_push(
                    self.children@.take(i as int),
                    curv,
                    self.children@[i as int],
                );
                assert(views_of(out@) =~= base + opt + Node::children_elems(
                    self.children@.take(i as int + 1),
                    curv,
                ));
            }
            i = i + 1;
        }
        proof {
            assert(self.children@.take(self.children@.len() as int) =~= self.children@);
            assert(views_of(out@) =~= base + self.elems(prefix@));
        }
    }

    /// An iterator over the inserted paths of this subtree, in pre-order,
    /// with full paths built from this node's own label down.
    pub(crate) fn iter(&self) -> (it: NodeIterator)
        ensures
            it.wf(),
            it.remaining() == self.elems(Seq::<Seq<char>>::empty()),
    {
        NodeIterator::new(self)
    }
}

} // verus!
