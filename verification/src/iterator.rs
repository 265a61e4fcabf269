//! Iteration over the inserted paths of a trie.
//!
//! Both iterators yield the inserted paths of a subtree in pre-order: a
//! node's own path, where inserted, before any of its descendants', and
//! child subtrees in their stored order.  Each iterator takes a snapshot
//! of its subtree's paths when it is created, so later calls observe a
//! consistent sequence; its model is the sequence of paths still to come.

use vstd::prelude::*;

use crate::node::Node;
use crate::path::views_of;
use crate::path::TriePath;
use crate::PathTrie;

verus! {

/// An iterator over the inserted paths of one node's subtree.
pub(crate) struct NodeIterator {
    pub(crate) items: Vec<TriePath>,
    pub(crate) pos: usize,
}

impl NodeIterator {
    /// The position never runs past the snapshot.
    pub(crate) open spec fn wf(self) -> bool {
        self.pos <= self.items@.len()
    }

    /// The paths not yet yielded, in order.
    pub(crate) open spec fn remaining(self) -> Seq<Seq<Seq<char>>> {
        views_of(self.items@).skip(self.pos as int)
    }

    /// Starts an iteration over the subtree rooted at `node`.
    pub(crate) fn new(node: &Node) -> (it: NodeIterator)
        ensures
            it.wf(),
            it.remaining() == node.elems(Seq::<Seq<char>>::empty()),
    {
        let mut items: Vec<TriePath> = Vec::new();
        let prefix = TriePath::empty();
        proof {
            assert(views_of(items@) =~= Seq::<Seq<Seq<char>>>::empty());
        }
        node.push_elems(&prefix, &mut items);
        let it = NodeIterator { items, pos: 0 };
        proof {
            assert(it.remaining() =~= node.elems(Seq::<Seq<char>>::empty()));
        }
        it
    }

    /// Yields the next path, or nothing once all have been yielded.
    pub(crate) fn next(&mut self) -> (r: Option<TriePath>)
        requires
            old(self).wf(),
        ensures
            final(self).wf(),
            match r {
                Some(p) => old(self).remaining().len() > 0 && p@ == old(self).remaining()[0]
                    && final(self).remaining() == old(self).remaining().drop_first(),
                None => old(self).remaining().len() == 0 && final(self).remaining() == old(
                    self,
                ).remaining(),
            },
    {
        if self.pos < self.items.len() {
            let p = self.items[self.pos].duplicate();
            self.pos = self.pos + 1;
            proof {
                assert(p@ == old(self).remaining()[0]);
                assert(self.remaining() =~= old(self).remaining().drop_first());
            }
            Some(p)
        } else {
            proof {
                assert(self.remaining().len() == 0);
            }
            None
        }
    }
}

/// An iterator over all paths inserted into a trie, in pre-order.
pub struct PathTrieIterator {
    root_node_iterator: NodeIterator,
}

impl View for PathTrieIterator {
    type V = Seq<Seq<Seq<char>>>;

    closed spec fn view(&self) -> Seq<Seq<Seq<char>>> {
        self.root_node_iterator.remaining()
    }
}

impl PathTrieIterator {
    /// The iterator's snapshot is in a usable state.
    pub closed spec fn wf(self) -> bool {
        self.root_node_iterator.wf()
    }

    /// Starts an iteration over all paths inserted into `path_trie`.
    pub(crate) fn new(path_trie: &PathTrie) -> (it: PathTrieIterator)
        ensures
            it.wf(),
            it@ == path_trie@,
    {
        let it = PathTrieIterator { root_node_iterator: path_trie.root_node.iter() };
        proof {
            crate::lemma_trie_view(path_trie);
        }
        it
    }

    /// Yields the next inserted path, or nothing once all have been
    /// yielded.
    pub fn next(&mut self) -> (r: Option<TriePath>)
        requires
            old(self).wf(),
        ensures
            final(self).wf(),
            match r {
                Some(p) => old(self)@.len() > 0 && p@ == old(self)@[0] && final(self)@ == old(
                    self,
                )@.drop_first(),
                None => old(self)@.len() == 0 && final(self)@ == old(self)@,
            },
    {
        self.root_node_iterator.next()
    }
}

} // verus!
