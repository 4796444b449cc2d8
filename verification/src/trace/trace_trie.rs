//! A trie over traces: the set of the traces that were stored in it.

use std::collections::HashMap;
use vstd::prelude::*;
use vstd::std_specs::hash::*;

verus! {

broadcast use vstd::std_specs::hash::group_hash_axioms;

/// A node in the trace trie. A leaf ends a stored trace that no stored
/// trace goes on from. An inner node says whether a stored trace ends at
/// it, and maps the next transition id to the subtree for it.
pub enum TraceTrieNode {
    LeafNode,
    Node(bool, HashMap<usize, TraceTrieNode>),
}

impl TraceTrieNode {
    /// Whether `trace` was stored: whether the walk along all of `trace`
    /// ends on a node at which a stored trace ends.
    pub open spec fn holds(self, trace: Seq<usize>) -> bool
        decreases trace.len(),
    {
        match self {
            TraceTrieNode::LeafNode => trace.len() == 0,
            TraceTrieNode::Node(ends, children) => if trace.len() == 0 {
                ends
            } else if children@.contains_key(trace[0]) {
                children@[trace[0]].holds(trace.skip(1))
            } else {
                false
            },
        }
    }

    /// The traces that were stored.
    pub open spec fn stored(self) -> Set<Seq<usize>> {
        Set::new(|trace: Seq<usize>| self.holds(trace))
    }

    /// Whether the trie holds no trace.
    pub open spec fn is_empty(self) -> bool {
        self.stored() == Set::<Seq<usize>>::empty()
    }

    /// Creates an empty trie.
    pub fn new() -> (r: Self)
        ensures
            r.is_empty(),
            forall|trace: Seq<usize>| !r.holds(trace),
    {
        let r = TraceTrieNode::Node(false, HashMap::new());
        proof {
            assert(r.stored() =~= Set::<Seq<usize>>::empty());
        }
        r
    }

    /// Stores `trace` unless it is stored already. Returns whether it was
    /// stored before.
    pub fn exists_or_insert(&mut self, trace: &Vec<usize>) -> (r: bool)
        ensures
            r == old(self).stored().contains(trace@),
            final(self).stored() == old(self).stored().insert(trace@),
    {
        let r = self.insert_from(trace, 0);
        proof {
            assert(trace@.skip(0) =~= trace@);
            assert(self.stored() =~= old(self).stored().insert(trace@));
        }
        r
    }

    /// The walk of `exists_or_insert`, taken up at position `start` of
    /// `trace` with `self` as the node reached so far.
    fn insert_from(&mut self, trace: &Vec<usize>, start: usize) -> (r: bool)
        requires
            start <= trace.len(),
        ensures
            r == old(self).holds(trace@.skip(start as int)),
            forall|other: Seq<usize>|
                #[trigger] final(self).holds(other) == (other == trace@.skip(start as int) || old(
                    self,
                ).holds(other)),
        decreases trace.len() - start,
    {
        let ghost rest = trace@.skip(start as int);
        let mut node = TraceTrieNode::LeafNode;
        std::mem::swap(self, &mut node);
        let (ends, mut children) = match node {
            TraceTrieNode::LeafNode => (true, HashMap::new()),
            TraceTrieNode::Node(ends, children) => (ends, children),
        };
        let ghost before = children@;
        proof {
            assert forall|other: Seq<usize>|
                #[trigger] old(self).holds(other) == (TraceTrieNode::Node(ends, children)).holds(
                    other,
                ) by {}
        }
        if start == trace.len() {
            *self = if children.len() == 0 {
                TraceTrieNode::LeafNode
            } else {
                TraceTrieNode::Node(true, children)
            };
            proof {
                assert(rest.len() == 0);
                assert forall|other: Seq<usize>|
                    #[trigger] self.holds(other) == (other == rest || old(self).holds(other)) by {
                    if other.len() == 0 {
                        assert(other =~= rest);
                    } else if before.len() == 0 {
                        assert(!before.contains_key(other[0]));
                    }
                }
            }
            return ends;
        }
        let id = trace[start];
        let mut child = match children.remove(&id) {
            Some(c) => c,
            None => TraceTrieNode::new(),
        };
        let ghost child_before = child;
        let r = child.insert_from(trace, start + 1);
        let ghost child_after = child;
        children.insert(id, child);
        *self = TraceTrieNode::Node(ends, children);
        proof {
            assert(rest.skip(1) =~= trace@.skip(start as int + 1));
            assert(rest[0] == id);
            assert forall|other: Seq<usize>|
                #[trigger] self.holds(other) == (other == rest || old(self).holds(other)) by {
                if other.len() > 0 && other[0] == id {
                    assert(self.holds(other) == child_after.holds(other.skip(1)));
                    assert(old(self).holds(other) == child_before.holds(other.skip(1)));
                    if other.skip(1) == rest.skip(1) {
                        assert(other =~= seq![id] + other.skip(1));
                        assert(rest =~= seq![id] + rest.skip(1));
                    }
                }
            }
        }
        r
    }
}

} // verus!
