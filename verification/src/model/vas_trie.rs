//! A trie over state vectors: each stored vector leads to the id of its state.

use crate::model::vector::VasValue;
use std::collections::HashMap;
use vstd::prelude::*;
use vstd::std_specs::hash::*;
use vstd::std_specs::iter::IteratorSpec;

verus! {

broadcast use vstd::std_specs::hash::group_hash_axioms;

/// A node in the state trie. An inner node maps the next vector component
/// to the subtree for it; a leaf carries the id of the state that the path
/// to it spells.
pub enum VasTrieNode {
    LeafNode(usize),
    Node(HashMap<VasValue, VasTrieNode>),
}

/// Why the trie refused to store a state.
#[derive(Clone, Copy, Debug, PartialEq, Eq, Structural)]
pub enum TrieError {
    /// The id is 0, which is kept for the sink.
    ReservedId,
}

impl VasTrieNode {
    /// The id that a walk along `key` ends on, if any. A leaf ends the walk
    /// wherever it is met; an inner node at the end of `key`, or a missing
    /// branch, yields nothing.
    pub open spec fn lookup(self, key: Seq<VasValue>) -> Option<usize>
        decreases key.len(),
    {
        match self {
            VasTrieNode::LeafNode(id) => Some(id),
            VasTrieNode::Node(children) => if key.len() == 0 {
                None
            } else if children@.contains_key(key[0]) {
                children@[key[0]].lookup(key.skip(1))
            } else {
                None
            },
        }
    }

    /// Whether some walk through the trie ends on `id`.
    pub open spec fn holds_id(self, id: usize) -> bool {
        exists|key: Seq<VasValue>| self.lookup(key) == Some(id)
    }

    /// Whether no walk through the trie ends anywhere.
    pub open spec fn is_empty(self) -> bool {
        forall|key: Seq<VasValue>| self.lookup(key) is None
    }

    /// Whether `after` is this trie after a call of `insert_if_not_exists`
    /// with `state` and `id` that returned `r`: the call returns where the
    /// walk along `state` ended, and after a walk that ended nowhere every
    /// key that starts with `state` leads to `id`, while all other walks
    /// end where they ended before.
    pub open spec fn inserted(
        self,
        after: VasTrieNode,
        state: Seq<VasValue>,
        id: usize,
        r: Option<usize>,
    ) -> bool {
        &&& r == self.lookup(state)
        &&& forall|key: Seq<VasValue>|
            #[trigger] after.lookup(key) == (if r is None && state.is_prefix_of(key) {
                Some(id)
            } else {
                self.lookup(key)
            })
    }

    /// Creates an empty trie.
    pub fn new() -> (r: Self)
        ensures
            r.is_empty(),
            r is Node,
    {
        VasTrieNode::Node(HashMap::new())
    }

    /// Looks `state` up and stores it under `id` when the walk ends nowhere.
    /// Returns the id that the walk ended on, or `None` after storing.
    ///
    /// Storing puts a leaf at the end of the path that `state` spells, so
    /// afterwards every key that starts with `state` leads to `id`; all
    /// other walks end where they ended before.
    ///
    /// The id 0 is kept for the sink and is no id to store under; where
    /// the id may be 0, `insert_checked` is the call to make.
    pub fn insert_if_not_exists(&mut self, state: &Vec<VasValue>, id: usize) -> (r: Option<usize>)
        requires
            id != 0,
        ensures
            old(self).inserted(*final(self), state@, id, r),
    {
        let r = self.insert_from(state, 0, id);
        proof {
            assert(state@.skip(0) =~= state@);
        }
        r
    }

    /// Looks `state` up and stores it under `id` as `insert_if_not_exists`
    /// does, unless `id` is 0: that id is kept for the sink, so the call is
    /// refused and the trie stays as it is.
    pub fn insert_checked(&mut self, state: &Vec<VasValue>, id: usize) -> (r: Result<
        Option<usize>,
        TrieError,
    >)
        ensures
            match r {
                Ok(found) => id != 0 && old(self).inserted(*final(self), state@, id, found),
                Err(e) => id == 0 && e == TrieError::ReservedId && *final(self) == *old(self),
            },
    {
        if id == 0 {
            return Err(TrieError::ReservedId);
        }
        Ok(self.insert_if_not_exists(state, id))
    }

    /// The walk of `insert_if_not_exists`, taken up at position `start` of
    /// `state` with `self` as the node reached so far.
    fn insert_from(&mut self, state: &Vec<VasValue>, start: usize, id: usize) -> (r: Option<usize>)
        requires
            start <= state.len(),
        ensures
            r == old(self).lookup(state@.skip(start as int)),
            forall|key: Seq<VasValue>|
                #[trigger] final(self).lookup(key) == (if r is None && state@.skip(
                    start as int,
                ).is_prefix_of(key) {
                    Some(id)
                } else {
                    old(self).lookup(key)
                }),
        decreases state.len() - start,
    {
        let ghost rest = state@.skip(start as int);
        if let VasTrieNode::LeafNode(existing) = self {
            return Some(*existing);
        }
        if start == state.len() {
            *self = VasTrieNode::LeafNode(id);
            return None;
        }
        let val = state[start];
        let ghost child_before = *self;
        let ghost child_after = *self;
        let mut r: Option<usize> = None;
        match self {
            VasTrieNode::LeafNode(_) => {},
            VasTrieNode::Node(children) => {
                let mut child = match children.remove(&val) {
                    Some(c) => c,
                    None => VasTrieNode::new(),
                };
                proof {
                    child_before = child;
                }
                r = child.insert_from(state, start + 1, id);
                proof {
                    child_after = child;
                }
                children.insert(val, child);
            },
        }
        proof {
            let before = old(self)->Node_0@;
            let after = self->Node_0@;
            assert(after == before.remove(val).insert(val, child_after));
            assert(rest.skip(1) =~= state@.skip(start as int + 1));
            assert(rest[0] == val);
            assert forall|key: Seq<VasValue>|
                #[trigger] self.lookup(key) == (if r is None && rest.is_prefix_of(key) {
                    Some(id)
                } else {
                    old(self).lookup(key)
                }) by {
                if key.len() > 0 && key[0] == val {
                    lemma_prefix_step(rest, key);
                    assert(self.lookup(key) == child_after.lookup(key.skip(1)));
                    assert(old(self).lookup(key) == child_before.lookup(key.skip(1)));
                }
            }
        }
        r
    }

    /// The smallest id that is larger than every id in the trie, and at
    /// least 1.
    pub fn next_available_id(&self) -> (r: usize)
        requires
            forall|id: usize| self.holds_id(id) ==> id < usize::MAX,
        ensures
            r >= 1,
            forall|id: usize| self.holds_id(id) ==> id < r,
            r == 1 || self.holds_id((r - 1) as usize),
    {
        let m = self.max_id();
        m + 1
    }

    /// The largest id in the trie, or 0 when it holds none.
    fn max_id(&self) -> (m: usize)
        ensures
            forall|id: usize| self.holds_id(id) ==> id <= m,
            m == 0 || self.holds_id(m),
        decreases self,
    {
        match self {
            VasTrieNode::LeafNode(id) => {
                assert(self.lookup(Seq::<VasValue>::empty()) == Some(*id));
                *id
            },
            VasTrieNode::Node(children) => {
                let mut best: usize = 0;
                let ghost all = spec_values_iter(children).remaining();
                let ghost mut done: int = 0;
                proof {
                    assert(all.unref().to_set() == children@.values());
                }
                for child in it: children.values()
                    invariant
                        *self == VasTrieNode::Node(*children),
                        it.seq() == all,
                        done == it.index(),
                        all.unref().to_set() == children@.values(),
                        forall|i: int, id: usize|
                            0 <= i < done && #[trigger] all[i].holds_id(id) ==> id <= best,
                        best == 0 || exists|i: int|
                            0 <= i < done && #[trigger] all[i].holds_id(best),
                {
                    proof {
                        assert(child == all[done]);
                        assert(all.unref()[done] == *child);
                        assert(children@.values().contains(*child));
                        let k = choose|k: VasValue|
                            children@.contains_key(k) && children@[k] == *child;
                        assert(children@.dom().finite());
                        let m = self->Node_0;
                        assert(m == *children);
                        assert(decreases_to!(*self => m));
                        assert(decreases_to!(m => m@));
                        assert(decreases_to!(children@ => children@[k]));
                        assert(decreases_to!(*self => *child));
                    }
                    let c = child.max_id();
                    if c > best {
                        best = c;
                    }
                    proof {
                        done = done + 1;
                    }
                }
                assert(done == all.len());
                proof {
                    assert forall|id: usize| self.holds_id(id) implies id <= best by {
                        lemma_holds_id_node(*children, id);
                        let v = choose|v: VasValue|
                            children@.contains_key(v) && children@[v].holds_id(id);
                        assert(children@.values().contains(children@[v]));
                        let i = choose|i: int|
                            0 <= i < all.len() && all.unref()[i] == children@[v];
                        assert(all[i].holds_id(id));
                    }
                    if best != 0 {
                        let i = choose|i: int| 0 <= i < done && #[trigger] all[i].holds_id(best);
                        assert(all.unref()[i] == *all[i]);
                        assert(children@.values().contains(*all[i]));
                        lemma_holds_id_node(*children, best);
                    }
                }
                best
            },
        }
    }
}

/// Inserting the same vector twice: the second call returns the id that
/// the vector has after the first, which is the id that the first call
/// returned or stored, and leaves every walk where it ended.
pub proof fn lemma_second_insert_finds_first(
    before: VasTrieNode,
    between: VasTrieNode,
    after: VasTrieNode,
    state: Seq<VasValue>,
    first_id: usize,
    second_id: usize,
    first: Option<usize>,
    second: Option<usize>,
)
    requires
        before.inserted(between, state, first_id, first),
        between.inserted(after, state, second_id, second),
    ensures
        second == Some(
            match first {
                Some(found) => found,
                None => first_id,
            },
        ),
        forall|key: Seq<VasValue>| after.lookup(key) == between.lookup(key),
{
    assert(state.is_prefix_of(state));
    assert(between.lookup(state) == (if first is None {
        Some(first_id)
    } else {
        before.lookup(state)
    }));
    assert forall|key: Seq<VasValue>| after.lookup(key) == between.lookup(key) by {
        assert(after.lookup(key) == (if second is None && state.is_prefix_of(key) {
            Some(second_id)
        } else {
            between.lookup(key)
        }));
    }
}

/// An id is held below an inner node exactly when one of its subtrees
/// holds it.
proof fn lemma_holds_id_node(children: HashMap<VasValue, VasTrieNode>, id: usize)
    ensures
        VasTrieNode::Node(children).holds_id(id) <==> exists|v: VasValue|
            children@.contains_key(v) && (#[trigger] children@[v]).holds_id(id),
{
    let node = VasTrieNode::Node(children);
    if node.holds_id(id) {
        let key = choose|key: Seq<VasValue>| node.lookup(key) == Some(id);
        assert(key.len() > 0);
        assert(children@[key[0]].lookup(key.skip(1)) == Some(id));
        assert(children@[key[0]].holds_id(id));
    }
    if exists|v: VasValue| children@.contains_key(v) && (#[trigger] children@[v]).holds_id(id) {
        let v = choose|v: VasValue|
            children@.contains_key(v) && (#[trigger] children@[v]).holds_id(id);
        let rest = choose|rest: Seq<VasValue>| children@[v].lookup(rest) == Some(id);
        let key = seq![v] + rest;
        assert(key.skip(1) =~= rest);
        assert(node.lookup(key) == Some(id));
    }
}

/// Two non-empty sequences with the same head: one is a prefix of the other
/// exactly when the same holds of their tails.
proof fn lemma_prefix_step(short: Seq<VasValue>, long: Seq<VasValue>)
    requires
        short.len() > 0,
        long.len() > 0,
        short[0] == long[0],
    ensures
        short.is_prefix_of(long) <==> short.skip(1).is_prefix_of(long.skip(1)),
{
    if short.skip(1).is_prefix_of(long.skip(1)) {
        let tail = long.skip(1).subrange(0, short.len() - 1);
        assert(short.skip(1) == tail);
        assert forall|i: int| 0 <= i < short.len() implies short[i] == long.subrange(
            0,
            short.len() as int,
        )[i] by {
            if i > 0 {
                assert(short[i] == short.skip(1)[i - 1]);
                assert(tail[i - 1] == long[i]);
            }
        }
        assert(short =~= long.subrange(0, short.len() as int));
    }
    if short.is_prefix_of(long) {
        assert(short.skip(1) =~= long.skip(1).subrange(0, short.len() - 1));
    }
}

} // verus!
