//! The identity index of a snapshot: for each object identity, the node that
//! stands for it.

use crate::node::{LuaGcNode, NodeView};
use crate::walk::{preorder, preorder_upto};
use std::collections::HashMap;
use vstd::prelude::*;

verus! {

/// `m` after each node of `s`, in order, is entered under its identity. A
/// later node replaces an earlier one with the same identity.
pub open spec fn insert_all(m: Map<u64, NodeView>, s: Seq<NodeView>) -> Map<u64, NodeView>
    decreases s.len(),
{
    if s.len() == 0 {
        m
    } else {
        insert_all(m, s.drop_last()).insert(s.last().identity, s.last())
    }
}

/// The identity index of a snapshot: every node of the tree under its
/// identity; of two nodes with one identity, the one met later in the walk.
pub open spec fn index_of(n: NodeView) -> Map<u64, NodeView> {
    insert_all(Map::empty(), preorder(n))
}

/// What a table of node references says as a map of node values.
pub open spec fn index_views(h: Map<u64, &LuaGcNode>) -> Map<u64, NodeView> {
    Map::new(|k: u64| h.contains_key(k), |k: u64| h[k]@)
}

/// Whether no two nodes of the tree share an identity.
pub open spec fn unique_identities(n: NodeView) -> bool {
    forall|i: int, j: int|
        0 <= i < j < preorder(n).len() ==> (#[trigger] preorder(n)[i]).identity != (
        #[trigger] preorder(n)[j]).identity
}

/// Entering two sequences one after the other is entering their
/// concatenation.
pub proof fn lemma_insert_all_concat(m: Map<u64, NodeView>, a: Seq<NodeView>, b: Seq<NodeView>)
    ensures
        insert_all(m, a + b) == insert_all(insert_all(m, a), b),
    decreases b.len(),
{
    if b.len() == 0 {
        assert(a + b =~= a);
    } else {
        assert((a + b).drop_last() =~= a + b.drop_last());
        assert((a + b).last() == b.last());
        lemma_insert_all_concat(m, a, b.drop_last());
    }
}

/// Whether no node of `s` has the identity `k`.
pub open spec fn none_with(s: Seq<NodeView>, k: u64) -> bool {
    forall|j: int| 0 <= j < s.len() ==> (#[trigger] s[j]).identity != k
}

/// Whether `s[l]` is the last node of `s` with the identity `k`.
pub open spec fn is_last_with(s: Seq<NodeView>, k: u64, l: int) -> bool {
    &&& 0 <= l < s.len()
    &&& s[l].identity == k
    &&& forall|j: int| l < j < s.len() ==> (#[trigger] s[j]).identity != k
}

/// Entering one node is one insertion.
pub proof fn lemma_insert_all_one(m: Map<u64, NodeView>, x: NodeView)
    ensures
        insert_all(m, seq![x]) == m.insert(x.identity, x),
{
    assert(seq![x].drop_last() =~= Seq::<NodeView>::empty());
    assert(insert_all(m, seq![x].drop_last()) == m);
}

/// Where `s` has no node with the identity `k`, the index holds under `k`
/// what `m` held.
pub proof fn lemma_insert_all_keeps(m: Map<u64, NodeView>, s: Seq<NodeView>, k: u64)
    requires
        none_with(s, k),
    ensures
        insert_all(m, s).contains_key(k) == m.contains_key(k),
        insert_all(m, s)[k] == m[k],
    decreases s.len(),
{
    if s.len() > 0 {
        let t = s.drop_last();
        assert forall|j: int| 0 <= j < t.len() implies (#[trigger] t[j]).identity != k by {
            assert(t[j] == s[j]);
        }
        lemma_insert_all_keeps(m, t, k);
        assert(s[s.len() - 1].identity != k);
    }
}

/// Last visited wins: the index holds under `k` the last node of `s` with
/// that identity.
pub proof fn lemma_insert_all_last_wins(m: Map<u64, NodeView>, s: Seq<NodeView>, k: u64, l: int)
    requires
        is_last_with(s, k, l),
    ensures
        insert_all(m, s).contains_key(k),
        insert_all(m, s)[k] == s[l],
    decreases s.len(),
{
    let t = s.drop_last();
    if l == s.len() - 1 {
    } else {
        assert(s[s.len() - 1].identity != k);
        assert(t[l] == s[l]);
        assert forall|j: int| l < j < t.len() implies (#[trigger] t[j]).identity != k by {
            assert(t[j] == s[j]);
        }
        lemma_insert_all_last_wins(m, t, k, l);
    }
}

/// A sequence that holds a node with identity `k` holds a last such node.
pub proof fn lemma_last_occurrence(s: Seq<NodeView>, k: u64, i: int) -> (l: int)
    requires
        0 <= i < s.len(),
        s[i].identity == k,
    ensures
        i <= l,
        is_last_with(s, k, l),
    decreases s.len() - i,
{
    if exists|j: int| i < j < s.len() && (#[trigger] s[j]).identity == k {
        let j = choose|j: int| i < j < s.len() && (#[trigger] s[j]).identity == k;
        lemma_last_occurrence(s, k, j)
    } else {
        i
    }
}

/// Every node of the tree is found in the tree's own index under its
/// identity; where identities are unique, what is found is the node itself.
pub proof fn lemma_index_holds_every_node(n: NodeView, i: int)
    requires
        0 <= i < preorder(n).len(),
    ensures
        index_of(n).contains_key(preorder(n)[i].identity),
        unique_identities(n) ==> index_of(n)[preorder(n)[i].identity] == preorder(n)[i],
{
    let s = preorder(n);
    let k = s[i].identity;
    let l = lemma_last_occurrence(s, k, i);
    lemma_insert_all_last_wins(Map::empty(), s, k, l);
    if unique_identities(n) && i < l {
        assert(preorder(n)[i].identity != preorder(n)[l].identity);
    }
}

/// The index holds exactly the identities that occur in the tree.
pub proof fn lemma_index_domain(n: NodeView, k: u64)
    ensures
        index_of(n).contains_key(k) <==> exists|i: int|
            0 <= i < preorder(n).len() && (#[trigger] preorder(n)[i]).identity == k,
{
    let s = preorder(n);
    if exists|i: int| 0 <= i < s.len() && (#[trigger] s[i]).identity == k {
        let i = choose|i: int| 0 <= i < s.len() && (#[trigger] s[i]).identity == k;
        lemma_index_holds_every_node(n, i);
    } else {
        lemma_insert_all_keeps(Map::empty(), s, k);
    }
}

impl LuaGcNode {
    /// Enters every node of the subtree into `table`, in walk order.
    fn fill_index<'a>(&'a self, table: &mut HashMap<u64, &'a LuaGcNode>)
        ensures
            index_views(final(table)@) == insert_all(index_views(old(table)@), preorder(self@)),
        decreases self,
    {
        table.insert(self.lua_obj_ptr, self);
        proof {
            lemma_insert_all_one(index_views(old(table)@), self@);
            assert(index_views(table@) =~= index_views(old(table)@).insert(
                self@.identity,
                self@,
            ));
            assert(seq![self@] + preorder_upto(self@.children, 0) =~= seq![self@]);
        }
        let mut i: usize = 0;
        while i < self.children.len()
            invariant
                i <= self.children.len(),
                index_views(table@) == insert_all(
                    index_views(old(table)@),
                    seq![self@] + preorder_upto(self@.children, i as nat),
                ),
            decreases self.children.len() - i,
        {
            let ghost before = index_views(table@);
            self.children[i].fill_index(table);
            proof {
                let head = seq![self@] + preorder_upto(self@.children, i as nat);
                let tail = preorder(self@.children[i as int]);
                lemma_insert_all_concat(index_views(old(table)@), head, tail);
                assert(head + tail =~= seq![self@] + preorder_upto(
                    self@.children,
                    (i + 1) as nat,
                ));
            }
            i = i + 1;
        }
    }

    /// The identity index of this tree: for each identity that occurs in it,
    /// the node with that identity that a depth-first walk meets last.
    pub fn _add_to_hashtable<'a>(&'a self) -> (htable: HashMap<u64, &'a LuaGcNode>)
        ensures
            index_views(htable@) == index_of(self@),
    {
        let mut htable: HashMap<u64, &'a LuaGcNode> = HashMap::new();
        proof {
            assert(index_views(htable@) =~= Map::empty());
        }
        self.fill_index(&mut htable);
        htable
    }
}

} // verus!
