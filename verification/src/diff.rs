//! The delta between two snapshots: which objects appeared, which went away,
//! and which tables grew.

use crate::index::{index_of, index_views, lemma_index_holds_every_node, unique_identities};
use crate::walk::{
    lemma_preorder_holds_child, lemma_preorder_root_or_child, preorder, preorder_upto,
};
use crate::node::{LuaGcNode, LuaGcNodeIncrOrDecr, LuaGcNodeType, NodeView};
use crate::strings::{decimal, parse_table_size, push_decimal, table_size};
use std::collections::{HashMap, VecDeque};
use vstd::prelude::*;
use vstd::string::StringExecFns;

verus! {

/// Why a delta could not be computed.
#[derive(Clone, Copy, PartialEq, Eq, Structural, Debug)]
pub enum DiffError {
    /// The sizes of a table in the two snapshots had to be compared, and one
    /// of the two descriptions carries no readable size.
    MalformedDescription,
}

/// The mark that a delta puts on a node: `Incr` in the delta of what grew,
/// `Decr` in the delta of what shrank.
pub open spec fn marker(is_incr: bool) -> LuaGcNodeIncrOrDecr {
    if is_incr {
        LuaGcNodeIncrOrDecr::Incr
    } else {
        LuaGcNodeIncrOrDecr::Decr
    }
}

/// `+` in the delta of what grew, `-` in the delta of what shrank.
pub open spec fn sign(is_incr: bool) -> char {
    if is_incr {
        '+'
    } else {
        '-'
    }
}

/// What a delta appends to the description of a node that the other
/// snapshot lacks: `(+)` or `(-)`.
pub open spec fn absent_suffix(is_incr: bool) -> Seq<char> {
    seq!['(', sign(is_incr), ')']
}

/// What a delta appends to the description of a table that is larger by
/// `by` than in the other snapshot: `(+by)` or `(-by)`.
pub open spec fn growth_suffix(is_incr: bool, by: nat) -> Seq<char> {
    seq!['(', sign(is_incr)] + decimal(by) + seq![')']
}

/// Whether the other snapshot has no node with the identity of `n`.
pub open spec fn absent(n: NodeView, index: Map<u64, NodeView>) -> bool {
    !index.contains_key(n.identity)
}

/// Whether the size of `n` has to be compared with that of its counterpart:
/// `n` is a table and the other snapshot has a node with its identity.
pub open spec fn compared(n: NodeView, index: Map<u64, NodeView>) -> bool {
    n.node_type == LuaGcNodeType::LuaTableType && index.contains_key(n.identity)
}

/// Whether the comparison at `n` is due and cannot be made: one of the two
/// descriptions carries no readable size.
pub open spec fn malformed_at(n: NodeView, index: Map<u64, NodeView>) -> bool {
    compared(n, index) && (table_size(index[n.identity].desc) is None || table_size(n.desc) is None)
}

/// By how much the table `n` is larger than its counterpart in the other
/// snapshot; zero where no comparison is due or made, and where `n` is not
/// the larger one.
pub open spec fn growth(n: NodeView, index: Map<u64, NodeView>) -> nat {
    if compared(n, index) && !malformed_at(n, index) && table_size(n.desc)->0 > table_size(
        index[n.identity].desc,
    )->0 {
        (table_size(n.desc)->0 - table_size(index[n.identity].desc)->0) as nat
    } else {
        0
    }
}

/// Whether some comparison that the delta of the subtree `n` needs cannot be
/// made.
pub open spec fn malformed(n: NodeView, index: Map<u64, NodeView>) -> bool
    decreases n,
{
    malformed_at(n, index) || malformed_upto(n.children, n.children.len(), index)
}

/// `malformed` of one of the first `k` nodes of `s`.
pub open spec fn malformed_upto(s: Seq<NodeView>, k: nat, index: Map<u64, NodeView>) -> bool
    decreases s, k,
{
    if k == 0 || k > s.len() {
        false
    } else {
        malformed_upto(s, (k - 1) as nat, index) || malformed(s[k - 1], index)
    }
}

/// Whether `n` belongs to the delta: the other snapshot lacks it, or it is a
/// table that grew, or one of its descendants belongs to the delta.
pub open spec fn contributes(n: NodeView, index: Map<u64, NodeView>) -> bool
    decreases n,
{
    absent(n, index) || growth(n, index) > 0 || contributes_upto(
        n.children,
        n.children.len(),
        index,
    )
}

/// `contributes` of one of the first `k` nodes of `s`.
pub open spec fn contributes_upto(s: Seq<NodeView>, k: nat, index: Map<u64, NodeView>) -> bool
    decreases s, k,
{
    if k == 0 || k > s.len() {
        false
    } else {
        contributes_upto(s, (k - 1) as nat, index) || contributes(s[k - 1], index)
    }
}

/// The node that the delta copies for `n`: `n` itself in the delta of what
/// grew and wherever the other snapshot lacks `n`, else the counterpart of
/// `n` in the other snapshot.
pub open spec fn delta_source(n: NodeView, index: Map<u64, NodeView>, is_incr: bool) -> NodeView {
    if is_incr || absent(n, index) {
        n
    } else {
        index[n.identity]
    }
}

/// What the delta appends to the description of `n`.
pub open spec fn delta_suffix(n: NodeView, index: Map<u64, NodeView>, is_incr: bool) -> Seq<char> {
    if absent(n, index) {
        absent_suffix(is_incr)
    } else if growth(n, index) > 0 {
        growth_suffix(is_incr, growth(n, index))
    } else {
        Seq::empty()
    }
}

/// The node that stands for `n` in the delta, for an `n` that belongs to
/// it: a copy of its source, marked and with the suffix where `n` is absent
/// or grew, and below it the delta nodes of its children that belong to the
/// delta, in order.
pub open spec fn delta(n: NodeView, index: Map<u64, NodeView>, is_incr: bool) -> NodeView
    decreases n,
{
    let src = delta_source(n, index, is_incr);
    NodeView {
        name: src.name,
        node_type: src.node_type,
        incr_or_decr: if absent(n, index) || growth(n, index) > 0 {
            marker(is_incr)
        } else {
            src.incr_or_decr
        },
        refs: src.refs,
        desc: src.desc + delta_suffix(n, index, is_incr),
        link: src.link,
        identity: src.identity,
        children: deltas_upto(n.children, n.children.len(), index, is_incr),
    }
}

/// The delta nodes of those of the first `k` nodes of `s` that belong to the
/// delta, in order.
pub open spec fn deltas_upto(
    s: Seq<NodeView>,
    k: nat,
    index: Map<u64, NodeView>,
    is_incr: bool,
) -> Seq<NodeView>
    decreases s, k,
{
    if k == 0 || k > s.len() {
        Seq::empty()
    } else if contributes(s[k - 1], index) {
        deltas_upto(s, (k - 1) as nat, index, is_incr).push(delta(s[k - 1], index, is_incr))
    } else {
        deltas_upto(s, (k - 1) as nat, index, is_incr)
    }
}

/// The delta of the subtree `n` against the index of the other snapshot:
/// nothing where `n` does not belong to it.
pub open spec fn diff_node(n: NodeView, index: Map<u64, NodeView>, is_incr: bool) -> Option<
    NodeView,
> {
    if contributes(n, index) {
        Some(delta(n, index, is_incr))
    } else {
        None
    }
}

/// The values of a sequence of nodes.
pub open spec fn node_views(s: Seq<LuaGcNode>) -> Seq<NodeView> {
    Seq::new(s.len(), |i: int| s[i]@)
}

/// The value of a node that may be missing.
pub open spec fn option_view(o: Option<LuaGcNode>) -> Option<NodeView> {
    match o {
        Some(n) => Some(n@),
        None => None,
    }
}

/// A comparison that fails among the first `i` children fails among the
/// first `j`, for `i <= j`.
pub proof fn lemma_malformed_upto_monotone(
    s: Seq<NodeView>,
    i: nat,
    j: nat,
    index: Map<u64, NodeView>,
)
    requires
        i <= j <= s.len(),
        malformed_upto(s, i, index),
    ensures
        malformed_upto(s, j, index),
    decreases j,
{
    if i < j {
        lemma_malformed_upto_monotone(s, i, (j - 1) as nat, index);
    }
}

/// Some child among the first `k` belongs to the delta exactly if the delta
/// nodes of those children are not empty.
pub proof fn lemma_deltas_nonempty(
    s: Seq<NodeView>,
    k: nat,
    index: Map<u64, NodeView>,
    is_incr: bool,
)
    requires
        k <= s.len(),
    ensures
        contributes_upto(s, k, index) <==> deltas_upto(s, k, index, is_incr).len() > 0,
    decreases k,
{
    if k > 0 {
        lemma_deltas_nonempty(s, (k - 1) as nat, index, is_incr);
    }
}

impl LuaGcNode {
    /// The table size that the description carries: the value of its first
    /// run of decimal digits. Fails where the description holds no digit or
    /// the value does not fit in 32 bits.
    pub fn get_table_size_from_desc(&self) -> (r: Result<u32, DiffError>)
        ensures
            r matches Ok(v) ==> table_size(self@.desc) == Some(v),
            r is Err ==> table_size(self@.desc) is None,
    {
        match parse_table_size(self.desc.as_str()) {
            Some(v) => Ok(v),
            None => Err(DiffError::MalformedDescription),
        }
    }

    /// The delta of this subtree against `htable`, the identity index of the
    /// other snapshot. With `is_incr` the result holds what this tree has and
    /// the other lacks, each such node marked `Incr` with `(+)` behind its
    /// description, and the tables that are larger here, marked `Incr` with
    /// `(+n)`; without it the marks are `Decr`, `(-)` and `(-n)`, and a node
    /// that both snapshots have is copied from the other one. Nodes that
    /// neither differ nor lead to one that does are left out; `None` says
    /// that the root is such a node. Fails where a table's size has to be
    /// compared and cannot be read.
    pub fn _get_incr_or_decr_by_htable(
        &self,
        htable: &HashMap<u64, &LuaGcNode>,
        is_incr: bool,
    ) -> (r: Result<Option<LuaGcNode>, DiffError>)
        ensures
            r is Err <==> malformed(self@, index_views(htable@)),
            r matches Ok(o) ==> option_view(o) == diff_node(
                self@,
                index_views(htable@),
                is_incr,
            ),
        decreases self,
    {
        let ghost index = index_views(htable@);
        let mut kids: VecDeque<LuaGcNode> = VecDeque::new();
        let mut i: usize = 0;
        while i < self.children.len()
            invariant
                i <= self.children.len(),
                index == index_views(htable@),
                !malformed_upto(self@.children, i as nat, index),
                node_views(kids@) == deltas_upto(self@.children, i as nat, index, is_incr),
            decreases self.children.len() - i,
        {
            let ghost before = node_views(kids@);
            match self.children[i]._get_incr_or_decr_by_htable(htable, is_incr) {
                Err(e) => {
                    proof {
                        lemma_malformed_upto_monotone(
                            self@.children,
                            (i + 1) as nat,
                            self@.children.len(),
                            index,
                        );
                    }
                    return Err(e);
                },
                Ok(Some(d)) => {
                    kids.push_back(d);
                    proof {
                        assert(node_views(kids@) =~= before.push(d@));
                    }
                },
                Ok(None) => {},
            }
            i = i + 1;
        }
        proof {
            lemma_deltas_nonempty(self@.children, self@.children.len(), index, is_incr);
        }
        match htable.get(&self.lua_obj_ptr) {
            None => {
                let mut ret = self.copy();
                if is_incr {
                    ret.incr_or_decr = LuaGcNodeIncrOrDecr::Incr;
                    ret.desc.append("(+)");
                } else {
                    ret.incr_or_decr = LuaGcNodeIncrOrDecr::Decr;
                    ret.desc.append("(-)");
                }
                ret.children = kids;
                proof {
                    reveal_strlit("(+)");
                    reveal_strlit("(-)");
                    assert("(+)"@ =~= absent_suffix(true));
                    assert("(-)"@ =~= absent_suffix(false));
                    assert(ret@.children =~= node_views(kids@));
                    assert(ret@ =~= delta(self@, index, is_incr));
                }
                Ok(Some(ret))
            },
            Some(found) => {
                let mut grown: Option<u32> = None;
                if self.node_type == LuaGcNodeType::LuaTableType {
                    let tbl1_size = match found.get_table_size_from_desc() {
                        Ok(v) => v,
                        Err(e) => {
                            return Err(e);
                        },
                    };
                    let tbl2_size = match self.get_table_size_from_desc() {
                        Ok(v) => v,
                        Err(e) => {
                            return Err(e);
                        },
                    };
                    if tbl2_size > tbl1_size {
                        grown = Some(tbl2_size - tbl1_size);
                    }
                }
                if kids.len() == 0 && grown.is_none() {
                    return Ok(None);
                }
                let mut ret = if is_incr {
                    self.copy()
                } else {
                    found.copy()
                };
                ret.children = kids;
                if let Some(by) = grown {
                    if is_incr {
                        ret.desc.append("(+");
                        ret.incr_or_decr = LuaGcNodeIncrOrDecr::Incr;
                    } else {
                        ret.desc.append("(-");
                        ret.incr_or_decr = LuaGcNodeIncrOrDecr::Decr;
                    }
                    push_decimal(&mut ret.desc, by);
                    ret.desc.append(")");
                    proof {
                        reveal_strlit("(+");
                        reveal_strlit("(-");
                        reveal_strlit(")");
                        assert("(+"@ =~= seq!['(', '+']);
                        assert("(-"@ =~= seq!['(', '-']);
                        assert(")"@ =~= seq![')']);
                        assert(ret@.desc =~= delta_source(self@, index, is_incr).desc
                            + growth_suffix(is_incr, by as nat));
                    }
                }
                proof {
                    assert(ret@.children =~= node_views(kids@));
                    assert(ret@ =~= delta(self@, index, is_incr));
                }
                Ok(Some(ret))
            },
        }
    }

    /// What this snapshot has over the older snapshot `from`: the nodes whose
    /// identity `from` lacks and the tables that are larger here, under the
    /// nodes that lead to them. `None` where there is nothing of the kind.
    pub fn incr(&self, from: &Self) -> (r: Result<Option<Self>, DiffError>)
        ensures
            r is Err <==> malformed(self@, index_of(from@)),
            r matches Ok(o) ==> option_view(o) == diff_node(self@, index_of(from@), true),
    {
        let htable = from._add_to_hashtable();
        self._get_incr_or_decr_by_htable(&htable, true)
    }

    /// What the older snapshot `from` has over this one: the nodes whose
    /// identity this snapshot lacks and the tables that were larger there,
    /// under the nodes that lead to them. `None` where there is nothing of
    /// the kind.
    pub fn decr(&self, from: &Self) -> (r: Result<Option<Self>, DiffError>)
        ensures
            r is Err <==> malformed(from@, index_of(self@)),
            r matches Ok(o) ==> option_view(o) == diff_node(from@, index_of(self@), false),
    {
        let htable = self._add_to_hashtable();
        from._get_incr_or_decr_by_htable(&htable, false)
    }
}

/// What `diff` gives for two snapshots: the delta of what grew from
/// `old_tree` to `new_tree` and the delta of what shrank, or the failure
/// where one of the two cannot be computed.
pub open spec fn diff_outcome(old_tree: NodeView, new_tree: NodeView) -> Result<
    (Option<NodeView>, Option<NodeView>),
    DiffError,
> {
    if malformed(new_tree, index_of(old_tree)) || malformed(old_tree, index_of(new_tree)) {
        Err(DiffError::MalformedDescription)
    } else {
        Ok(
            (
                diff_node(new_tree, index_of(old_tree), true),
                diff_node(old_tree, index_of(new_tree), false),
            ),
        )
    }
}

/// The value of what `diff` returns.
pub open spec fn outcome_view(
    r: Result<(Option<LuaGcNode>, Option<LuaGcNode>), DiffError>,
) -> Result<(Option<NodeView>, Option<NodeView>), DiffError> {
    match r {
        Ok((grown, shrunk)) => Ok((option_view(grown), option_view(shrunk))),
        Err(e) => Err(e),
    }
}

/// The two deltas between an older and a newer snapshot. The first holds
/// what `new_tree` has over `old_tree`, the second what `old_tree` has over
/// `new_tree`; each is `None` where there is nothing to report. Fails where a
/// table's size has to be compared and cannot be read.
pub fn diff(old_tree: &LuaGcNode, new_tree: &LuaGcNode) -> (r: Result<
    (Option<LuaGcNode>, Option<LuaGcNode>),
    DiffError,
>)
    ensures
        outcome_view(r) == diff_outcome(old_tree@, new_tree@),
{
    let grown = match new_tree.incr(old_tree) {
        Ok(g) => g,
        Err(e) => {
            return Err(e);
        },
    };
    let shrunk = match new_tree.decr(old_tree) {
        Ok(s) => s,
        Err(e) => {
            return Err(e);
        },
    };
    Ok((grown, shrunk))
}

/// Whether the delta has nothing to say of the node `x` itself: the other
/// snapshot has its identity, and `x` is no table that grew.
pub open spec fn quiet(x: NodeView, index: Map<u64, NodeView>) -> bool {
    !absent(x, index) && growth(x, index) == 0
}

/// A subtree belongs to the delta exactly if the delta has something to say
/// of one of its nodes: the other snapshot lacks that node, or it is a
/// table that grew.
pub proof fn lemma_contributes_iff_some_node_differs(n: NodeView, index: Map<u64, NodeView>)
    ensures
        contributes(n, index) <==> exists|x: NodeView|
            #[trigger] preorder(n).contains(x) && !quiet(x, index),
    decreases n,
{
    assert(preorder(n)[0] == n);
    lemma_contributes_upto_iff(n, n.children.len(), index);
    if contributes(n, index) {
        if quiet(n, index) {
            let k = choose|k: int|
                0 <= k < n.children.len() && contributes(#[trigger] n.children[k], index);
            lemma_contributes_iff_some_node_differs(n.children[k], index);
            let x = choose|x: NodeView|
                #[trigger] preorder(n.children[k]).contains(x) && !quiet(x, index);
            lemma_preorder_holds_child(n, k, x);
        } else {
            assert(preorder(n).contains(n));
        }
    }
    if exists|x: NodeView| #[trigger] preorder(n).contains(x) && !quiet(x, index) {
        let x = choose|x: NodeView| #[trigger] preorder(n).contains(x) && !quiet(x, index);
        if x != n {
            lemma_preorder_root_or_child(n, x);
            let k = choose|k: int|
                0 <= k < n.children.len() && preorder(#[trigger] n.children[k]).contains(x);
            lemma_contributes_iff_some_node_differs(n.children[k], index);
        }
    }
}

/// `contributes_upto` holds of the first `k` children exactly if one of
/// them belongs to the delta.
pub proof fn lemma_contributes_upto_iff(n: NodeView, k: nat, index: Map<u64, NodeView>)
    requires
        k <= n.children.len(),
    ensures
        contributes_upto(n.children, k, index) <==> exists|j: int|
            0 <= j < k && contributes(#[trigger] n.children[j], index),
    decreases k,
{
    if k > 0 {
        lemma_contributes_upto_iff(n, (k - 1) as nat, index);
        if contributes_upto(n.children, k, index) {
            if contributes(n.children[k - 1], index) {
            } else {
                let j = choose|j: int|
                    0 <= j < k - 1 && contributes(#[trigger] n.children[j], index);
                assert(0 <= j < k && contributes(n.children[j], index));
            }
        }
    }
}

/// Whether no table of the tree is larger than the node that the tree's own
/// index holds under its identity. This fails only where two nodes share an
/// identity.
pub open spec fn no_growth_within(a: NodeView) -> bool {
    forall|x: NodeView| #[trigger] preorder(a).contains(x) ==> growth(x, index_of(a)) == 0
}

/// In a snapshot whose identities are unique no table is larger than its own
/// entry in the index.
pub proof fn lemma_unique_identities_no_growth(a: NodeView)
    requires
        unique_identities(a),
    ensures
        no_growth_within(a),
{
    assert forall|x: NodeView| #[trigger] preorder(a).contains(x) implies growth(x, index_of(a))
        == 0 by {
        let i = choose|i: int| 0 <= i < preorder(a).len() && preorder(a)[i] == x;
        lemma_index_holds_every_node(a, i);
    }
}

/// A snapshot has no delta against itself: where every size that has to be
/// compared can be read, and no table is larger than its own entry in the
/// index, `diff` of a snapshot with itself gives `(None, None)`.
pub proof fn lemma_diff_with_itself(a: NodeView)
    requires
        !malformed(a, index_of(a)),
        no_growth_within(a),
    ensures
        diff_outcome(a, a) == Ok::<(Option<NodeView>, Option<NodeView>), DiffError>((None, None)),
{
    let index = index_of(a);
    lemma_contributes_iff_some_node_differs(a, index);
    if contributes(a, index) {
        let x = choose|x: NodeView| #[trigger] preorder(a).contains(x) && !quiet(x, index);
        let i = choose|i: int| 0 <= i < preorder(a).len() && preorder(a)[i] == x;
        lemma_index_holds_every_node(a, i);
    }
}

/// The delta nodes of those nodes of `s` that belong to the delta, in the
/// order of `s`.
pub open spec fn delta_nodes(s: Seq<NodeView>, index: Map<u64, NodeView>, is_incr: bool) -> Seq<
    NodeView,
>
    decreases s.len(),
{
    if s.len() == 0 {
        Seq::empty()
    } else if contributes(s.last(), index) {
        delta_nodes(s.drop_last(), index, is_incr).push(delta(s.last(), index, is_incr))
    } else {
        delta_nodes(s.drop_last(), index, is_incr)
    }
}

/// The delta nodes of two runs of nodes, one after the other, are those of
/// the two runs put together.
pub proof fn lemma_delta_nodes_concat(
    a: Seq<NodeView>,
    b: Seq<NodeView>,
    index: Map<u64, NodeView>,
    is_incr: bool,
)
    ensures
        delta_nodes(a + b, index, is_incr) == delta_nodes(a, index, is_incr) + delta_nodes(
            b,
            index,
            is_incr,
        ),
    decreases b.len(),
{
    if b.len() == 0 {
        assert(a + b =~= a);
    } else {
        assert((a + b).drop_last() =~= a + b.drop_last());
        assert((a + b).last() == b.last());
        lemma_delta_nodes_concat(a, b.drop_last(), index, is_incr);
    }
}

/// The delta nodes of a single node: its delta node where it belongs to the
/// delta, nothing else.
pub proof fn lemma_delta_nodes_one(x: NodeView, index: Map<u64, NodeView>, is_incr: bool)
    ensures
        delta_nodes(seq![x], index, is_incr) == if contributes(x, index) {
            seq![delta(x, index, is_incr)]
        } else {
            Seq::empty()
        },
{
    assert(seq![x].drop_last() =~= Seq::<NodeView>::empty());
    assert(delta_nodes(seq![x].drop_last(), index, is_incr) =~= Seq::<NodeView>::empty());
}

/// The walk over the first `k` nodes of a sequence does not depend on what
/// follows them.
pub proof fn lemma_preorder_upto_push(s: Seq<NodeView>, x: NodeView, k: nat)
    requires
        k <= s.len(),
    ensures
        preorder_upto(s.push(x), k) == preorder_upto(s, k),
    decreases k,
{
    if k > 0 {
        lemma_preorder_upto_push(s, x, (k - 1) as nat);
        assert(s.push(x)[k - 1] == s[k - 1]);
    }
}

/// The nodes of a delta, in walk order, are the delta nodes of exactly those
/// nodes of the subject that belong to the delta, in walk order. A subtree
/// that does not belong to the delta leaves no node in it.
pub proof fn lemma_delta_walk(n: NodeView, index: Map<u64, NodeView>, is_incr: bool)
    ensures
        delta_nodes(preorder(n), index, is_incr) == if contributes(n, index) {
            preorder(delta(n, index, is_incr))
        } else {
            Seq::empty()
        },
    decreases n,
{
    let below = preorder_upto(n.children, n.children.len());
    lemma_delta_nodes_concat(seq![n], below, index, is_incr);
    lemma_delta_nodes_one(n, index, is_incr);
    lemma_delta_walk_upto(n.children, n.children.len(), index, is_incr);
    lemma_deltas_nonempty(n.children, n.children.len(), index, is_incr);
    if !contributes(n, index) {
        assert(delta_nodes(below, index, is_incr) =~= Seq::empty());
        assert(delta_nodes(preorder(n), index, is_incr) =~= Seq::empty());
    }
}

/// `lemma_delta_walk` for the first `k` nodes of `s`: the walk over their
/// delta nodes meets the delta nodes of the walk over them.
pub proof fn lemma_delta_walk_upto(
    s: Seq<NodeView>,
    k: nat,
    index: Map<u64, NodeView>,
    is_incr: bool,
)
    requires
        k <= s.len(),
    ensures
        delta_nodes(preorder_upto(s, k), index, is_incr) == preorder_upto(
            deltas_upto(s, k, index, is_incr),
            deltas_upto(s, k, index, is_incr).len(),
        ),
    decreases s, k,
{
    if k > 0 {
        let before = deltas_upto(s, (k - 1) as nat, index, is_incr);
        lemma_delta_walk_upto(s, (k - 1) as nat, index, is_incr);
        lemma_delta_walk(s[k - 1], index, is_incr);
        lemma_delta_nodes_concat(
            preorder_upto(s, (k - 1) as nat),
            preorder(s[k - 1]),
            index,
            is_incr,
        );
        if contributes(s[k - 1], index) {
            let d = delta(s[k - 1], index, is_incr);
            lemma_preorder_upto_push(before, d, before.len());
            assert(before.push(d)[before.len() as int] == d);
        } else {
            assert(delta_nodes(preorder_upto(s, k), index, is_incr) =~= delta_nodes(
                preorder_upto(s, (k - 1) as nat),
                index,
                is_incr,
            ));
        }
    }
}

/// A node of the subject that belongs to the delta has its delta node in
/// the delta: where the other snapshot lacks `x`, the delta of a tree that
/// holds `x` holds a copy of `x`, marked, with `(+)` or `(-)` behind its
/// description.
pub proof fn lemma_delta_holds_absent_node(
    n: NodeView,
    x: NodeView,
    index: Map<u64, NodeView>,
    is_incr: bool,
)
    requires
        preorder(n).contains(x),
        absent(x, index),
    ensures
        contributes(n, index),
        preorder(delta(n, index, is_incr)).contains(delta(x, index, is_incr)),
        delta(x, index, is_incr).shallow() == (NodeView {
            incr_or_decr: marker(is_incr),
            desc: x.desc + absent_suffix(is_incr),
            ..x.shallow()
        }),
{
    lemma_contributes_iff_some_node_differs(n, index);
    lemma_delta_walk(n, index, is_incr);
    let i = choose|i: int| 0 <= i < preorder(n).len() && preorder(n)[i] == x;
    lemma_delta_nodes_holds(preorder(n), i, index, is_incr);
}

/// The delta nodes of a run of nodes hold the delta node of each node of
/// the run that belongs to the delta.
pub proof fn lemma_delta_nodes_holds(
    s: Seq<NodeView>,
    i: int,
    index: Map<u64, NodeView>,
    is_incr: bool,
)
    requires
        0 <= i < s.len(),
        contributes(s[i], index),
    ensures
        delta_nodes(s, index, is_incr).contains(delta(s[i], index, is_incr)),
    decreases s.len(),
{
    let t = s.drop_last();
    let rest = delta_nodes(t, index, is_incr);
    if i == s.len() - 1 {
        assert(rest.push(delta(s[i], index, is_incr))[rest.len() as int] == delta(
            s[i],
            index,
            is_incr,
        ));
    } else {
        lemma_delta_nodes_holds(t, i, index, is_incr);
        let j = choose|j: int| 0 <= j < rest.len() && rest[j] == delta(t[i], index, is_incr);
        if contributes(s.last(), index) {
            assert(rest.push(delta(s.last(), index, is_incr))[j] == rest[j]);
        }
    }
}

/// Every node of a delta stands for a node of the subject that belongs to
/// the delta: no branch of a delta is unrelated to a difference.
pub proof fn lemma_delta_nodes_come_from(
    s: Seq<NodeView>,
    d: NodeView,
    index: Map<u64, NodeView>,
    is_incr: bool,
)
    requires
        delta_nodes(s, index, is_incr).contains(d),
    ensures
        exists|i: int|
            0 <= i < s.len() && contributes(#[trigger] s[i], index) && d == delta(
                s[i],
                index,
                is_incr,
            ),
    decreases s.len(),
{
    let all = delta_nodes(s, index, is_incr);
    let j = choose|j: int| 0 <= j < all.len() && all[j] == d;
    if s.len() > 0 {
        let t = s.drop_last();
        let rest = delta_nodes(t, index, is_incr);
        if contributes(s.last(), index) && j == rest.len() {
            assert(contributes(s[s.len() - 1], index));
        } else {
            assert(rest[j] == d);
            lemma_delta_nodes_come_from(t, d, index, is_incr);
            let i = choose|i: int|
                0 <= i < t.len() && contributes(#[trigger] t[i], index) && d == delta(
                    t[i],
                    index,
                    is_incr,
                );
            assert(s[i] == t[i]);
        }
    }
}

/// Every node of a delta is the delta node of a node of the subject that
/// belongs to the delta: the delta has no branch that leads to no
/// difference.
pub proof fn lemma_delta_node_origin(
    n: NodeView,
    d: NodeView,
    index: Map<u64, NodeView>,
    is_incr: bool,
)
    requires
        contributes(n, index),
        preorder(delta(n, index, is_incr)).contains(d),
    ensures
        exists|x: NodeView|
            #[trigger] preorder(n).contains(x) && contributes(x, index) && d == delta(
                x,
                index,
                is_incr,
            ),
{
    lemma_delta_walk(n, index, is_incr);
    lemma_delta_nodes_come_from(preorder(n), d, index, is_incr);
    let i = choose|i: int|
        0 <= i < preorder(n).len() && contributes(#[trigger] preorder(n)[i], index) && d
            == delta(preorder(n)[i], index, is_incr);
    assert(preorder(n).contains(preorder(n)[i]));
}

} // verus!
