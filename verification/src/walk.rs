//! The depth-first walk over a tree: the order in which it meets the nodes,
//! how deep each lies, and the functions that call back on each node.

use crate::node::{sizes, LuaGcNode, NodeView};
use vstd::prelude::*;

verus! {

/// The nodes of a subtree in the order a depth-first walk meets them: the
/// node itself, then the subtree of each child in turn.
pub open spec fn preorder(n: NodeView) -> Seq<NodeView>
    decreases n,
{
    seq![n] + preorder_upto(n.children, n.children.len())
}

/// The nodes of the subtrees of the first `k` nodes of `s`, in walk order.
pub open spec fn preorder_upto(s: Seq<NodeView>, k: nat) -> Seq<NodeView>
    decreases s, k,
{
    if k == 0 || k > s.len() {
        Seq::empty()
    } else {
        preorder_upto(s, (k - 1) as nat) + preorder(s[k - 1])
    }
}

/// The walk meets every node of the subtree once: it is as long as the
/// subtree has nodes.
pub proof fn lemma_preorder_len(n: NodeView)
    ensures
        preorder(n).len() == n.size(),
    decreases n,
{
    lemma_preorder_upto_len(n.children, n.children.len());
}

/// `lemma_preorder_len` for the first `k` nodes of `s`.
pub proof fn lemma_preorder_upto_len(s: Seq<NodeView>, k: nat)
    requires
        k <= s.len(),
    ensures
        preorder_upto(s, k).len() == sizes(s, k),
    decreases s, k,
{
    if k > 0 {
        lemma_preorder_upto_len(s, (k - 1) as nat);
        lemma_preorder_len(s[k - 1]);
    }
}

/// The walk over the first `k` children is the start of the walk over the
/// first `m`, for `k <= m`.
pub proof fn lemma_preorder_upto_prefix(s: Seq<NodeView>, k: nat, m: nat)
    requires
        k <= m <= s.len(),
    ensures
        preorder_upto(s, k).len() <= preorder_upto(s, m).len(),
        preorder_upto(s, m).take(preorder_upto(s, k).len() as int) == preorder_upto(s, k),
    decreases m,
{
    if k < m {
        lemma_preorder_upto_prefix(s, k, (m - 1) as nat);
        let a = preorder_upto(s, (m - 1) as nat);
        let b = preorder(s[m - 1]);
        assert((a + b).take(preorder_upto(s, k).len() as int) =~= a.take(
            preorder_upto(s, k).len() as int,
        ));
    } else {
        assert(preorder_upto(s, m).take(preorder_upto(s, m).len() as int) =~= preorder_upto(s, m));
    }
}

/// Every node of the subtree of a child is a node of the subtree of its
/// parent.
pub proof fn lemma_preorder_holds_child(n: NodeView, k: int, x: NodeView)
    requires
        0 <= k < n.children.len(),
        preorder(n.children[k]).contains(x),
    ensures
        preorder(n).contains(x),
{
    let s = n.children;
    let j = choose|j: int| 0 <= j < preorder(s[k]).len() && preorder(s[k])[j] == x;
    let before = preorder_upto(s, k as nat);
    let upto = preorder_upto(s, (k + 1) as nat);
    let all = preorder_upto(s, s.len());
    lemma_preorder_upto_prefix(s, (k + 1) as nat, s.len());
    assert(upto[before.len() + j] == x);
    assert(all.take(upto.len() as int)[before.len() + j] == x);
    assert(preorder(n)[1 + before.len() + j] == x);
}

/// A node of a subtree is its root or a node of the subtree of a child.
pub proof fn lemma_preorder_root_or_child(n: NodeView, x: NodeView)
    requires
        preorder(n).contains(x),
    ensures
        x == n || exists|k: int|
            0 <= k < n.children.len() && preorder(#[trigger] n.children[k]).contains(x),
{
    if x != n {
        let i = choose|i: int| 0 <= i < preorder(n).len() && preorder(n)[i] == x;
        assert(preorder(n)[0] == n);
        lemma_preorder_upto_holds(n.children, n.children.len(), x);
    }
}

/// A node met in the walk over the first `m` children is a node of the
/// subtree of one of them.
pub proof fn lemma_preorder_upto_holds(s: Seq<NodeView>, m: nat, x: NodeView)
    requires
        m <= s.len(),
        preorder_upto(s, m).contains(x),
    ensures
        exists|k: int| 0 <= k < m && preorder(#[trigger] s[k]).contains(x),
    decreases m,
{
    let i = choose|i: int| 0 <= i < preorder_upto(s, m).len() && preorder_upto(s, m)[i] == x;
    if m > 0 {
        let a = preorder_upto(s, (m - 1) as nat);
        let b = preorder(s[m - 1]);
        if i < a.len() {
            assert(a[i] == x);
            lemma_preorder_upto_holds(s, (m - 1) as nat, x);
        } else {
            assert(b[i - a.len()] == x);
            assert(preorder(s[m - 1]).contains(x));
        }
    }
}

/// How deep each node of the walk over `n` lies, for a walk that meets `n`
/// itself at depth `h`: the children of a node lie one deeper than the node.
pub open spec fn depths(n: NodeView, h: int) -> Seq<int>
    decreases n,
{
    seq![h] + depths_upto(n.children, n.children.len(), h + 1)
}

/// `depths` for the walk over the first `k` nodes of `s`, each met at depth
/// `h`.
pub open spec fn depths_upto(s: Seq<NodeView>, k: nat, h: int) -> Seq<int>
    decreases s, k,
{
    if k == 0 || k > s.len() {
        Seq::empty()
    } else {
        depths_upto(s, (k - 1) as nat, h) + depths(s[k - 1], h)
    }
}

/// The height of a tree: how many steps lead from the root to the deepest
/// node. A leaf has height zero.
pub open spec fn height(n: NodeView) -> nat
    decreases n,
{
    heights_upto(n.children, n.children.len())
}

/// One more than the height of the highest of the first `k` nodes of `s`;
/// zero for no node.
pub open spec fn heights_upto(s: Seq<NodeView>, k: nat) -> nat
    decreases s, k,
{
    if k == 0 || k > s.len() {
        0
    } else if heights_upto(s, (k - 1) as nat) >= 1 + height(s[k - 1]) {
        heights_upto(s, (k - 1) as nat)
    } else {
        1 + height(s[k - 1])
    }
}

/// Each of the first `m` nodes is lower than what `heights_upto` gives for
/// them.
pub proof fn lemma_heights_upto_bounds(s: Seq<NodeView>, k: int, m: nat)
    requires
        0 <= k < m <= s.len(),
    ensures
        1 + height(s[k]) <= heights_upto(s, m),
    decreases m,
{
    if k < m - 1 {
        lemma_heights_upto_bounds(s, k, (m - 1) as nat);
    }
}

/// The walk has a depth for each node it meets, none less than the depth of
/// the root and none more than that plus the height of the tree.
pub proof fn lemma_depths(n: NodeView, h: int)
    ensures
        depths(n, h).len() == preorder(n).len(),
        forall|i: int|
            0 <= i < depths(n, h).len() ==> h <= #[trigger] depths(n, h)[i] <= h + height(n),
    decreases n,
{
    lemma_depths_upto(n.children, n.children.len(), h + 1);
}

/// `lemma_depths` for the walk over the first `k` nodes of `s`.
pub proof fn lemma_depths_upto(s: Seq<NodeView>, k: nat, h: int)
    requires
        k <= s.len(),
    ensures
        depths_upto(s, k, h).len() == preorder_upto(s, k).len(),
        forall|i: int|
            0 <= i < depths_upto(s, k, h).len() ==> h <= #[trigger] depths_upto(s, k, h)[i] < h
                + heights_upto(s, k),
    decreases s, k,
{
    if k > 0 {
        lemma_depths_upto(s, (k - 1) as nat, h);
        lemma_depths(s[k - 1], h);
        let a = depths_upto(s, (k - 1) as nat, h);
        let b = depths(s[k - 1], h);
        assert forall|i: int| 0 <= i < (a + b).len() implies h <= #[trigger] (a + b)[i] < h
            + heights_upto(s, k) by {
            if i < a.len() {
                assert((a + b)[i] == a[i]);
            } else {
                assert((a + b)[i] == b[i - a.len()]);
            }
        }
    }
}

/// Whether `y` is what `f` gave for a node with the value `v`.
pub open spec fn visited<'a, T, F: Fn(&'a LuaGcNode) -> T>(f: &F, v: NodeView, y: T) -> bool {
    exists|x: &'a LuaGcNode| x@ == v && call_ensures(*f, (x,), y)
}

/// Whether `f` may be called on every node with a value among `s`.
pub open spec fn accepts<'a, T, F: Fn(&'a LuaGcNode) -> T>(f: &F, s: Seq<NodeView>) -> bool {
    forall|x: &'a LuaGcNode| s.contains(x@) ==> call_requires(*f, (x,))
}

/// Whether `y` is what `f` gave for a node with the value `v` at depth `h`.
pub open spec fn visited_at<'a, T, F: Fn(&'a LuaGcNode, i32) -> T>(
    f: &F,
    v: NodeView,
    h: int,
    y: T,
) -> bool {
    exists|x: &'a LuaGcNode| x@ == v && call_ensures(*f, (x, h as i32), y)
}

/// Whether `f` may be called on every node with a value in `s`, together
/// with the depth that `d` gives for the place of that value.
pub open spec fn accepts_at<'a, T, F: Fn(&'a LuaGcNode, i32) -> T>(
    f: &F,
    s: Seq<NodeView>,
    d: Seq<int>,
) -> bool {
    forall|x: &'a LuaGcNode, i: int|
        0 <= i < s.len() && x@ == s[i] ==> #[trigger] call_requires(*f, (x, d[i] as i32))
}

impl LuaGcNode {
    /// Calls `f` on each child, first child first, and returns what it
    /// gave, in that order.
    pub fn map_childs<'a, T, F: Fn(&'a LuaGcNode) -> T>(&'a self, f: F) -> (r: Vec<T>)
        requires
            accepts(&f, self@.children),
        ensures
            r@.len() == self@.children.len(),
            forall|i: int|
                0 <= i < self@.children.len() ==> visited(&f, #[trigger] self@.children[i], r@[i]),
    {
        let mut out: Vec<T> = Vec::new();
        let mut k: usize = 0;
        while k < self.children.len()
            invariant
                k <= self.children.len(),
                accepts(&f, self@.children),
                out@.len() == k,
                forall|i: int| 0 <= i < k ==> visited(&f, #[trigger] self@.children[i], out@[i]),
            decreases self.children.len() - k,
        {
            let child = &self.children[k];
            assert(self@.children[k as int] == child@);
            assert(self@.children.contains(child@));
            let y = f(child);
            out.push(y);
            k = k + 1;
        }
        out
    }

    /// Walks the subtree and appends to `out` what `f` gave for each node.
    fn map_into<'a, T, F: Fn(&'a LuaGcNode) -> T>(&'a self, f: &F, out: &mut Vec<T>)
        requires
            accepts(f, preorder(self@)),
        ensures
            final(out)@.len() == old(out)@.len() + preorder(self@).len(),
            final(out)@.take(old(out)@.len() as int) == old(out)@,
            forall|i: int|
                0 <= i < preorder(self@).len() ==> visited(
                    f,
                    #[trigger] preorder(self@)[i],
                    final(out)@[old(out)@.len() + i],
                ),
        decreases self,
    {
        let ghost base = out@.len();
        assert(preorder(self@)[0] == self@);
        let y = f(self);
        out.push(y);
        let mut k: usize = 0;
        while k < self.children.len()
            invariant
                k <= self.children.len(),
                base == old(out)@.len(),
                accepts(f, preorder(self@)),
                out@.len() == base + 1 + preorder_upto(self@.children, k as nat).len(),
                out@.take(base as int) == old(out)@,
                visited(f, self@, out@[base as int]),
                forall|i: int|
                    0 <= i < preorder_upto(self@.children, k as nat).len() ==> visited(
                        f,
                        #[trigger] preorder_upto(self@.children, k as nat)[i],
                        out@[base + 1 + i],
                    ),
            decreases self.children.len() - k,
        {
            let ghost before = out@;
            let ghost done = preorder_upto(self@.children, k as nat);
            let ghost next = preorder(self@.children[k as int]);
            proof {
                assert forall|x: &'a LuaGcNode| next.contains(x@) implies call_requires(
                    *f,
                    (x,),
                ) by {
                    lemma_preorder_holds_child(self@, k as int, x@);
                }
            }
            self.children[k].map_into(f, out);
            proof {
                assert(out@.take(base as int) =~= out@.take(before.len() as int).take(
                    base as int,
                ));
                assert forall|i: int| 0 <= i < (done + next).len() implies visited(
                    f,
                    #[trigger] (done + next)[i],
                    out@[base + 1 + i],
                ) by {
                    if i < done.len() {
                        assert(out@[base + 1 + i] == out@.take(before.len() as int)[base + 1
                            + i]);
                        assert(visited(f, done[i], before[base + 1 + i]));
                    } else {
                        assert(visited(
                            f,
                            next[i - done.len()],
                            out@[before.len() + (i - done.len())],
                        ));
                    }
                }
                assert(out@[base as int] == out@.take(before.len() as int)[base as int]);
            }
            k = k + 1;
        }
        proof {
            let all = preorder(self@);
            assert forall|i: int| 0 <= i < all.len() implies visited(
                f,
                #[trigger] all[i],
                out@[base + i],
            ) by {
                if i > 0 {
                    assert(all[i] == preorder_upto(self@.children, self@.children.len())[i - 1]);
                }
            }
        }
    }

    /// Calls `f` on every node of the subtree in walk order, this node
    /// first, then the subtree of each child in turn, and returns what it
    /// gave, in that order.
    pub fn map<'a, T, F: Fn(&'a LuaGcNode) -> T>(&'a self, f: F) -> (r: Vec<T>)
        requires
            accepts(&f, preorder(self@)),
        ensures
            r@.len() == preorder(self@).len(),
            r@.len() == self@.size(),
            forall|i: int|
                0 <= i < preorder(self@).len() ==> visited(
                    &f,
                    #[trigger] preorder(self@)[i],
                    r@[i],
                ),
    {
        let mut out: Vec<T> = Vec::new();
        self.map_into(&f, &mut out);
        proof {
            lemma_preorder_len(self@);
        }
        out
    }

    /// Walks the subtree, this node at depth `h`, and appends to `out` what
    /// `f` gave for each node and its depth.
    fn _map_with_height<'a, T, F: Fn(&'a LuaGcNode, i32) -> T>(
        &'a self,
        f: &F,
        h: i32,
        out: &mut Vec<T>,
    )
        requires
            h + height(self@) <= i32::MAX,
            accepts_at(f, preorder(self@), depths(self@, h as int)),
        ensures
            final(out)@.len() == old(out)@.len() + preorder(self@).len(),
            final(out)@.take(old(out)@.len() as int) == old(out)@,
            forall|i: int|
                0 <= i < preorder(self@).len() ==> visited_at(
                    f,
                    #[trigger] preorder(self@)[i],
                    depths(self@, h as int)[i],
                    final(out)@[old(out)@.len() + i],
                ),
        decreases self,
    {
        let ghost base = out@.len();
        let ghost all = preorder(self@);
        let ghost all_d = depths(self@, h as int);
        proof {
            lemma_depths(self@, h as int);
            assert(all[0] == self@);
            assert(all_d[0] == h);
            assert(call_requires(*f, (self, all_d[0] as i32)));
        }
        let y = f(self, h);
        out.push(y);
        let mut k: usize = 0;
        while k < self.children.len()
            invariant
                k <= self.children.len(),
                base == old(out)@.len(),
                all == preorder(self@),
                all_d == depths(self@, h as int),
                h + height(self@) <= i32::MAX,
                accepts_at(f, all, all_d),
                out@.len() == base + 1 + preorder_upto(self@.children, k as nat).len(),
                out@.take(base as int) == old(out)@,
                visited_at(f, self@, h as int, out@[base as int]),
                forall|i: int|
                    0 <= i < preorder_upto(self@.children, k as nat).len() ==> visited_at(
                        f,
                        #[trigger] preorder_upto(self@.children, k as nat)[i],
                        depths_upto(self@.children, k as nat, h + 1)[i],
                        out@[base + 1 + i],
                    ),
            decreases self.children.len() - k,
        {
            let ghost before = out@;
            let ghost kids = self@.children;
            let ghost done = preorder_upto(kids, k as nat);
            let ghost done_d = depths_upto(kids, k as nat, h + 1);
            let ghost next = preorder(kids[k as int]);
            let ghost next_d = depths(kids[k as int], h + 1);
            proof {
                lemma_heights_upto_bounds(kids, k as int, kids.len());
                lemma_depths_upto(kids, k as nat, h + 1);
                lemma_depths(kids[k as int], h + 1);
                lemma_preorder_upto_prefix(kids, (k + 1) as nat, kids.len());
                lemma_depths_upto_prefix(kids, (k + 1) as nat, kids.len(), h + 1);
                let upto = preorder_upto(kids, (k + 1) as nat);
                let upto_d = depths_upto(kids, (k + 1) as nat, h + 1);
                assert forall|x: &'a LuaGcNode, i: int|
                    0 <= i < next.len() && x@ == next[i] implies #[trigger] call_requires(
                    *f,
                    (x, next_d[i] as i32),
                ) by {
                    let j = done.len() + i;
                    assert(upto[j] == next[i]);
                    assert(upto_d[j] == next_d[i]);
                    assert(preorder_upto(kids, kids.len()).take(upto.len() as int)[j] == next[i]);
                    assert(depths_upto(kids, kids.len(), h + 1).take(upto_d.len() as int)[j]
                        == next_d[i]);
                    assert(all[1 + j] == next[i]);
                    assert(all_d[1 + j] == next_d[i]);
                }
            }
            self.children[k]._map_with_height(f, h + 1, out);
            proof {
                assert(out@.take(base as int) =~= out@.take(before.len() as int).take(
                    base as int,
                ));
                assert forall|i: int| 0 <= i < (done + next).len() implies visited_at(
                    f,
                    #[trigger] (done + next)[i],
                    (done_d + next_d)[i],
                    out@[base + 1 + i],
                ) by {
                    if i < done.len() {
                        assert(out@[base + 1 + i] == out@.take(before.len() as int)[base + 1
                            + i]);
                        assert(visited_at(f, done[i], done_d[i], before[base + 1 + i]));
                    } else {
                        assert(visited_at(
                            f,
                            next[i - done.len()],
                            next_d[i - done.len()],
                            out@[before.len() + (i - done.len())],
                        ));
                    }
                }
                assert(out@[base as int] == out@.take(before.len() as int)[base as int]);
            }
            k = k + 1;
        }
        proof {
            assert forall|i: int| 0 <= i < all.len() implies visited_at(
                f,
                #[trigger] all[i],
                all_d[i],
                out@[base + i],
            ) by {
                if i > 0 {
                    assert(all[i] == preorder_upto(self@.children, self@.children.len())[i - 1]);
                    assert(all_d[i] == depths_upto(
                        self@.children,
                        self@.children.len(),
                        h + 1,
                    )[i - 1]);
                }
            }
        }
    }

    /// Calls `f` on every node of the subtree in walk order, together with
    /// the depth of the node below this one (zero for this node itself), and
    /// returns what it gave, in that order.
    pub fn map_with_height<'a, T, F: Fn(&'a LuaGcNode, i32) -> T>(&'a self, f: F) -> (r: Vec<T>)
        requires
            height(self@) <= i32::MAX,
            accepts_at(&f, preorder(self@), depths(self@, 0)),
        ensures
            r@.len() == preorder(self@).len(),
            r@.len() == self@.size(),
            forall|i: int|
                0 <= i < preorder(self@).len() ==> visited_at(
                    &f,
                    #[trigger] preorder(self@)[i],
                    depths(self@, 0)[i],
                    r@[i],
                ),
    {
        let mut out: Vec<T> = Vec::new();
        self._map_with_height(&f, 0, &mut out);
        proof {
            lemma_preorder_len(self@);
        }
        out
    }

    /// Whether the tree is at most `limit` high.
    pub fn height_at_most(&self, limit: i32) -> (r: bool)
        ensures
            r == (height(self@) <= limit),
        decreases self,
    {
        if limit < 0 {
            return false;
        }
        let mut k: usize = 0;
        while k < self.children.len()
            invariant
                k <= self.children.len(),
                limit >= 0,
                heights_upto(self@.children, k as nat) <= limit,
            decreases self.children.len() - k,
        {
            if limit == 0 || !self.children[k].height_at_most(limit - 1) {
                proof {
                    lemma_heights_upto_bounds(self@.children, k as int, self@.children.len());
                }
                return false;
            }
            k = k + 1;
        }
        true
    }
}

/// The depths of the walk over the first `k` children are the start of
/// those of the walk over the first `m`, for `k <= m`.
pub proof fn lemma_depths_upto_prefix(s: Seq<NodeView>, k: nat, m: nat, h: int)
    requires
        k <= m <= s.len(),
    ensures
        depths_upto(s, k, h).len() <= depths_upto(s, m, h).len(),
        depths_upto(s, m, h).take(depths_upto(s, k, h).len() as int) == depths_upto(s, k, h),
    decreases m,
{
    if k < m {
        lemma_depths_upto_prefix(s, k, (m - 1) as nat, h);
        let a = depths_upto(s, (m - 1) as nat, h);
        let b = depths(s[m - 1], h);
        assert((a + b).take(depths_upto(s, k, h).len() as int) =~= a.take(
            depths_upto(s, k, h).len() as int,
        ));
    } else {
        assert(depths_upto(s, m, h).take(depths_upto(s, m, h).len() as int) =~= depths_upto(
            s,
            m,
            h,
        ));
    }
}

} // verus!
