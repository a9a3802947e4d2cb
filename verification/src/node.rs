//! The snapshot tree: what kind of object a node stands for, the node with its
//! owned children, and the mathematical value that contracts speak of.

use crate::strings::{hex_fixed, push_hex};
use std::collections::VecDeque;
use vstd::prelude::*;
use vstd::string::StringExecFns;

verus! {

/// The kind of runtime object that a node stands for.
#[derive(Clone, Copy, PartialEq, Eq, Structural, Debug)]
pub enum LuaGcNodeType {
    LuaStringType,
    LuaTableType,
    LuaFunctionType,
    LuaUserDataType,
    LuaThreadType,
    Unknown,
}

impl From<libc::c_int> for LuaGcNodeType {
    /// Maps the runtime's type tag to a node type; a tag that names none of
    /// the five kinds gives `Unknown`.
    fn from(i: libc::c_int) -> (r: Self) {
        if i == 4 {
            LuaGcNodeType::LuaStringType
        } else if i == 5 {
            LuaGcNodeType::LuaTableType
        } else if i == 6 {
            LuaGcNodeType::LuaFunctionType
        } else if i == 7 {
            LuaGcNodeType::LuaUserDataType
        } else if i == 8 {
            LuaGcNodeType::LuaThreadType
        } else {
            LuaGcNodeType::Unknown
        }
    }
}

impl vstd::std_specs::convert::FromSpecImpl<libc::c_int> for LuaGcNodeType {
    open spec fn obeys_from_spec() -> bool {
        true
    }

    open spec fn from_spec(i: libc::c_int) -> Self {
        if i == 4 {
            LuaGcNodeType::LuaStringType
        } else if i == 5 {
            LuaGcNodeType::LuaTableType
        } else if i == 6 {
            LuaGcNodeType::LuaFunctionType
        } else if i == 7 {
            LuaGcNodeType::LuaUserDataType
        } else if i == 8 {
            LuaGcNodeType::LuaThreadType
        } else {
            LuaGcNodeType::Unknown
        }
    }
}

/// What a delta says of a node: that it appeared or grew (`Incr`), that it
/// went away or shrank (`Decr`), or nothing (`No`).
#[derive(Clone, Copy, PartialEq, Eq, Structural, Debug)]
pub enum LuaGcNodeIncrOrDecr {
    Incr,
    Decr,
    No,
}

/// One object of a snapshot, with the subtree of objects reached through it.
#[derive(Debug, PartialEq, Eq)]
pub struct LuaGcNode {
    pub name: String,
    pub node_type: LuaGcNodeType,
    pub incr_or_decr: LuaGcNodeIncrOrDecr,
    pub refs: u32,
    pub desc: String,
    pub link: String,
    /// The children, first child first; a new child is put at the front.
    pub children: VecDeque<LuaGcNode>,
    /// The object's identity: compared between snapshots, never followed.
    pub lua_obj_ptr: u64,
}

/// The value of a node: its fields as plain values and the values of its
/// children, in order.
#[verifier::ext_equal]
pub struct NodeView {
    pub name: Seq<char>,
    pub node_type: LuaGcNodeType,
    pub incr_or_decr: LuaGcNodeIncrOrDecr,
    pub refs: u32,
    pub desc: Seq<char>,
    pub link: Seq<char>,
    pub identity: u64,
    pub children: Seq<NodeView>,
}

impl LuaGcNode {
    /// The value of this node: its fields and, in order, the values of its
    /// children.
    pub open spec fn value(self) -> NodeView
        decreases self,
    {
        NodeView {
            name: self.name@,
            node_type: self.node_type,
            incr_or_decr: self.incr_or_decr,
            refs: self.refs,
            desc: self.desc@,
            link: self.link@,
            identity: self.lua_obj_ptr,
            children: Seq::new(
                self.children@.len(),
                |i: int|
                    if 0 <= i < self.children@.len() {
                        self.children@[i].value()
                    } else {
                        arbitrary()
                    },
            ),
        }
    }
}

impl View for LuaGcNode {
    type V = NodeView;

    open spec fn view(&self) -> NodeView {
        self.value()
    }
}

impl NodeView {
    /// The node alone: the same fields, no children.
    pub open spec fn shallow(self) -> NodeView {
        NodeView { children: Seq::empty(), ..self }
    }

    /// The node with `c` put in front of its children.
    pub open spec fn with_first_child(self, c: NodeView) -> NodeView {
        NodeView { children: seq![c] + self.children, ..self }
    }

    /// Whether the node has no children.
    pub open spec fn is_leaf(self) -> bool {
        self.children.len() == 0
    }

    /// The number of nodes in the subtree, the node itself included.
    pub open spec fn size(self) -> nat
        decreases self,
    {
        1 + sizes(self.children, self.children.len())
    }
}

/// The number of nodes in the subtrees of the first `k` nodes of `s`.
pub open spec fn sizes(s: Seq<NodeView>, k: nat) -> nat
    decreases s, k,
{
    if k == 0 || k > s.len() {
        0
    } else {
        sizes(s, (k - 1) as nat) + s[k - 1].size()
    }
}

/// The display name of a node: the type label, a colon, and the identity in
/// fixed-width hexadecimal.
pub open spec fn node_name(type_str: Seq<char>, identity: u64) -> Seq<char> {
    type_str + seq![':'] + hex_fixed(identity)
}

/// The child added last comes first: after `c1` and then `c2` are added to
/// a node, its children are `c2`, `c1` and then those it had before.
pub proof fn lemma_add_child_order(n: NodeView, c1: NodeView, c2: NodeView)
    ensures
        n.with_first_child(c1).with_first_child(c2).children == seq![c2, c1] + n.children,
        n.is_leaf() ==> n.with_first_child(c1).with_first_child(c2).children == seq![c2, c1],
{
    assert(seq![c2] + (seq![c1] + n.children) =~= seq![c2, c1] + n.children);
    if n.is_leaf() {
        assert(seq![c2, c1] + n.children =~= seq![c2, c1]);
    }
}

/// Counting more of the children never gives less.
pub proof fn lemma_sizes_monotone(s: Seq<NodeView>, i: nat, j: nat)
    requires
        i <= j <= s.len(),
    ensures
        sizes(s, i) <= sizes(s, j),
    decreases j,
{
    if i < j {
        lemma_sizes_monotone(s, i, (j - 1) as nat);
    }
}

impl LuaGcNode {
    /// A leaf for the object `pointer` of kind `node_type`, named by
    /// `type_str` and the identity; nothing refers to it yet, and it has no
    /// description and no link.
    pub fn new(node_type: LuaGcNodeType, type_str: &str, pointer: u64) -> (r: Self)
        ensures
            r@ == (NodeView {
                name: node_name(type_str@, pointer),
                node_type: node_type,
                incr_or_decr: LuaGcNodeIncrOrDecr::No,
                refs: 0,
                desc: Seq::empty(),
                link: Seq::empty(),
                identity: pointer,
                children: Seq::empty(),
            }),
    {
        let mut name = type_str.to_owned();
        name.push(':');
        push_hex(&mut name, pointer);
        let r = LuaGcNode {
            name: name,
            node_type: node_type,
            incr_or_decr: LuaGcNodeIncrOrDecr::No,
            refs: 0,
            desc: String::new(),
            link: String::new(),
            children: VecDeque::new(),
            lua_obj_ptr: pointer,
        };
        proof {
            assert(r@.name =~= node_name(type_str@, pointer));
            assert(r@.children =~= Seq::empty());
        }
        r
    }

    /// The number of nodes in the subtree, this node included.
    pub fn count(&self) -> (r: u32)
        requires
            self@.size() <= u32::MAX,
        ensures
            r == self@.size(),
        decreases self,
    {
        let mut res: u32 = 1;
        let mut i: usize = 0;
        while i < self.children.len()
            invariant
                i <= self.children.len(),
                self@.size() <= u32::MAX,
                res == 1 + sizes(self@.children, i as nat),
            decreases self.children.len() - i,
        {
            proof {
                lemma_sizes_monotone(self@.children, (i + 1) as nat, self@.children.len());
            }
            let c = self.children[i].count();
            res = res + c;
            i = i + 1;
        }
        res
    }

    /// The number of nodes in the subtree, or `None` where it does not fit
    /// in 32 bits.
    pub fn checked_count(&self) -> (r: Option<u32>)
        ensures
            r matches Some(n) ==> n == self@.size(),
            r is None ==> self@.size() > u32::MAX,
        decreases self,
    {
        let mut res: u32 = 1;
        let mut i: usize = 0;
        while i < self.children.len()
            invariant
                i <= self.children.len(),
                res == 1 + sizes(self@.children, i as nat),
            decreases self.children.len() - i,
        {
            proof {
                lemma_sizes_monotone(self@.children, (i + 1) as nat, self@.children.len());
            }
            let c = match self.children[i].checked_count() {
                Some(c) => c,
                None => {
                    return None;
                },
            };
            res = match res.checked_add(c) {
                Some(t) => t,
                None => {
                    return None;
                },
            };
            i = i + 1;
        }
        Some(res)
    }

    /// Replaces the description.
    pub fn set_desc(&mut self, desc: &str)
        ensures
            final(self)@ == (NodeView { desc: desc@, ..old(self)@ }),
    {
        self.desc = desc.to_owned();
    }

    /// Replaces the link label.
    pub fn set_link(&mut self, link: &str)
        ensures
            final(self)@ == (NodeView { link: link@, ..old(self)@ }),
    {
        self.link = link.to_owned();
    }

    /// The reference count.
    pub fn get_refs(&self) -> (r: u32)
        ensures
            r == self@.refs,
    {
        self.refs
    }

    /// Replaces the reference count.
    pub fn set_refs(&mut self, refs: u32)
        ensures
            final(self)@ == (NodeView { refs: refs, ..old(self)@ }),
    {
        self.refs = refs;
    }

    /// A copy of the node alone: every field but the children, of which the
    /// copy has none.
    pub fn copy(&self) -> (r: Self)
        ensures
            r@ == self@.shallow(),
            r@.children.len() == 0,
    {
        let r = LuaGcNode {
            name: self.name.clone(),
            node_type: self.node_type,
            incr_or_decr: self.incr_or_decr,
            refs: self.refs,
            desc: self.desc.clone(),
            link: self.link.clone(),
            children: VecDeque::new(),
            lua_obj_ptr: self.lua_obj_ptr,
        };
        proof {
            assert(r@.children =~= Seq::empty());
        }
        r
    }

    /// A copy of the whole subtree: every node, with its fields, in the same
    /// order. The copy shares nothing with this tree.
    pub fn copyall(&self) -> (r: Self)
        ensures
            r@ == self@,
            r@.size() == self@.size(),
        decreases self,
    {
        let mut ret = self.copy();
        let mut i: usize = 0;
        while i < self.children.len()
            invariant
                i <= self.children.len(),
                ret@.shallow() == self@.shallow(),
                ret.children@.len() == i,
                forall|j: int| 0 <= j < i ==> (#[trigger] ret.children@[j])@ == self.children@[j]@,
            decreases self.children.len() - i,
        {
            let c = self.children[i].copyall();
            ret.children.push_back(c);
            i = i + 1;
        }
        proof {
            assert(ret@.children =~= self@.children);
        }
        ret
    }

    /// Makes `node` the first child; the children that were there follow it
    /// in the order they had.
    pub fn add_child(&mut self, node: LuaGcNode)
        ensures
            final(self)@ == old(self)@.with_first_child(node@),
    {
        self.children.push_front(node);
        proof {
            assert(self@.children =~= seq![node@] + old(self)@.children);
        }
    }

    /// As `add_child`, for a node that lives in a box.
    pub fn add_child_box(&mut self, node: Box<LuaGcNode>)
        ensures
            final(self)@ == old(self)@.with_first_child(node@),
    {
        self.add_child(*node);
    }

    /// Takes the first child, with its subtree, out of the node and returns
    /// it; the other children stay, in order. A leaf stays as it is and
    /// gives `None`.
    pub fn detach_first_child(&mut self) -> (r: Option<LuaGcNode>)
        ensures
            old(self)@.is_leaf() ==> r is None && final(self)@ == old(self)@,
            !old(self)@.is_leaf() ==> r is Some && r->0@ == old(self)@.children[0] && final(self)@
                == (NodeView { children: old(self)@.children.drop_first(), ..old(self)@ }),
    {
        let r = self.children.pop_front();
        proof {
            if r is Some {
                assert(self@.children =~= old(self)@.children.drop_first());
            } else {
                assert(self@.children =~= old(self)@.children);
            }
        }
        r
    }
}

impl Clone for LuaGcNode {
    /// A copy of the whole subtree, as `copyall` gives it.
    fn clone(&self) -> (r: Self)
        ensures
            r@ == self@,
    {
        self.copyall()
    }
}

} // verus!
