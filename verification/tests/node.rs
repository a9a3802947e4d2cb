use luasnapshot::{LuaGcNode, LuaGcNodeIncrOrDecr, LuaGcNodeType};

fn table(id: u64, desc: &str) -> LuaGcNode {
    let mut n = LuaGcNode::new(LuaGcNodeType::LuaTableType, "table", id);
    n.set_desc(desc);
    n
}

fn string(id: u64) -> LuaGcNode {
    LuaGcNode::new(LuaGcNodeType::LuaStringType, "string", id)
}

#[test]
fn type_tags_map_to_node_types() {
    assert_eq!(LuaGcNodeType::from(4), LuaGcNodeType::LuaStringType);
    assert_eq!(LuaGcNodeType::from(5), LuaGcNodeType::LuaTableType);
    assert_eq!(LuaGcNodeType::from(6), LuaGcNodeType::LuaFunctionType);
    assert_eq!(LuaGcNodeType::from(7), LuaGcNodeType::LuaUserDataType);
    assert_eq!(LuaGcNodeType::from(8), LuaGcNodeType::LuaThreadType);
}

#[test]
fn unknown_type_tags_collapse() {
    assert_eq!(LuaGcNodeType::from(0), LuaGcNodeType::Unknown);
    assert_eq!(LuaGcNodeType::from(3), LuaGcNodeType::Unknown);
    assert_eq!(LuaGcNodeType::from(9), LuaGcNodeType::Unknown);
    assert_eq!(LuaGcNodeType::from(-1), LuaGcNodeType::Unknown);
    assert_eq!(LuaGcNodeType::from(i32::MAX), LuaGcNodeType::Unknown);
}

#[test]
fn new_node_is_an_unmarked_leaf() {
    let n = LuaGcNode::new(LuaGcNodeType::LuaFunctionType, "function", 0x1f);
    assert_eq!(n.node_type, LuaGcNodeType::LuaFunctionType);
    assert_eq!(n.incr_or_decr, LuaGcNodeIncrOrDecr::No);
    assert_eq!(n.refs, 0);
    assert_eq!(n.desc, "");
    assert_eq!(n.link, "");
    assert_eq!(n.lua_obj_ptr, 0x1f);
    assert!(n.children.is_empty());
}

#[test]
fn name_joins_label_and_fixed_width_identity() {
    assert_eq!(string(0).name, "string:0x0000000000000000");
    assert_eq!(string(0x1f).name, "string:0x000000000000001f");
    assert_eq!(table(0x7ffd_1234_abcd, "").name, "table:0x00007ffd1234abcd");
    assert_eq!(string(u64::MAX).name, "string:0xffffffffffffffff");
    assert_eq!(string(0x0123_4567_89ab_cdef).name, "string:0x0123456789abcdef");
    assert_eq!(LuaGcNode::new(LuaGcNodeType::Unknown, "", 10).name, ":0x000000000000000a");
}

#[test]
fn same_identity_gives_same_name() {
    assert_eq!(string(77).name, string(77).name);
    assert_eq!(string(77).name, format!("string:0x{:016x}", 77));
}

#[test]
fn setters_replace_one_field() {
    let mut n = string(1);
    n.set_desc("first");
    n.set_desc("second");
    n.set_link("[3]");
    n.set_refs(9);
    assert_eq!(n.desc, "second");
    assert_eq!(n.link, "[3]");
    assert_eq!(n.get_refs(), 9);
    assert_eq!(n.name, "string:0x0000000000000001");
    assert_eq!(n.lua_obj_ptr, 1);
}

#[test]
fn count_of_a_leaf_is_one() {
    assert_eq!(string(1).count(), 1);
    assert_eq!(string(1).checked_count(), Some(1));
}

#[test]
fn count_adds_up_every_subtree() {
    let mut root = table(1, "(size: 3)");
    let mut inner = table(2, "(size: 2)");
    inner.add_child(string(3));
    inner.add_child(string(4));
    root.add_child(inner);
    root.add_child(string(5));
    assert_eq!(root.count(), 5);
    assert_eq!(root.checked_count(), Some(5));
    assert_eq!(root.children[1].count(), 3);
}

#[test]
fn add_child_puts_the_new_child_first() {
    let mut n = table(1, "");
    n.add_child(string(10));
    n.add_child(string(20));
    let ids: Vec<u64> = n.children.iter().map(|c| c.lua_obj_ptr).collect();
    assert_eq!(ids, vec![20, 10]);
    n.add_child(string(30));
    let ids: Vec<u64> = n.children.iter().map(|c| c.lua_obj_ptr).collect();
    assert_eq!(ids, vec![30, 20, 10]);
}

#[test]
fn add_child_box_puts_the_new_child_first() {
    let mut n = table(1, "");
    n.add_child_box(Box::new(string(10)));
    n.add_child_box(Box::new(string(20)));
    let ids: Vec<u64> = n.children.iter().map(|c| c.lua_obj_ptr).collect();
    assert_eq!(ids, vec![20, 10]);
}

#[test]
fn add_child_keeps_the_subtree_of_the_child() {
    let mut child = table(2, "");
    child.add_child(string(3));
    let mut n = table(1, "");
    n.add_child(child);
    assert_eq!(n.children[0].children[0].lua_obj_ptr, 3);
    assert_eq!(n.count(), 3);
}

#[test]
fn shallow_copy_has_no_children() {
    let mut n = table(1, "(size: 2)");
    n.set_link("root");
    n.set_refs(4);
    n.incr_or_decr = LuaGcNodeIncrOrDecr::Incr;
    n.add_child(string(2));
    n.add_child(string(3));
    let c = n.copy();
    assert!(c.children.is_empty());
    assert_eq!(c.count(), 1);
    assert_eq!(c.name, n.name);
    assert_eq!(c.node_type, LuaGcNodeType::LuaTableType);
    assert_eq!(c.incr_or_decr, LuaGcNodeIncrOrDecr::Incr);
    assert_eq!(c.refs, 4);
    assert_eq!(c.desc, "(size: 2)");
    assert_eq!(c.link, "root");
    assert_eq!(c.lua_obj_ptr, 1);
    assert_eq!(n.children.len(), 2);
}

#[test]
fn shallow_copy_of_a_leaf_equals_it() {
    let n = string(8);
    assert_eq!(n.copy(), n);
}

#[test]
fn deep_copy_equals_the_tree_at_every_node() {
    let mut root = table(1, "(size: 3)");
    root.set_link("_G");
    let mut inner = table(2, "(size: 1)");
    inner.set_link("inner");
    inner.set_refs(2);
    let mut leaf = string(3);
    leaf.set_desc("hello");
    leaf.set_link("[1]");
    inner.add_child(leaf);
    root.add_child(inner);
    root.add_child(string(4));
    let copy = root.copyall();
    assert_eq!(copy, root);
    assert_eq!(copy.count(), root.count());
    assert_eq!(copy.count(), 4);
    assert_eq!(copy.children[1].children[0].desc, "hello");
    assert_eq!(copy.children[1].children[0].link, "[1]");
}

#[test]
fn deep_copy_is_independent_of_the_tree() {
    let mut root = table(1, "(size: 1)");
    root.add_child(string(2));
    let mut copy = root.copyall();
    copy.set_desc("changed");
    copy.children[0].set_refs(99);
    copy.add_child(string(3));
    assert_eq!(root.desc, "(size: 1)");
    assert_eq!(root.children[0].refs, 0);
    assert_eq!(root.count(), 2);
    assert_eq!(copy.count(), 3);
}

#[test]
fn detach_first_child_hands_out_the_first_subtree() {
    let mut first = table(2, "");
    first.add_child(string(3));
    let mut n = table(1, "");
    n.add_child(string(4));
    n.add_child(first);
    let got = n.detach_first_child().unwrap();
    assert_eq!(got.lua_obj_ptr, 2);
    assert_eq!(got.count(), 2);
    assert_eq!(n.children.len(), 1);
    assert_eq!(n.children[0].lua_obj_ptr, 4);
}

#[test]
fn detach_first_child_of_a_leaf_is_none() {
    let mut n = string(1);
    assert!(n.detach_first_child().is_none());
    assert_eq!(n, string(1));
}

#[test]
fn clone_copies_the_whole_subtree() {
    let mut root = table(1, "(size: 1)");
    root.add_child(string(2));
    let mut cloned = root.clone();
    assert_eq!(cloned, root);
    cloned.children[0].set_desc("changed");
    assert_eq!(root.children[0].desc, "");
}
