use luasnapshot::{diff, DiffError, LuaGcNode, LuaGcNodeIncrOrDecr, LuaGcNodeType};

fn table(id: u64, desc: &str) -> LuaGcNode {
    let mut n = LuaGcNode::new(LuaGcNodeType::LuaTableType, "table", id);
    n.set_desc(desc);
    n
}

fn string(id: u64, desc: &str) -> LuaGcNode {
    let mut n = LuaGcNode::new(LuaGcNodeType::LuaStringType, "string", id);
    n.set_desc(desc);
    n
}

fn sample() -> LuaGcNode {
    let mut root = table(1, "(size: 2)");
    let mut inner = table(2, "(size: 1)");
    inner.add_child(string(3, "x"));
    root.add_child(string(4, "y"));
    root.add_child(inner);
    root
}

#[test]
fn a_tree_has_no_delta_against_itself() {
    let a = sample();
    assert_eq!(diff(&a, &a), Ok((None, None)));
    assert_eq!(a.incr(&a), Ok(None));
    assert_eq!(a.decr(&a), Ok(None));
}

#[test]
fn a_tree_has_no_delta_against_its_copy() {
    let a = sample();
    let b = a.copyall();
    assert_eq!(diff(&a, &b), Ok((None, None)));
}

#[test]
fn a_leaf_has_no_delta_against_itself() {
    let a = string(1, "");
    assert_eq!(diff(&a, &a), Ok((None, None)));
}

#[test]
fn grown_table_with_new_child() {
    let mut a = table(1, "(size: 2)");
    a.add_child(string(2, "old"));
    let mut b = table(1, "(size: 3)");
    b.add_child(string(2, "old"));
    b.add_child(string(3, "new"));
    let (grown, shrunk) = diff(&a, &b).unwrap();
    assert_eq!(shrunk, None);
    let grown = grown.unwrap();
    assert_eq!(grown.node_type, LuaGcNodeType::LuaTableType);
    assert_eq!(grown.incr_or_decr, LuaGcNodeIncrOrDecr::Incr);
    assert_eq!(grown.desc, "(size: 3)(+1)");
    assert!(grown.desc.contains("(+1)"));
    assert_eq!(grown.lua_obj_ptr, 1);
    assert_eq!(grown.children.len(), 1);
    let child = &grown.children[0];
    assert_eq!(child.node_type, LuaGcNodeType::LuaStringType);
    assert_eq!(child.incr_or_decr, LuaGcNodeIncrOrDecr::Incr);
    assert_eq!(child.desc, "new(+)");
    assert_eq!(child.lua_obj_ptr, 3);
    assert!(child.children.is_empty());
}

#[test]
fn removed_node_is_reported_with_the_path_to_it() {
    let mut a = table(1, "(size: 2)");
    let mut keeps = table(2, "(size: 1)");
    keeps.set_link("keeps");
    let mut x = string(0x51, "gone soon");
    x.set_link("x");
    keeps.add_child(x);
    keeps.add_child(string(3, "stays"));
    a.add_child(string(4, "unrelated"));
    a.add_child(keeps);

    let mut b = table(1, "(size: 2)");
    let mut keeps_b = table(2, "(size: 1)");
    keeps_b.set_link("keeps in new");
    keeps_b.add_child(string(3, "stays"));
    b.add_child(string(4, "unrelated"));
    b.add_child(keeps_b);

    let (grown, shrunk) = diff(&a, &b).unwrap();
    assert_eq!(grown, None);
    let shrunk = shrunk.unwrap();
    // the root: found in both, unmarked, copied from the newer snapshot
    assert_eq!(shrunk.lua_obj_ptr, 1);
    assert_eq!(shrunk.incr_or_decr, LuaGcNodeIncrOrDecr::No);
    assert_eq!(shrunk.desc, "(size: 2)");
    // only the branch that leads to the removed node
    assert_eq!(shrunk.children.len(), 1);
    let mid = &shrunk.children[0];
    assert_eq!(mid.lua_obj_ptr, 2);
    assert_eq!(mid.incr_or_decr, LuaGcNodeIncrOrDecr::No);
    assert_eq!(mid.link, "keeps in new");
    assert_eq!(mid.children.len(), 1);
    let x = &mid.children[0];
    assert_eq!(x.lua_obj_ptr, 0x51);
    assert_eq!(x.incr_or_decr, LuaGcNodeIncrOrDecr::Decr);
    assert_eq!(x.desc, "gone soon(-)");
    assert_eq!(x.link, "x");
    assert!(x.children.is_empty());
    assert_eq!(shrunk.count(), 3);
}

#[test]
fn new_root_is_marked_and_keeps_only_differing_children() {
    let a = string(1, "old root");
    let mut b = table(2, "(size: 1)");
    b.add_child(string(1, "was the root"));
    b.add_child(string(3, "fresh"));
    let grown = b.incr(&a).unwrap().unwrap();
    assert_eq!(grown.incr_or_decr, LuaGcNodeIncrOrDecr::Incr);
    assert_eq!(grown.desc, "(size: 1)(+)");
    assert_eq!(grown.children.len(), 1);
    assert_eq!(grown.children[0].lua_obj_ptr, 3);
    assert_eq!(grown.children[0].desc, "fresh(+)");
}

#[test]
fn absent_node_keeps_its_differing_descendants() {
    let a = string(9, "");
    let mut b = table(1, "(size: 1)");
    let mut mid = table(2, "(size: 1)");
    mid.add_child(string(3, "leaf"));
    b.add_child(mid);
    let grown = b.incr(&a).unwrap().unwrap();
    assert_eq!(grown.count(), 3);
    assert_eq!(grown.desc, "(size: 1)(+)");
    assert_eq!(grown.children[0].desc, "(size: 1)(+)");
    assert_eq!(grown.children[0].children[0].desc, "leaf(+)");
    assert_eq!(grown.children[0].children[0].incr_or_decr, LuaGcNodeIncrOrDecr::Incr);
}

#[test]
fn unchanged_interior_node_above_a_change_is_copied_unmarked() {
    let mut a = table(1, "(size: 1)");
    a.add_child(table(2, "(size: 5)"));
    let mut b = table(1, "(size: 1)");
    b.add_child(table(2, "(size: 12)"));
    let grown = b.incr(&a).unwrap().unwrap();
    assert_eq!(grown.incr_or_decr, LuaGcNodeIncrOrDecr::No);
    assert_eq!(grown.desc, "(size: 1)");
    assert_eq!(grown.children.len(), 1);
    assert_eq!(grown.children[0].incr_or_decr, LuaGcNodeIncrOrDecr::Incr);
    assert_eq!(grown.children[0].desc, "(size: 12)(+7)");
}

#[test]
fn table_that_lost_entries_shows_in_the_shrunk_delta_only() {
    let a = table(1, "(size: 10)");
    let mut b = table(1, "(size: 4)");
    b.set_link("newer");
    let (grown, shrunk) = diff(&a, &b).unwrap();
    assert_eq!(grown, None);
    let shrunk = shrunk.unwrap();
    assert_eq!(shrunk.incr_or_decr, LuaGcNodeIncrOrDecr::Decr);
    // copied from the newer snapshot, with the difference behind it
    assert_eq!(shrunk.desc, "(size: 4)(-6)");
    assert_eq!(shrunk.link, "newer");
}

#[test]
fn table_of_equal_size_is_not_reported() {
    let a = table(1, "size 4");
    let b = table(1, "now 4 entries");
    assert_eq!(diff(&a, &b), Ok((None, None)));
}

#[test]
fn growth_is_measured_on_tables_only() {
    let a = string(1, "len 2");
    let b = string(1, "len 30");
    assert_eq!(diff(&a, &b), Ok((None, None)));
}

#[test]
fn result_keeps_the_order_of_the_subject() {
    let a = table(1, "(size: 0)");
    let mut b = table(1, "(size: 0)");
    b.add_child(string(13, "c"));
    b.add_child(string(12, "b"));
    b.add_child(string(11, "a"));
    let grown = b.incr(&a).unwrap().unwrap();
    let ids: Vec<u64> = grown.children.iter().map(|c| c.lua_obj_ptr).collect();
    assert_eq!(ids, vec![11, 12, 13]);
}

#[test]
fn pairing_goes_by_identity_not_by_content() {
    let a = string(1, "same");
    let b = string(2, "same");
    let (grown, shrunk) = diff(&a, &b).unwrap();
    assert_eq!(grown.unwrap().desc, "same(+)");
    let shrunk = shrunk.unwrap();
    assert_eq!(shrunk.desc, "same(-)");
    assert_eq!(shrunk.incr_or_decr, LuaGcNodeIncrOrDecr::Decr);
    assert_eq!(shrunk.lua_obj_ptr, 1);
}

#[test]
fn table_without_readable_size_fails_the_comparison() {
    let a = table(1, "(size: 2)");
    let b = table(1, "no size here");
    assert_eq!(diff(&a, &b), Err(DiffError::MalformedDescription));
    assert_eq!(b.incr(&a), Err(DiffError::MalformedDescription));
    assert_eq!(b.decr(&a), Err(DiffError::MalformedDescription));
    assert_eq!(a.incr(&b), Err(DiffError::MalformedDescription));
}

#[test]
fn malformed_size_deep_in_the_tree_fails_the_diff() {
    let mut a = string(1, "");
    a.add_child(table(2, ""));
    let mut b = string(1, "");
    b.add_child(table(2, "(size: 1)"));
    assert_eq!(diff(&a, &b), Err(DiffError::MalformedDescription));
}

#[test]
fn size_is_not_read_where_no_comparison_is_due() {
    // a table that the other snapshot lacks is never compared
    let a = string(1, "");
    let b = table(2, "no size");
    let (grown, shrunk) = diff(&a, &b).unwrap();
    assert_eq!(grown.unwrap().desc, "no size(+)");
    assert_eq!(shrunk.unwrap().desc, "(-)");
}

#[test]
fn duplicate_identities_compare_against_the_last_visited() {
    let mut a = table(1, "(size: 5)");
    a.add_child(table(1, "(size: 3)"));
    let grown = a.incr(&a).unwrap().unwrap();
    assert_eq!(grown.desc, "(size: 5)(+2)");
    assert_eq!(grown.incr_or_decr, LuaGcNodeIncrOrDecr::Incr);
    assert!(grown.children.is_empty());
}

#[test]
fn delta_is_independent_of_its_inputs() {
    let a = string(1, "a");
    let b = string(2, "b");
    let grown = b.incr(&a).unwrap().unwrap();
    drop(a);
    drop(b);
    assert_eq!(grown.desc, "b(+)");
}

#[test]
fn table_size_is_read_from_the_description() {
    assert_eq!(table(1, "(size: 32)").get_table_size_from_desc(), Ok(32));
    assert_eq!(table(1, "12 of 40").get_table_size_from_desc(), Ok(12));
    assert_eq!(table(1, "size=0").get_table_size_from_desc(), Ok(0));
    assert_eq!(string(1, "len 5").get_table_size_from_desc(), Ok(5));
}

#[test]
fn description_without_a_size_is_malformed() {
    assert_eq!(table(1, "").get_table_size_from_desc(), Err(DiffError::MalformedDescription));
    assert_eq!(table(1, "(size: ?)").get_table_size_from_desc(), Err(DiffError::MalformedDescription));
    assert_eq!(
        table(1, "(size: 99999999999)").get_table_size_from_desc(),
        Err(DiffError::MalformedDescription)
    );
}

#[test]
fn largest_growth_is_written_in_full() {
    let a = table(1, "0");
    let b = table(1, "4294967295");
    let grown = b.incr(&a).unwrap().unwrap();
    assert_eq!(grown.desc, "4294967295(+4294967295)");
    let shrunk = a.decr(&b).unwrap().unwrap();
    assert_eq!(shrunk.desc, "0(-4294967295)");
}
