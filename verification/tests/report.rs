use luasnapshot::{LuaGcNode, LuaGcNodeIncrOrDecr, LuaGcNodeType};

fn node(kind: LuaGcNodeType, label: &str, id: u64, desc: &str, link: &str, refs: u32) -> LuaGcNode {
    let mut n = LuaGcNode::new(kind, label, id);
    n.set_desc(desc);
    n.set_link(link);
    n.set_refs(refs);
    n
}

fn row(name: &str, refs: &str, desc: &str, link: &str) -> String {
    format!("{:>26}\t{:>6}\t{:>18}\t{}\n", name, refs, desc, link)
}

fn header() -> String {
    row("name", "refs", "desc", "link")
}

#[test]
fn header_is_right_aligned_in_fixed_columns() {
    let text = LuaGcNode::new(LuaGcNodeType::LuaStringType, "s", 1).to_str();
    let first = text.lines().next().unwrap();
    assert_eq!(
        first,
        "                      name\t  refs\t              desc\tlink"
    );
}

#[test]
fn leaf_renders_header_and_one_row() {
    let n = node(LuaGcNodeType::LuaStringType, "string", 0xab, "hi", "key", 3);
    let expected = header() + &row("string:0x00000000000000ab", "3", "hi", "key");
    assert_eq!(n.to_str(), expected);
    assert_eq!(
        n.to_str(),
        "                      name\t  refs\t              desc\tlink\n string:0x00000000000000ab\t     3\t                hi\tkey\n"
    );
}

#[test]
fn plain_tree_renders_every_node_with_its_path() {
    let mut root = node(LuaGcNodeType::LuaTableType, "table", 1, "(size: 2)", "_G", 1);
    let mut inner = node(LuaGcNodeType::LuaTableType, "table", 2, "(size: 1)", "inner", 2);
    inner.add_child(node(LuaGcNodeType::LuaStringType, "string", 3, "x", "[1]", 0));
    root.add_child(node(LuaGcNodeType::LuaFunctionType, "function", 4, "", "f", 7));
    root.add_child(inner);
    let expected = header()
        + &row("table:0x0000000000000001", "1", "(size: 2)", "_G")
        + &row("table:0x0000000000000002", "2", "(size: 1)", "_G.inner")
        + &row("string:0x0000000000000003", "0", "x", "_G.inner.[1]")
        + &row("function:0x0000000000000004", "7", "", "_G.f");
    assert_eq!(root.to_str(), expected);
    assert_eq!(root.to_str().lines().count(), 1 + 4);
}

#[test]
fn delta_tree_hides_unmarked_interior_nodes_but_keeps_their_link() {
    let mut root = node(LuaGcNodeType::LuaTableType, "table", 1, "(size: 2)", "_G", 1);
    let mut inner = node(LuaGcNodeType::LuaTableType, "table", 2, "(size: 9)(+4)", "inner", 2);
    inner.incr_or_decr = LuaGcNodeIncrOrDecr::Incr;
    let mut leaf = node(LuaGcNodeType::LuaStringType, "string", 3, "x(+)", "[1]", 0);
    leaf.incr_or_decr = LuaGcNodeIncrOrDecr::Incr;
    inner.add_child(leaf);
    root.add_child(node(LuaGcNodeType::LuaStringType, "string", 5, "plain leaf", "p", 0));
    root.add_child(inner);
    let expected = header()
        + &row("table:0x0000000000000002", "2", "(size: 9)(+4)", "_G.inner")
        + &row("string:0x0000000000000003", "0", "x(+)", "_G.inner.[1]")
        + &row("string:0x0000000000000005", "0", "plain leaf", "_G.p");
    assert_eq!(root.to_str(), expected);
    assert_eq!(root.to_str().lines().count(), 1 + 3);
}

#[test]
fn rendered_diff_shows_the_marked_nodes() {
    let mut a = node(LuaGcNodeType::LuaTableType, "table", 1, "(size: 2)", "root", 0);
    a.add_child(node(LuaGcNodeType::LuaStringType, "string", 2, "old", "a", 0));
    let mut b = node(LuaGcNodeType::LuaTableType, "table", 1, "(size: 3)", "root", 0);
    b.add_child(node(LuaGcNodeType::LuaStringType, "string", 2, "old", "a", 0));
    b.add_child(node(LuaGcNodeType::LuaStringType, "string", 3, "new", "b", 0));
    let grown = b.incr(&a).unwrap().unwrap();
    let expected = header()
        + &row("table:0x0000000000000001", "0", "(size: 3)(+1)", "root")
        + &row("string:0x0000000000000003", "0", "new(+)", "root.b");
    assert_eq!(grown.to_str(), expected);
}

#[test]
fn long_fields_are_not_cut() {
    let n = node(
        LuaGcNodeType::LuaUserDataType,
        "a-rather-long-type-label",
        u64::MAX,
        "a description longer than eighteen characters",
        "",
        4294967295,
    );
    let expected = header()
        + "a-rather-long-type-label:0xffffffffffffffff\t4294967295\ta description longer than eighteen characters\t\n";
    assert_eq!(n.to_str(), expected);
}

#[test]
fn columns_count_characters_not_bytes() {
    let n = node(LuaGcNodeType::LuaStringType, "s", 1, "héllo", "ключ", 12);
    let expected = header() + &row("s:0x0000000000000001", "12", "héllo", "ключ");
    assert_eq!(n.to_str(), expected);
}

#[test]
fn empty_links_still_put_dots_in_the_path() {
    let mut root = node(LuaGcNodeType::LuaTableType, "t", 1, "", "", 0);
    let mut mid = node(LuaGcNodeType::LuaTableType, "t", 2, "", "", 0);
    mid.add_child(node(LuaGcNodeType::LuaStringType, "s", 3, "", "leaf", 0));
    root.add_child(mid);
    let text = root.to_str();
    let links: Vec<&str> = text.lines().skip(1).map(|l| l.rsplit('\t').next().unwrap()).collect();
    assert_eq!(links, vec!["", ".", "..leaf"]);
}

#[test]
fn plain_check_sees_marks_anywhere() {
    let mut root = node(LuaGcNodeType::LuaTableType, "t", 1, "", "", 0);
    let mut mid = node(LuaGcNodeType::LuaTableType, "t", 2, "", "", 0);
    mid.add_child(node(LuaGcNodeType::LuaStringType, "s", 3, "", "", 0));
    root.add_child(mid);
    assert!(root._is_normal_or_delta());
    root.children[0].children[0].incr_or_decr = LuaGcNodeIncrOrDecr::Decr;
    assert!(!root._is_normal_or_delta());
    assert!(!root.children[0]._is_normal_or_delta());
    root.children[0].children[0].incr_or_decr = LuaGcNodeIncrOrDecr::No;
    root.incr_or_decr = LuaGcNodeIncrOrDecr::Incr;
    assert!(!root._is_normal_or_delta());
    assert!(root.children[0]._is_normal_or_delta());
}

#[test]
fn rendering_twice_gives_the_same_text() {
    let mut root = node(LuaGcNodeType::LuaTableType, "t", 1, "(size: 1)", "r", 0);
    root.add_child(node(LuaGcNodeType::LuaStringType, "s", 2, "", "c", 0));
    let first = root.to_str();
    let other = node(LuaGcNodeType::LuaStringType, "s", 9, "", "", 0).to_str();
    assert_eq!(root.to_str(), first);
    assert_eq!(other.lines().count(), 2);
}
