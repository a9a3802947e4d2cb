use luasnapshot::{LuaGcNode, LuaGcNodeType, TreeDocument};

fn node(label: &str, id: u64, desc: &str, link: &str, refs: u32) -> LuaGcNode {
    let mut n = LuaGcNode::new(LuaGcNodeType::LuaTableType, label, id);
    n.set_desc(desc);
    n.set_link(link);
    n.set_refs(refs);
    n
}

fn sample() -> LuaGcNode {
    let mut root = node("table", 1, "(size: 2)", "_G", 1);
    let mut inner = node("table", 2, "(size: 1)", "inner", 2);
    inner.add_child(node("string", 3, "x", "[1]", 0));
    root.add_child(node("function", 4, "", "f", 7));
    root.add_child(inner);
    root
}

fn documents(d: &TreeDocument) -> u32 {
    1 + d.childs.iter().map(documents).sum::<u32>()
}

#[test]
fn document_has_the_fields_of_each_node() {
    let doc = sample().create_jsonobj();
    assert_eq!(doc.name, "table:0x0000000000000001");
    assert_eq!(doc.refs, 1);
    assert_eq!(doc.desc, "(size: 2)");
    assert_eq!(doc.link, "_G");
    assert_eq!(doc.childs.len(), 2);
    assert_eq!(doc.childs[0].link, "inner");
    assert_eq!(doc.childs[0].childs[0].name, "string:0x0000000000000003");
    assert_eq!(doc.childs[1].refs, 7);
    assert!(doc.childs[1].childs.is_empty());
}

#[test]
fn document_has_one_document_per_node() {
    let tree = sample();
    assert_eq!(documents(&tree.create_jsonobj()), tree.count());
    assert_eq!(documents(&tree.create_jsonobj()), 4);
    let leaf = node("s", 1, "", "", 0);
    assert_eq!(documents(&leaf.create_jsonobj()), 1);
}

#[test]
fn compact_json_of_a_leaf() {
    let n = node("string", 0xab, "hi", "key", 3);
    assert_eq!(
        n.to_json(),
        r#"{"name":"string:0x00000000000000ab","refs":3,"desc":"hi","link":"key","childs":[]}"#
    );
}

#[test]
fn compact_json_nests_children_in_order() {
    let mut root = node("t", 1, "", "r", 0);
    root.add_child(node("s", 3, "", "b", 0));
    root.add_child(node("s", 2, "", "a", 10));
    assert_eq!(
        root.to_json(),
        concat_all(&[
            r#"{"name":"t:0x0000000000000001","refs":0,"desc":"","link":"r","childs":["#,
            r#"{"name":"s:0x0000000000000002","refs":10,"desc":"","link":"a","childs":[]},"#,
            r#"{"name":"s:0x0000000000000003","refs":0,"desc":"","link":"b","childs":[]}"#,
            "]}",
        ])
    );
}

fn concat_all(parts: &[&str]) -> String {
    parts.iter().map(|p| p.to_string()).collect()
}

#[test]
fn json_strings_are_escaped() {
    let n = node("s", 1, "say \"hi\"\\\n\ttab\r\u{8}\u{c}\u{1}\u{1f} / é", "", 0);
    assert_eq!(
        n.to_json(),
        concat_all(&[
            r#"{"name":"s:0x0000000000000001","refs":0,"desc":""#,
            r#"say \"hi\"\\\n\ttab\r\b\f\u0001\u001f / é"#,
            r#"","link":"","childs":[]}"#,
        ])
    );
}

#[test]
fn largest_reference_count_is_written_in_full() {
    let n = node("s", 1, "", "", u32::MAX);
    assert!(n.to_json().contains(r#""refs":4294967295,"#));
}

#[test]
fn indented_json_of_a_leaf() {
    let n = node("string", 0xab, "hi", "key", 3);
    assert_eq!(
        n.to_jsonfmt(),
        "{\n\t\"name\":\t\"string:0x00000000000000ab\",\n\t\"refs\":\t3,\n\t\"desc\":\t\"hi\",\n\t\"link\":\t\"key\",\n\t\"childs\":\t[]\n}"
    );
}

#[test]
fn indented_json_puts_children_two_levels_deeper() {
    let mut root = node("t", 1, "", "r", 0);
    root.add_child(node("s", 3, "", "b", 0));
    root.add_child(node("s", 2, "", "a", 10));
    let expected = concat_all(&[
        "{\n",
        "\t\"name\":\t\"t:0x0000000000000001\",\n",
        "\t\"refs\":\t0,\n",
        "\t\"desc\":\t\"\",\n",
        "\t\"link\":\t\"r\",\n",
        "\t\"childs\":\t[{\n",
        "\t\t\t\"name\":\t\"s:0x0000000000000002\",\n",
        "\t\t\t\"refs\":\t10,\n",
        "\t\t\t\"desc\":\t\"\",\n",
        "\t\t\t\"link\":\t\"a\",\n",
        "\t\t\t\"childs\":\t[]\n",
        "\t\t}, {\n",
        "\t\t\t\"name\":\t\"s:0x0000000000000003\",\n",
        "\t\t\t\"refs\":\t0,\n",
        "\t\t\t\"desc\":\t\"\",\n",
        "\t\t\t\"link\":\t\"b\",\n",
        "\t\t\t\"childs\":\t[]\n",
        "\t\t}]\n",
        "}",
    ]);
    assert_eq!(root.to_jsonfmt(), expected);
}

#[test]
fn both_texts_hold_one_object_per_node() {
    let tree = sample();
    assert_eq!(tree.to_json().matches("\"name\":").count(), 4);
    assert_eq!(tree.to_jsonfmt().matches("\"name\":").count(), 4);
}

#[test]
fn document_prints_like_the_tree() {
    let tree = sample();
    let doc = tree.create_jsonobj();
    assert_eq!(doc.print_unformatted(), tree.to_json());
    assert_eq!(doc.print(), tree.to_jsonfmt());
}
