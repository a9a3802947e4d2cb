//! The structured document of a tree and its two JSON texts, the compact one
//! and the indented one.

use crate::node::{sizes, LuaGcNode, NodeView};
use crate::strings::{chars_of, decimal, hex_char, push_chars, push_decimal};
use vstd::prelude::*;
use vstd::string::StringExecFns;

verus! {

/// A tree as a document: for each node its name, reference count,
/// description and link label, and the documents of its children, in order.
#[derive(Debug, PartialEq, Eq)]
pub struct TreeDocument {
    pub name: String,
    pub refs: u32,
    pub desc: String,
    pub link: String,
    pub childs: Vec<TreeDocument>,
}

/// The value of a document.
#[verifier::ext_equal]
pub struct DocumentView {
    pub name: Seq<char>,
    pub refs: u32,
    pub desc: Seq<char>,
    pub link: Seq<char>,
    pub childs: Seq<DocumentView>,
}

impl TreeDocument {
    /// The value of this document: its fields and, in order, the values of
    /// the documents below it.
    pub open spec fn value(self) -> DocumentView
        decreases self,
    {
        DocumentView {
            name: self.name@,
            refs: self.refs,
            desc: self.desc@,
            link: self.link@,
            childs: Seq::new(
                self.childs@.len(),
                |i: int|
                    if 0 <= i < self.childs@.len() {
                        self.childs@[i].value()
                    } else {
                        arbitrary()
                    },
            ),
        }
    }
}

impl View for TreeDocument {
    type V = DocumentView;

    open spec fn view(&self) -> DocumentView {
        self.value()
    }
}

/// The document of the tree `n`.
pub open spec fn document_of(n: NodeView) -> DocumentView
    decreases n,
{
    DocumentView {
        name: n.name,
        refs: n.refs,
        desc: n.desc,
        link: n.link,
        childs: documents_upto(n.children, n.children.len()),
    }
}

/// The documents of the first `k` nodes of `s`, in order.
pub open spec fn documents_upto(s: Seq<NodeView>, k: nat) -> Seq<DocumentView>
    decreases s, k,
{
    if k == 0 || k > s.len() {
        Seq::empty()
    } else {
        documents_upto(s, (k - 1) as nat).push(document_of(s[k - 1]))
    }
}

impl DocumentView {
    /// The number of documents in this one, itself included.
    pub open spec fn size(self) -> nat
        decreases self,
    {
        1 + document_sizes(self.childs, self.childs.len())
    }
}

/// The number of documents in the first `k` documents of `s`.
pub open spec fn document_sizes(s: Seq<DocumentView>, k: nat) -> nat
    decreases s, k,
{
    if k == 0 || k > s.len() {
        0
    } else {
        document_sizes(s, (k - 1) as nat) + s[k - 1].size()
    }
}

/// The documents of the first `k` children are `k` documents, the `i`-th
/// that of the `i`-th child.
pub proof fn lemma_documents_upto(s: Seq<NodeView>, k: nat)
    requires
        k <= s.len(),
    ensures
        documents_upto(s, k).len() == k,
        forall|i: int| 0 <= i < k ==> #[trigger] documents_upto(s, k)[i] == document_of(s[i]),
    decreases k,
{
    if k > 0 {
        lemma_documents_upto(s, (k - 1) as nat);
    }
}

/// The document of a tree has one document for each node of the tree.
pub proof fn lemma_document_size(n: NodeView)
    ensures
        document_of(n).size() == n.size(),
    decreases n,
{
    lemma_document_sizes(n.children, n.children.len());
    lemma_documents_upto(n.children, n.children.len());
}

/// `lemma_document_size` for the first `k` nodes of `s`.
pub proof fn lemma_document_sizes(s: Seq<NodeView>, k: nat)
    requires
        k <= s.len(),
    ensures
        document_sizes(documents_upto(s, s.len()), k) == sizes(s, k),
    decreases s, k,
{
    lemma_documents_upto(s, s.len());
    if k > 0 {
        lemma_document_sizes(s, (k - 1) as nat);
        lemma_document_size(s[k - 1]);
    }
}

/// How one character stands inside a JSON string: the quote and the
/// backslash behind a backslash, the control characters below U+0020 by their
/// short escape where JSON has one and as `\u00XX` else, every other
/// character as it is.
pub open spec fn escape_char(c: char) -> Seq<char> {
    if c == '"' {
        seq!['\\', '"']
    } else if c == '\\' {
        seq!['\\', '\\']
    } else if c == '\u{8}' {
        seq!['\\', 'b']
    } else if c == '\u{c}' {
        seq!['\\', 'f']
    } else if c == '\n' {
        seq!['\\', 'n']
    } else if c == '\r' {
        seq!['\\', 'r']
    } else if c == '\t' {
        seq!['\\', 't']
    } else if (c as u32) < 32 {
        seq!['\\', 'u', '0', '0', hex_char((c as u32 / 16) as nat), hex_char((c as u32 % 16) as nat)]
    } else {
        seq![c]
    }
}

/// The characters of `s` as they stand inside a JSON string.
pub open spec fn escape(s: Seq<char>) -> Seq<char>
    decreases s.len(),
{
    if s.len() == 0 {
        Seq::empty()
    } else {
        escape(s.drop_last()) + escape_char(s.last())
    }
}

/// `s` as a JSON string: escaped, between quotes.
pub open spec fn json_string(s: Seq<char>) -> Seq<char> {
    seq!['"'] + escape(s) + seq!['"']
}

/// `n` tab characters.
pub open spec fn tabs(n: nat) -> Seq<char> {
    Seq::new(n, |i: int| '\t')
}

/// The compact JSON text of a document: an object with the members `name`,
/// `refs`, `desc`, `link` and `childs`, in this order, without white space.
pub open spec fn compact_text(d: DocumentView) -> Seq<char>
    decreases d,
{
    "{\"name\":"@ + json_string(d.name) + ",\"refs\":"@ + decimal(d.refs as nat) + ",\"desc\":"@
        + json_string(d.desc) + ",\"link\":"@ + json_string(d.link) + ",\"childs\":["@
        + compact_list(d.childs, d.childs.len()) + "]}"@
}

/// The compact texts of the first `k` documents of `s`, with commas between
/// them.
pub open spec fn compact_list(s: Seq<DocumentView>, k: nat) -> Seq<char>
    decreases s, k,
{
    if k == 0 || k > s.len() {
        Seq::empty()
    } else if k == 1 {
        compact_text(s[0])
    } else {
        compact_list(s, (k - 1) as nat) + ","@ + compact_text(s[k - 1])
    }
}

/// One member line of an indented object that stands `depth` levels deep,
/// up to its value: `depth + 1` tabs, the key between quotes, a colon and a
/// tab.
pub open spec fn pretty_key(key: Seq<char>, depth: nat) -> Seq<char> {
    tabs(depth + 1) + seq!['"'] + key + seq!['"', ':', '\t']
}

/// The indented JSON text of a document that stands `depth` levels deep, up
/// to the opening bracket of `childs`.
pub open spec fn pretty_head(d: DocumentView, depth: nat) -> Seq<char> {
    "{\n"@ + pretty_key("name"@, depth) + json_string(d.name) + ",\n"@ + pretty_key(
        "refs"@,
        depth,
    ) + decimal(d.refs as nat) + ",\n"@ + pretty_key("desc"@, depth) + json_string(d.desc)
        + ",\n"@ + pretty_key("link"@, depth) + json_string(d.link) + ",\n"@ + pretty_key(
        "childs"@,
        depth,
    ) + "["@
}

/// The indented JSON text of a document that stands `depth` levels deep:
/// each member on a line of its own behind `depth + 1` tabs, a tab between
/// the colon and the value, the documents of `childs` two levels deeper and
/// separated by a comma and a space, the closing brace behind `depth` tabs.
pub open spec fn pretty_text(d: DocumentView, depth: nat) -> Seq<char>
    decreases d,
{
    pretty_head(d, depth) + pretty_list(d.childs, d.childs.len(), depth + 2) + "]\n"@ + tabs(
        depth,
    ) + "}"@
}

/// The indented texts of the first `k` documents of `s`, each `depth` levels
/// deep, with a comma and a space between them.
pub open spec fn pretty_list(s: Seq<DocumentView>, k: nat, depth: nat) -> Seq<char>
    decreases s, k,
{
    if k == 0 || k > s.len() {
        Seq::empty()
    } else if k == 1 {
        pretty_text(s[0], depth)
    } else {
        pretty_list(s, (k - 1) as nat, depth) + ", "@ + pretty_text(s[k - 1], depth)
    }
}

/// Appends `c` to `out` as it stands inside a JSON string.
fn push_escaped_char(out: &mut String, c: char)
    ensures
        final(out)@ == old(out)@ + escape_char(c),
{
    if c == '"' {
        out.push('\\');
        out.push('"');
    } else if c == '\\' {
        out.push('\\');
        out.push('\\');
    } else if c == '\u{8}' {
        out.push('\\');
        out.push('b');
    } else if c == '\u{c}' {
        out.push('\\');
        out.push('f');
    } else if c == '\n' {
        out.push('\\');
        out.push('n');
    } else if c == '\r' {
        out.push('\\');
        out.push('r');
    } else if c == '\t' {
        out.push('\\');
        out.push('t');
    } else if (c as u32) < 32 {
        let code: u8 = c as u8;
        let hi: u8 = code / 16;
        let lo: u8 = code % 16;
        out.push('\\');
        out.push('u');
        out.push('0');
        out.push('0');
        out.push((48u8 + hi) as char);
        out.push(
            if lo < 10 {
                (48u8 + lo) as char
            } else {
                (87u8 + lo) as char
            },
        );
    } else {
        out.push(c);
    }
    proof {
        assert(out@ =~= old(out)@ + escape_char(c));
    }
}

/// Appends `s` to `out` as a JSON string.
fn push_json_string(out: &mut String, s: &str)
    ensures
        final(out)@ == old(out)@ + json_string(s@),
{
    out.push('"');
    let cs = chars_of(s);
    let mut i: usize = 0;
    while i < cs.len()
        invariant
            i <= cs.len(),
            cs@ == s@,
            out@ == old(out)@ + seq!['"'] + escape(cs@.take(i as int)),
        decreases cs.len() - i,
    {
        push_escaped_char(out, cs[i]);
        proof {
            let next = cs@.take(i as int + 1);
            assert(next.drop_last() =~= cs@.take(i as int));
            assert(next.last() == cs@[i as int]);
            assert(out@ =~= old(out)@ + seq!['"'] + escape(next));
        }
        i = i + 1;
    }
    out.push('"');
    proof {
        assert(cs@.take(cs.len() as int) =~= cs@);
        assert(out@ =~= old(out)@ + json_string(s@));
    }
}

impl TreeDocument {
    /// Appends the compact JSON text of the document to `out`.
    fn write_compact(&self, out: &mut String)
        ensures
            final(out)@ == old(out)@ + compact_text(self@),
        decreases self,
    {
        out.append("{\"name\":");
        push_json_string(out, self.name.as_str());
        out.append(",\"refs\":");
        push_decimal(out, self.refs);
        out.append(",\"desc\":");
        push_json_string(out, self.desc.as_str());
        out.append(",\"link\":");
        push_json_string(out, self.link.as_str());
        out.append(",\"childs\":[");
        let ghost head = out@;
        let mut i: usize = 0;
        while i < self.childs.len()
            invariant
                i <= self.childs.len(),
                out@ == head + compact_list(self@.childs, i as nat),
            decreases self.childs.len() - i,
        {
            if i > 0 {
                out.append(",");
            }
            self.childs[i].write_compact(out);
            proof {
                assert(out@ =~= head + compact_list(self@.childs, (i + 1) as nat));
            }
            i = i + 1;
        }
        out.append("]}");
        proof {
            assert(out@ =~= old(out)@ + compact_text(self@));
        }
    }

    /// Appends to `out` the start of a member line: the tabs of `indent`, the
    /// key between quotes, a colon and a tab.
    fn write_key(out: &mut String, indent: &Vec<char>, key: &str, Ghost(depth): Ghost<nat>)
        requires
            indent@ == tabs(depth + 1),
        ensures
            final(out)@ == old(out)@ + pretty_key(key@, depth),
    {
        push_chars(out, indent);
        out.push('"');
        out.append(key);
        out.push('"');
        out.push(':');
        out.push('\t');
        proof {
            assert(out@ =~= old(out)@ + pretty_key(key@, depth));
        }
    }

    /// Appends to `out` the indented text of the document up to the opening
    /// bracket of `childs`.
    fn write_pretty_head(&self, out: &mut String, indent: &Vec<char>, Ghost(depth): Ghost<nat>)
        requires
            indent@ == tabs(depth + 1),
        ensures
            final(out)@ == old(out)@ + pretty_head(self@, depth),
    {
        out.append("{\n");
        Self::write_key(out, indent, "name", Ghost(depth));
        push_json_string(out, self.name.as_str());
        out.append(",\n");
        Self::write_key(out, indent, "refs", Ghost(depth));
        push_decimal(out, self.refs);
        out.append(",\n");
        let ghost mid = out@;
        Self::write_key(out, indent, "desc", Ghost(depth));
        push_json_string(out, self.desc.as_str());
        out.append(",\n");
        Self::write_key(out, indent, "link", Ghost(depth));
        push_json_string(out, self.link.as_str());
        out.append(",\n");
        Self::write_key(out, indent, "childs", Ghost(depth));
        out.append("[");
        proof {
            assert(mid =~= old(out)@ + ("{\n"@ + pretty_key("name"@, depth) + json_string(
                self@.name,
            ) + ",\n"@ + pretty_key("refs"@, depth) + decimal(self@.refs as nat) + ",\n"@));
            assert(out@ =~= old(out)@ + pretty_head(self@, depth));
        }
    }

    /// Appends the indented JSON text of the document to `out`. `indent`
    /// holds one tab for each level that the document stands deep; it is
    /// made longer for what stands below and is as before at the end.
    fn write_pretty(&self, out: &mut String, indent: &mut Vec<char>, Ghost(depth): Ghost<nat>)
        requires
            old(indent)@ == tabs(depth),
        ensures
            final(indent)@ == old(indent)@,
            final(out)@ == old(out)@ + pretty_text(self@, depth),
        decreases self,
    {
        let outer = indent.len();
        indent.push('\t');
        proof {
            assert(indent@ =~= tabs(depth + 1));
        }
        self.write_pretty_head(out, indent, Ghost(depth));
        indent.push('\t');
        proof {
            assert(indent@ =~= tabs(depth + 2));
        }
        let ghost head = out@;
        let mut i: usize = 0;
        while i < self.childs.len()
            invariant
                i <= self.childs.len(),
                indent@ == tabs(depth + 2),
                out@ == head + pretty_list(self@.childs, i as nat, depth + 2),
            decreases self.childs.len() - i,
        {
            if i > 0 {
                out.append(", ");
            }
            self.childs[i].write_pretty(out, indent, Ghost(depth + 2));
            proof {
                assert(out@ =~= head + pretty_list(self@.childs, (i + 1) as nat, depth + 2));
            }
            i = i + 1;
        }
        indent.truncate(outer);
        proof {
            assert(indent@ =~= tabs(depth));
        }
        out.append("]\n");
        push_chars(out, indent);
        out.append("}");
        proof {
            assert(out@ =~= old(out)@ + pretty_text(self@, depth));
        }
    }

    /// The compact JSON text of the document.
    pub fn print_unformatted(&self) -> (r: String)
        ensures
            r@ == compact_text(self@),
    {
        let mut out = String::new();
        self.write_compact(&mut out);
        out
    }

    /// The indented JSON text of the document.
    pub fn print(&self) -> (r: String)
        ensures
            r@ == pretty_text(self@, 0),
    {
        let mut out = String::new();
        let mut indent: Vec<char> = Vec::new();
        proof {
            assert(indent@ =~= tabs(0));
        }
        self.write_pretty(&mut out, &mut indent, Ghost(0));
        out
    }
}

impl LuaGcNode {
    /// The document of the tree: one document for each node, with the name,
    /// reference count, description and link label of the node, the
    /// documents of the children below it in the order of the children.
    pub fn create_jsonobj(&self) -> (r: TreeDocument)
        ensures
            r@ == document_of(self@),
            r@.size() == self@.size(),
        decreases self,
    {
        let mut childs: Vec<TreeDocument> = Vec::new();
        let mut i: usize = 0;
        while i < self.children.len()
            invariant
                i <= self.children.len(),
                childs@.len() == i,
                forall|j: int|
                    0 <= j < i ==> (#[trigger] childs@[j])@ == document_of(self@.children[j]),
            decreases self.children.len() - i,
        {
            let c = self.children[i].create_jsonobj();
            childs.push(c);
            i = i + 1;
        }
        let r = TreeDocument {
            name: self.name.clone(),
            refs: self.refs,
            desc: self.desc.clone(),
            link: self.link.clone(),
            childs: childs,
        };
        proof {
            lemma_documents_upto(self@.children, self@.children.len());
            assert(r@.childs =~= document_of(self@).childs);
            lemma_document_size(self@);
        }
        r
    }

    /// The tree as compact JSON text.
    pub fn to_json(&self) -> (r: String)
        ensures
            r@ == compact_text(document_of(self@)),
    {
        self.create_jsonobj().print_unformatted()
    }

    /// The tree as indented JSON text.
    pub fn to_jsonfmt(&self) -> (r: String)
        ensures
            r@ == pretty_text(document_of(self@), 0),
    {
        self.create_jsonobj().print()
    }
}

} // verus!
