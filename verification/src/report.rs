//! The text table of a tree: a header and one tab-separated row for each
//! node that is shown, with the path of link labels that leads to it.

use crate::node::{LuaGcNode, LuaGcNodeIncrOrDecr, NodeView};
use crate::strings::{decimal, extend_chars, pad_left, push_chars, push_decimal, push_padded};
use vstd::prelude::*;
use vstd::string::StringExecFns;

verus! {

/// One line of the table: name, reference count and description right
/// aligned in columns of at least 26, 6 and 18 characters, then the link
/// column as it is; tabs between the columns, a newline at the end.
pub open spec fn format_row(
    name: Seq<char>,
    refs: Seq<char>,
    desc: Seq<char>,
    link: Seq<char>,
) -> Seq<char> {
    pad_left(name, 26) + seq!['\t'] + pad_left(refs, 6) + seq!['\t'] + pad_left(desc, 18)
        + seq!['\t'] + link + seq!['\n']
}

/// The first line of every table: the names of the four columns.
pub open spec fn header_row() -> Seq<char> {
    format_row(
        seq!['n', 'a', 'm', 'e'],
        seq!['r', 'e', 'f', 's'],
        seq!['d', 'e', 's', 'c'],
        seq!['l', 'i', 'n', 'k'],
    )
}

/// Whether no node of the subtree carries a delta mark.
pub open spec fn uniform(n: NodeView) -> bool
    decreases n,
{
    n.incr_or_decr == LuaGcNodeIncrOrDecr::No && uniform_upto(n.children, n.children.len())
}

/// `uniform` of each of the first `k` nodes of `s`.
pub open spec fn uniform_upto(s: Seq<NodeView>, k: nat) -> bool
    decreases s, k,
{
    if k == 0 || k > s.len() {
        true
    } else {
        uniform_upto(s, (k - 1) as nat) && uniform(s[k - 1])
    }
}

/// Whether the node gets a row: in a plain tree (one without delta marks)
/// every node does, in a delta only the leaves and the marked nodes.
pub open spec fn is_selected(n: NodeView, plain: bool) -> bool {
    n.is_leaf() || plain || n.incr_or_decr != LuaGcNodeIncrOrDecr::No
}

/// What the nodes of `chain` put in front of the link label of a node below
/// them: the link label of each, followed by a dot.
pub open spec fn link_prefix(chain: Seq<NodeView>) -> Seq<char>
    decreases chain.len(),
{
    if chain.len() == 0 {
        Seq::empty()
    } else {
        link_prefix(chain.drop_last()) + chain.last().link + seq!['.']
    }
}

/// The link labels of the nodes of `chain`, root first, joined by dots.
pub open spec fn join_links(chain: Seq<NodeView>) -> Seq<char>
    recommends
        chain.len() > 0,
{
    link_prefix(chain.drop_last()) + chain.last().link
}

/// The row of the last node of `chain`, reached from the root through the
/// nodes before it.
pub open spec fn row_of(chain: Seq<NodeView>) -> Seq<char>
    recommends
        chain.len() > 0,
{
    format_row(
        chain.last().name,
        decimal(chain.last().refs as nat),
        chain.last().desc,
        join_links(chain),
    )
}

/// The nodes of the subtree `n` that get a row, in walk order, each as the
/// chain of nodes that leads to it: `ancestors`, then the nodes from `n`
/// down to the node itself.
pub open spec fn selected_chains(n: NodeView, ancestors: Seq<NodeView>, plain: bool) -> Seq<
    Seq<NodeView>,
>
    decreases n,
{
    let chain = ancestors.push(n);
    let own = if is_selected(n, plain) {
        seq![chain]
    } else {
        Seq::empty()
    };
    own + selected_chains_upto(n.children, n.children.len(), chain, plain)
}

/// `selected_chains` of the first `k` nodes of `s`, one after the other.
pub open spec fn selected_chains_upto(
    s: Seq<NodeView>,
    k: nat,
    ancestors: Seq<NodeView>,
    plain: bool,
) -> Seq<Seq<NodeView>>
    decreases s, k,
{
    if k == 0 || k > s.len() {
        Seq::empty()
    } else {
        selected_chains_upto(s, (k - 1) as nat, ancestors, plain) + selected_chains(
            s[k - 1],
            ancestors,
            plain,
        )
    }
}

/// The rows of the given chains, one after the other.
pub open spec fn rows_text(chains: Seq<Seq<NodeView>>) -> Seq<char>
    decreases chains.len(),
{
    if chains.len() == 0 {
        Seq::empty()
    } else {
        rows_text(chains.drop_last()) + row_of(chains.last())
    }
}

/// The text table of the tree `n`: the header, then the row of each node
/// that gets one.
pub open spec fn table_text(n: NodeView) -> Seq<char> {
    header_row() + rows_text(selected_chains(n, Seq::empty(), uniform(n)))
}

/// The lines of the text table of `n`: the header, then the row of each
/// node that gets one.
pub open spec fn table_lines(n: NodeView) -> Seq<Seq<char>> {
    header_and_rows(selected_chains(n, Seq::empty(), uniform(n)))
}

/// The header line followed by the rows of the given chains.
pub open spec fn header_and_rows(chains: Seq<Seq<NodeView>>) -> Seq<Seq<char>> {
    seq![header_row()] + Seq::new(chains.len(), |i: int| row_of(chains[i]))
}

/// The given lines, one after the other.
pub open spec fn concat_lines(lines: Seq<Seq<char>>) -> Seq<char>
    decreases lines.len(),
{
    if lines.len() == 0 {
        Seq::empty()
    } else {
        concat_lines(lines.drop_last()) + lines.last()
    }
}

/// The number of nodes of the subtree that get a row.
pub open spec fn selected_count(n: NodeView, plain: bool) -> nat
    decreases n,
{
    (if is_selected(n, plain) {
        1nat
    } else {
        0nat
    }) + selected_count_upto(n.children, n.children.len(), plain)
}

/// `selected_count` of the first `k` nodes of `s`, added up.
pub open spec fn selected_count_upto(s: Seq<NodeView>, k: nat, plain: bool) -> nat
    decreases s, k,
{
    if k == 0 || k > s.len() {
        0
    } else {
        selected_count_upto(s, (k - 1) as nat, plain) + selected_count(s[k - 1], plain)
    }
}

/// The rows of two runs of chains, one after the other, are the rows of the
/// two runs put together.
pub proof fn lemma_rows_text_concat(a: Seq<Seq<NodeView>>, b: Seq<Seq<NodeView>>)
    ensures
        rows_text(a + b) == rows_text(a) + rows_text(b),
    decreases b.len(),
{
    if b.len() == 0 {
        assert(a + b =~= a);
    } else {
        assert((a + b).drop_last() =~= a + b.drop_last());
        assert((a + b).last() == b.last());
        lemma_rows_text_concat(a, b.drop_last());
    }
}

/// The rows of a single chain are its row.
pub proof fn lemma_rows_text_one(chain: Seq<NodeView>)
    ensures
        rows_text(seq![chain]) == row_of(chain),
{
    assert(seq![chain].drop_last() =~= Seq::<Seq<NodeView>>::empty());
    assert(rows_text(seq![chain].drop_last()) =~= Seq::<char>::empty());
}

/// The table has one row for each node that the rule selects, and each row
/// is that of a chain that runs from the root of the walk to such a node:
/// its link column is the dot-joined link labels along that chain.
pub proof fn lemma_selected_chains(n: NodeView, ancestors: Seq<NodeView>, plain: bool)
    ensures
        selected_chains(n, ancestors, plain).len() == selected_count(n, plain),
        forall|i: int|
            0 <= i < selected_chains(n, ancestors, plain).len() ==> {
                let chain = #[trigger] selected_chains(n, ancestors, plain)[i];
                &&& chain.len() > ancestors.len()
                &&& chain.take(ancestors.len() as int) == ancestors
                &&& chain[ancestors.len() as int] == n
                &&& is_selected(chain.last(), plain)
            },
    decreases n,
{
    let chain = ancestors.push(n);
    lemma_selected_chains_upto(n.children, n.children.len(), chain, plain);
    let below = selected_chains_upto(n.children, n.children.len(), chain, plain);
    assert forall|i: int| 0 <= i < selected_chains(n, ancestors, plain).len() implies {
        let c = #[trigger] selected_chains(n, ancestors, plain)[i];
        &&& c.len() > ancestors.len()
        &&& c.take(ancestors.len() as int) == ancestors
        &&& c[ancestors.len() as int] == n
        &&& is_selected(c.last(), plain)
    } by {
        let c = selected_chains(n, ancestors, plain)[i];
        if is_selected(n, plain) && i == 0 {
            assert(c == chain);
            assert(chain.take(ancestors.len() as int) =~= ancestors);
        } else {
            let j = if is_selected(n, plain) {
                i - 1
            } else {
                i
            };
            assert(c == below[j]);
            assert(c.take(chain.len() as int) == chain);
            assert(c.take(ancestors.len() as int) =~= c.take(chain.len() as int).take(
                ancestors.len() as int,
            ));
            assert(chain.take(ancestors.len() as int) =~= ancestors);
            assert(c.take(chain.len() as int)[ancestors.len() as int] == n);
        }
    }
}

/// The header followed by the rows of some chains reads as the header row
/// and then the text of those rows.
pub proof fn lemma_header_and_rows(chains: Seq<Seq<NodeView>>)
    ensures
        concat_lines(header_and_rows(chains)) == header_row() + rows_text(chains),
    decreases chains.len(),
{
    let lines = header_and_rows(chains);
    if chains.len() == 0 {
        assert(lines.drop_last() =~= Seq::<Seq<char>>::empty());
        assert(concat_lines(lines.drop_last()) =~= Seq::<char>::empty());
        assert(concat_lines(lines) =~= header_row() + rows_text(chains));
    } else {
        lemma_header_and_rows(chains.drop_last());
        assert(lines.drop_last() =~= header_and_rows(chains.drop_last()));
        assert(lines.last() == row_of(chains.last()));
        assert(concat_lines(lines) =~= header_row() + rows_text(chains));
    }
}

/// The text table is its lines one after the other, and it has one line
/// more than there are nodes that the rule selects: the header, then for
/// each selected node, in walk order, the row of the chain that leads to it.
pub proof fn lemma_table_lines(n: NodeView)
    ensures
        table_text(n) == concat_lines(table_lines(n)),
        table_lines(n).len() == 1 + selected_count(n, uniform(n)),
        table_lines(n)[0] == header_row(),
        forall|i: int|
            0 <= i < selected_count(n, uniform(n)) ==> #[trigger] table_lines(n)[i + 1] == row_of(
                selected_chains(n, Seq::empty(), uniform(n))[i],
            ),
{
    lemma_selected_chains(n, Seq::empty(), uniform(n));
    lemma_header_and_rows(selected_chains(n, Seq::empty(), uniform(n)));
}

/// `lemma_selected_chains` for the first `k` nodes of `s`.
pub proof fn lemma_selected_chains_upto(
    s: Seq<NodeView>,
    k: nat,
    ancestors: Seq<NodeView>,
    plain: bool,
)
    requires
        k <= s.len(),
    ensures
        selected_chains_upto(s, k, ancestors, plain).len() == selected_count_upto(s, k, plain),
        forall|i: int|
            0 <= i < selected_chains_upto(s, k, ancestors, plain).len() ==> {
                let chain = #[trigger] selected_chains_upto(s, k, ancestors, plain)[i];
                &&& chain.len() > ancestors.len()
                &&& chain.take(ancestors.len() as int) == ancestors
                &&& is_selected(chain.last(), plain)
            },
    decreases s, k,
{
    if k > 0 {
        lemma_selected_chains_upto(s, (k - 1) as nat, ancestors, plain);
        lemma_selected_chains(s[k - 1], ancestors, plain);
        let a = selected_chains_upto(s, (k - 1) as nat, ancestors, plain);
        let b = selected_chains(s[k - 1], ancestors, plain);
        assert forall|i: int| 0 <= i < (a + b).len() implies {
            let chain = #[trigger] (a + b)[i];
            &&& chain.len() > ancestors.len()
            &&& chain.take(ancestors.len() as int) == ancestors
            &&& is_selected(chain.last(), plain)
        } by {
            if i < a.len() {
                assert((a + b)[i] == a[i]);
            } else {
                assert((a + b)[i] == b[i - a.len()]);
            }
        }
    }
}

impl LuaGcNode {
    /// Whether the tree is a plain one: no node of it carries a delta mark.
    pub fn _is_normal_or_delta(&self) -> (r: bool)
        ensures
            r == uniform(self@),
        decreases self,
    {
        if self.incr_or_decr != LuaGcNodeIncrOrDecr::No {
            return false;
        }
        let mut i: usize = 0;
        while i < self.children.len()
            invariant
                i <= self.children.len(),
                uniform_upto(self@.children, i as nat),
            decreases self.children.len() - i,
        {
            if !self.children[i]._is_normal_or_delta() {
                proof {
                    lemma_not_uniform_upto(self@.children, (i + 1) as nat, self@.children.len());
                }
                return false;
            }
            i = i + 1;
        }
        true
    }

    /// Appends the row of this node to `out`, with `full_link` in the link
    /// column.
    fn _to_str_single(&self, out: &mut String, full_link: &Vec<char>)
        ensures
            final(out)@ == old(out)@ + format_row(
                self@.name,
                decimal(self@.refs as nat),
                self@.desc,
                full_link@,
            ),
    {
        let mut refs = String::new();
        push_decimal(&mut refs, self.refs);
        push_padded(out, self.name.as_str(), 26);
        out.push('\t');
        push_padded(out, refs.as_str(), 6);
        out.push('\t');
        push_padded(out, self.desc.as_str(), 18);
        out.push('\t');
        push_chars(out, full_link);
        out.push('\n');
        proof {
            assert(refs@ =~= decimal(self@.refs as nat));
            assert(out@ =~= old(out)@ + format_row(
                self@.name,
                decimal(self@.refs as nat),
                self@.desc,
                full_link@,
            ));
        }
    }

    /// Appends to `out` the rows of the subtree. `full_link` holds the link
    /// labels of the nodes above, each followed by a dot; the label of this
    /// node is put behind them while the subtree is walked and taken away
    /// again at the end.
    fn _to_str_recursively(
        &self,
        out: &mut String,
        full_link: &mut Vec<char>,
        is_normal_node: bool,
        Ghost(ancestors): Ghost<Seq<NodeView>>,
    )
        requires
            old(full_link)@ == link_prefix(ancestors),
        ensures
            final(full_link)@ == old(full_link)@,
            final(out)@ == old(out)@ + rows_text(
                selected_chains(self@, ancestors, is_normal_node),
            ),
        decreases self,
    {
        let ghost chain = ancestors.push(self@);
        let full_link_len = full_link.len();
        extend_chars(full_link, self.link.as_str());
        proof {
            assert(chain.drop_last() =~= ancestors);
            assert(full_link@ == join_links(chain));
        }
        if self.children.len() == 0 {
            self._to_str_single(out, full_link);
            proof {
                lemma_rows_text_one(chain);
                assert(selected_chains(self@, ancestors, is_normal_node) =~= seq![chain]);
            }
        } else {
            if is_normal_node {
                self._to_str_single(out, full_link);
            } else if self.incr_or_decr != LuaGcNodeIncrOrDecr::No {
                self._to_str_single(out, full_link);
            }
            let ghost own = if is_selected(self@, is_normal_node) {
                seq![chain]
            } else {
                Seq::<Seq<NodeView>>::empty()
            };
            proof {
                lemma_rows_text_one(chain);
                assert(out@ =~= old(out)@ + rows_text(own));
            }
            full_link.push('.');
            proof {
                assert(full_link@ =~= link_prefix(chain));
            }
            let mut i: usize = 0;
            while i < self.children.len()
                invariant
                    i <= self.children.len(),
                    full_link@ == link_prefix(chain),
                    out@ == old(out)@ + rows_text(
                        own + selected_chains_upto(
                            self@.children,
                            i as nat,
                            chain,
                            is_normal_node,
                        ),
                    ),
                decreases self.children.len() - i,
            {
                let ghost done = own + selected_chains_upto(
                    self@.children,
                    i as nat,
                    chain,
                    is_normal_node,
                );
                self.children[i]._to_str_recursively(
                    out,
                    full_link,
                    is_normal_node,
                    Ghost(chain),
                );
                proof {
                    let next = selected_chains(self@.children[i as int], chain, is_normal_node);
                    lemma_rows_text_concat(done, next);
                    assert(done + next =~= own + selected_chains_upto(
                        self@.children,
                        (i + 1) as nat,
                        chain,
                        is_normal_node,
                    ));
                }
                i = i + 1;
            }
        }
        full_link.truncate(full_link_len);
        proof {
            assert(full_link@ =~= old(full_link)@);
        }
    }

    /// The text table of the tree: the header line, then one line for each
    /// node that is shown. A tree without delta marks shows every node; a
    /// delta shows its leaves and its marked nodes. The link column of a row
    /// holds the link labels from the root down to the node, joined by dots.
    pub fn to_str(&self) -> (r: String)
        ensures
            r@ == table_text(self@),
    {
        let mut out = String::new();
        push_padded(&mut out, "name", 26);
        out.push('\t');
        push_padded(&mut out, "refs", 6);
        out.push('\t');
        push_padded(&mut out, "desc", 18);
        out.push('\t');
        out.append("link");
        out.push('\n');
        proof {
            reveal_strlit("name");
            reveal_strlit("refs");
            reveal_strlit("desc");
            reveal_strlit("link");
            assert("name"@ =~= seq!['n', 'a', 'm', 'e']);
            assert("refs"@ =~= seq!['r', 'e', 'f', 's']);
            assert("desc"@ =~= seq!['d', 'e', 's', 'c']);
            assert("link"@ =~= seq!['l', 'i', 'n', 'k']);
            assert(out@ =~= header_row());
        }
        let mut full_link_str: Vec<char> = Vec::new();
        let is_normal_node = self._is_normal_or_delta();
        self._to_str_recursively(
            &mut out,
            &mut full_link_str,
            is_normal_node,
            Ghost(Seq::empty()),
        );
        out
    }
}

/// Where one of the first `i` nodes carries a mark below it, so does one of
/// the first `j`, for `i <= j`.
pub proof fn lemma_not_uniform_upto(s: Seq<NodeView>, i: nat, j: nat)
    requires
        i <= j <= s.len(),
        !uniform_upto(s, i),
    ensures
        !uniform_upto(s, j),
    decreases j,
{
    if i < j {
        lemma_not_uniform_upto(s, i, (j - 1) as nat);
    }
}

} // verus!
