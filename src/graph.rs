use vstd::prelude::*;

use crate::{DefaultIx, Node};

verus! {

/// The kind of graph a description declares.
#[derive(Debug, Clone, Copy, PartialEq, Eq)]
pub enum GraphType {
    Graph { is_strict: bool },
    DiGraph { is_strict: bool },
}

/// A labelled graph, ready to be written as a DOT description.
#[derive(Debug)]
pub struct Graph<N> {
    pub graph_type: GraphType,
    /// `(id, label, root)`: a root node is drawn with a double border.
    pub nodes: Vec<(DefaultIx, N, bool)>,
    /// `(i, j)`: an arrow from node `i` to node `j`.
    pub edges: Vec<(DefaultIx, DefaultIx)>,
}

/// The character of decimal digit `d`.
pub open spec fn digit_char(d: nat) -> char {
    seq!['0', '1', '2', '3', '4', '5', '6', '7', '8', '9'][d as int]
}

/// The decimal digits of `n`, most significant first, without leading zeros.
pub open spec fn decimal(n: nat) -> Seq<char>
    decreases n,
{
    if n < 10 {
        seq![digit_char(n)]
    } else {
        decimal(n / 10).push(digit_char(n % 10))
    }
}

/// The value of a decimal digit character (ten for any other character).
pub open spec fn digit_value(c: char) -> nat {
    if c == '0' {
        0
    } else if c == '1' {
        1
    } else if c == '2' {
        2
    } else if c == '3' {
        3
    } else if c == '4' {
        4
    } else if c == '5' {
        5
    } else if c == '6' {
        6
    } else if c == '7' {
        7
    } else if c == '8' {
        8
    } else if c == '9' {
        9
    } else {
        10
    }
}

/// The number that a string of decimal digits denotes.
pub open spec fn numeral_value(s: Seq<char>) -> nat
    decreases s.len(),
{
    if s.len() == 0 {
        0
    } else {
        numeral_value(s.drop_last()) * 10 + digit_value(s.last())
    }
}

proof fn lemma_digit_round_trip(d: nat)
    requires
        d < 10,
    ensures
        digit_value(digit_char(d)) == d,
{
    let ds = seq!['0', '1', '2', '3', '4', '5', '6', '7', '8', '9'];
    assert(ds[0] == '0' && ds[1] == '1' && ds[2] == '2' && ds[3] == '3' && ds[4] == '4');
    assert(ds[5] == '5' && ds[6] == '6' && ds[7] == '7' && ds[8] == '8' && ds[9] == '9');
}

/// A number written in decimal reads back as itself, and is written with digits
/// only: the ids in a DOT description are the ids of the graph.
pub proof fn lemma_decimal_round_trip(n: nat)
    ensures
        numeral_value(decimal(n)) == n,
        decimal(n).len() >= 1,
        forall|i: int| 0 <= i < decimal(n).len() ==> digit_value(#[trigger] decimal(n)[i]) < 10,
    decreases n,
{
    if n < 10 {
        lemma_digit_round_trip(n);
        assert(decimal(n).drop_last() =~= Seq::<char>::empty());
        assert(numeral_value(Seq::<char>::empty()) == 0);
        assert(decimal(n).last() == digit_char(n));
    } else {
        lemma_decimal_round_trip(n / 10);
        lemma_digit_round_trip(n % 10);
        assert(decimal(n).drop_last() =~= decimal(n / 10));
        assert((n / 10) * 10 + n % 10 == n) by (nonlinear_arith);
        assert(decimal(n).last() == digit_char(n % 10));
        assert(numeral_value(decimal(n)) == numeral_value(decimal(n / 10)) * 10 + digit_value(digit_char(n % 10)));
        assert forall|i: int| 0 <= i < decimal(n).len() implies digit_value(#[trigger] decimal(n)[i]) < 10 by {
            if i < decimal(n / 10).len() {
                assert(decimal(n)[i] == decimal(n / 10)[i]);
            }
        }
    }
}

/// The keyword line that opens a description of kind `t`.
pub open spec fn kind_keyword(t: GraphType) -> Seq<char> {
    match t {
        GraphType::Graph { is_strict: true } => "strict graph"@,
        GraphType::Graph { is_strict: false } => "graph"@,
        GraphType::DiGraph { is_strict: true } => "strict digraph"@,
        GraphType::DiGraph { is_strict: false } => "digraph"@,
    }
}

/// The statement that declares node `i` with `label`.
pub open spec fn node_line(i: DefaultIx, label: Seq<char>, root: bool) -> Seq<char> {
    "    "@ + decimal(i as nat) + " [label=\""@ + label + "\""@ + (if root {
        ", peripheries=2"@
    } else {
        Seq::empty()
    }) + "]\n"@
}

/// The statement that declares the arrow from `i` to `j`.
pub open spec fn edge_line(i: DefaultIx, j: DefaultIx) -> Seq<char> {
    "    "@ + decimal(i as nat) + " -> "@ + decimal(j as nat) + "\n"@
}

/// The node statements of `ns`, in order.
pub open spec fn nodes_text(ns: Seq<(DefaultIx, Seq<char>, bool)>) -> Seq<char>
    decreases ns.len(),
{
    if ns.len() == 0 {
        Seq::empty()
    } else {
        nodes_text(ns.drop_last()) + node_line(ns.last().0, ns.last().1, ns.last().2)
    }
}

/// The edge statements of `es`, in order.
pub open spec fn edges_text(es: Seq<(DefaultIx, DefaultIx)>) -> Seq<char>
    decreases es.len(),
{
    if es.len() == 0 {
        Seq::empty()
    } else {
        edges_text(es.drop_last()) + edge_line(es.last().0, es.last().1)
    }
}

/// The DOT description of a graph with the given parts.
pub open spec fn dot_text(
    t: GraphType,
    config: Seq<char>,
    ns: Seq<(DefaultIx, Seq<char>, bool)>,
    es: Seq<(DefaultIx, DefaultIx)>,
) -> Seq<char> {
    kind_keyword(t) + " {\n"@ + config + "\n"@ + nodes_text(ns) + edges_text(es) + "}"@
}

/// The text of decimal digit `d`.
fn digit_str(d: usize) -> (r: &'static str)
    requires
        d < 10,
    ensures
        r@ == seq![digit_char(d as nat)],
{
    proof {
        reveal_strlit("0");
        reveal_strlit("1");
        reveal_strlit("2");
        reveal_strlit("3");
        reveal_strlit("4");
        reveal_strlit("5");
        reveal_strlit("6");
        reveal_strlit("7");
        reveal_strlit("8");
        reveal_strlit("9");
    }
    let r = match d {
        0 => "0",
        1 => "1",
        2 => "2",
        3 => "3",
        4 => "4",
        5 => "5",
        6 => "6",
        7 => "7",
        8 => "8",
        _ => "9",
    };
    assert(r@ =~= seq![digit_char(d as nat)]);
    r
}

/// Appends the decimal digits of `n` to `out`.
pub fn push_decimal(out: &mut String, n: usize)
    ensures
        final(out)@ == old(out)@ + decimal(n as nat),
    decreases n,
{
    if n >= 10 {
        push_decimal(out, n / 10);
    }
    out.append(digit_str(n % 10));
    proof {
        if n >= 10 {
            assert(final(out)@ =~= old(out)@ + decimal(n as nat));
        }
    }
}

fn push_node_line(out: &mut String, id: DefaultIx, label: &String, root: bool)
    ensures
        final(out)@ == old(out)@ + node_line(id, label@, root),
{
    out.append("    ");
    push_decimal(out, id);
    out.append(" [label=\"");
    out.append(label.as_str());
    out.append("\"");
    if root {
        out.append(", peripheries=2");
    }
    out.append("]\n");
    assert(final(out)@ =~= old(out)@ + node_line(id, label@, root));
}

fn push_edge_line(out: &mut String, i: DefaultIx, j: DefaultIx)
    ensures
        final(out)@ == old(out)@ + edge_line(i, j),
{
    out.append("    ");
    push_decimal(out, i);
    out.append(" -> ");
    push_decimal(out, j);
    out.append("\n");
    assert(final(out)@ =~= old(out)@ + edge_line(i, j));
}

/// Whether node `n` is drawn as a root: the focal node when there is one,
/// else any node without parents.
pub open spec fn is_root(n: Node, focal: Option<DefaultIx>) -> bool {
    match focal {
        Some(f) => n.id == f,
        None => n.parents@.len() == 0,
    }
}

/// The node entries of a graph, with labels as character sequences.
pub open spec fn entry_views(es: Seq<(DefaultIx, String, bool)>) -> Seq<(DefaultIx, Seq<char>, bool)> {
    es.map_values(|e: (DefaultIx, String, bool)| (e.0, e.1@, e.2))
}

/// The node entries that a node set gives.
pub open spec fn node_entries(ns: Seq<Node>, focal: Option<DefaultIx>) -> Seq<(DefaultIx, Seq<char>, bool)> {
    ns.map_values(|n: Node| (n.id, n.body.title@, is_root(n, focal)))
}

/// The edges `p -> n` of a node set, node by node, each node's parents in order.
pub open spec fn edge_list(ns: Seq<Node>) -> Seq<(DefaultIx, DefaultIx)>
    decreases ns.len(),
{
    if ns.len() == 0 {
        Seq::empty()
    } else {
        edge_list(ns.drop_last()) + ns.last().parents@.map_values(|p: DefaultIx| (p, ns.last().id))
    }
}

impl Graph<String> {
    /// The strict directed graph of a node set: one node per node, labelled
    /// with its title, and an arrow from each parent to its child.
    pub fn from_nodes(nodes: &Vec<Node>, focal: Option<DefaultIx>) -> (g: Graph<String>)
        ensures
            g.graph_type == (GraphType::DiGraph { is_strict: true }),
            entry_views(g.nodes@) == node_entries(nodes@, focal),
            g.edges@ == edge_list(nodes@),
    {
        let mut dot: Graph<String> = Graph::new_strict_digraph();
        let mut i: usize = 0;
        while i < nodes.len()
            invariant
                i <= nodes@.len(),
                dot.graph_type == (GraphType::DiGraph { is_strict: true }),
                entry_views(dot.nodes@) == node_entries(nodes@.take(i as int), focal),
                dot.nodes@.len() == i,
                dot.edges@.len() == 0,
            decreases nodes@.len() - i,
        {
            let node = &nodes[i];
            let root = match focal {
                Some(f) => node.id == f,
                None => node.parents.len() == 0,
            };
            let ghost before = dot.nodes@;
            if root {
                dot.add_root(node.id, node.title());
            } else {
                dot.add_node(node.id, node.title());
            }
            assert forall|k: int| 0 <= k < i implies entry_views(dot.nodes@)[k] == node_entries(
                nodes@.take(i + 1),
                focal,
            )[k] by {
                assert(dot.nodes@[k] == before[k]);
                assert(entry_views(before)[k] == node_entries(nodes@.take(i as int), focal)[k]);
            }
            assert(entry_views(dot.nodes@) =~= node_entries(nodes@.take(i + 1), focal));
            i = i + 1;
        }
        assert(nodes@.take(i as int) =~= nodes@);
        let mut k: usize = 0;
        while k < nodes.len()
            invariant
                k <= nodes@.len(),
                dot.graph_type == (GraphType::DiGraph { is_strict: true }),
                entry_views(dot.nodes@) == node_entries(nodes@, focal),
                dot.edges@ == edge_list(nodes@.take(k as int)),
            decreases nodes@.len() - k,
        {
            let node = &nodes[k];
            let ghost start = dot.edges@;
            let mut j: usize = 0;
            while j < node.parents.len()
                invariant
                    j <= node.parents@.len(),
                    dot.graph_type == (GraphType::DiGraph { is_strict: true }),
                    entry_views(dot.nodes@) == node_entries(nodes@, focal),
                    dot.edges@ == start + node.parents@.take(j as int).map_values(
                        |p: DefaultIx| (p, node.id),
                    ),
                decreases node.parents@.len() - j,
            {
                dot.add_edge(node.parents[j], node.id);
                assert(node.parents@.take(j + 1).map_values(|p: DefaultIx| (p, node.id))
                    =~= node.parents@.take(j as int).map_values(|p: DefaultIx| (p, node.id)).push(
                    (node.parents@[j as int], node.id),
                ));
                j = j + 1;
            }
            assert(node.parents@.take(j as int) =~= node.parents@);
            assert(nodes@.take(k + 1).drop_last() =~= nodes@.take(k as int));
            k = k + 1;
        }
        assert(nodes@.take(k as int) =~= nodes@);
        dot
    }

    /// The DOT description of the graph; `config` is written as given after the opening line.
    pub fn to_dot_file(&self, config: &str) -> (r: String)
        ensures
            r@ == dot_text(self.graph_type, config@, entry_views(self.nodes@), self.edges@),
    {
        let mut output = String::new();
        let kind = match self.graph_type {
            GraphType::Graph { is_strict: true } => "strict graph",
            GraphType::Graph { is_strict: false } => "graph",
            GraphType::DiGraph { is_strict: true } => "strict digraph",
            GraphType::DiGraph { is_strict: false } => "digraph",
        };
        output.append(kind);
        output.append(" {\n");
        output.append(config);
        output.append("\n");
        let ghost head = output@;
        let mut i: usize = 0;
        while i < self.nodes.len()
            invariant
                i <= self.nodes@.len(),
                output@ == head + nodes_text(entry_views(self.nodes@.take(i as int))),
            decreases self.nodes@.len() - i,
        {
            let (id, label, root) = &self.nodes[i];
            push_node_line(&mut output, *id, label, *root);
            proof {
                assert(entry_views(self.nodes@.take(i + 1)).drop_last() =~= entry_views(self.nodes@.take(i as int)));
                assert(output@ =~= head + nodes_text(entry_views(self.nodes@.take(i + 1))));
            }
            i = i + 1;
        }
        assert(self.nodes@.take(i as int) =~= self.nodes@);
        let ghost mid = output@;
        let mut j: usize = 0;
        while j < self.edges.len()
            invariant
                j <= self.edges@.len(),
                output@ == mid + edges_text(self.edges@.take(j as int)),
            decreases self.edges@.len() - j,
        {
            let (a, b) = self.edges[j];
            push_edge_line(&mut output, a, b);
            proof {
                assert(self.edges@.take(j + 1).drop_last() =~= self.edges@.take(j as int));
                assert(output@ =~= mid + edges_text(self.edges@.take(j + 1)));
            }
            j = j + 1;
        }
        assert(self.edges@.take(j as int) =~= self.edges@);
        output.append("}");
        assert(output@ =~= dot_text(self.graph_type, config@, entry_views(self.nodes@), self.edges@));
        output
    }
}

impl<N> Graph<N> {
    fn new(t: GraphType) -> (r: Self)
        ensures
            r.graph_type == t,
            r.nodes@.len() == 0,
            r.edges@.len() == 0,
    {
        Graph { graph_type: t, nodes: Vec::new(), edges: Vec::new() }
    }

    pub fn new_strict_digraph() -> (r: Self)
        ensures
            r.graph_type == (GraphType::DiGraph { is_strict: true }),
            r.nodes@.len() == 0,
            r.edges@.len() == 0,
    {
        Self::new(GraphType::DiGraph { is_strict: true })
    }

    pub fn new_strict_graph() -> (r: Self)
        ensures
            r.graph_type == (GraphType::Graph { is_strict: true }),
            r.nodes@.len() == 0,
            r.edges@.len() == 0,
    {
        Self::new(GraphType::Graph { is_strict: true })
    }

    pub fn add_node(&mut self, id: DefaultIx, info: N)
        ensures
            final(self).graph_type == old(self).graph_type,
            final(self).nodes@ == old(self).nodes@.push((id, info, false)),
            final(self).edges@ == old(self).edges@,
    {
        self.nodes.push((id, info, false));
    }

    /// Adds a node drawn as a root.
    pub fn add_root(&mut self, id: DefaultIx, info: N)
        ensures
            final(self).graph_type == old(self).graph_type,
            final(self).nodes@ == old(self).nodes@.push((id, info, true)),
            final(self).edges@ == old(self).edges@,
    {
        self.nodes.push((id, info, true));
    }

    pub fn add_edge(&mut self, i: DefaultIx, j: DefaultIx)
        ensures
            final(self).graph_type == old(self).graph_type,
            final(self).nodes@ == old(self).nodes@,
            final(self).edges@ == old(self).edges@.push((i, j)),
    {
        self.edges.push((i, j));
    }
}

} // verus!
