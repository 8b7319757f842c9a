use vstd::prelude::*;

use crate::graph::{
    decimal, digit_value, dot_text, edge_line, edges_text, kind_keyword, lemma_decimal_round_trip, node_line,
    nodes_text, numeral_value, GraphType,
};
use crate::DefaultIx;

verus! {

/// One statement of a DOT description.
pub enum Statement {
    Node(nat, Seq<char>, bool),
    Edge(nat, nat),
}

/// The length of the run of decimal digits that `s` starts with.
pub open spec fn digit_run(s: Seq<char>) -> nat
    decreases s.len(),
{
    if s.len() > 0 && digit_value(s[0]) < 10 {
        1 + digit_run(s.skip(1))
    } else {
        0
    }
}

/// The position of the first `c` in `s` (its length when there is none).
pub open spec fn find_char(s: Seq<char>, c: char) -> nat
    decreases s.len(),
{
    if s.len() == 0 || s[0] == c {
        0
    } else {
        1 + find_char(s.skip(1), c)
    }
}

pub open spec fn label_open() -> Seq<char> {
    seq![' ', '[', 'l', 'a', 'b', 'e', 'l', '=', '"']
}

pub open spec fn root_close() -> Seq<char> {
    seq![',', ' ', 'p', 'e', 'r', 'i', 'p', 'h', 'e', 'r', 'i', 'e', 's', '=', '2', ']', '\n']
}

pub open spec fn indent() -> Seq<char> {
    seq![' ', ' ', ' ', ' ']
}

pub open spec fn arrow() -> Seq<char> {
    seq![' ', '-', '>', ' ']
}

/// The end of a node statement `w`, after its label `l`.
pub open spec fn read_close(id: nat, l: Seq<char>, w: Seq<char>, used: nat) -> Option<(Statement, nat)> {
    if w.len() >= 2 && w.take(2) == seq![']', '\n'] {
        Some((Statement::Node(id, l, false), used + 2))
    } else if w.len() >= 17 && w.take(17) == root_close() {
        Some((Statement::Node(id, l, true), used + 17))
    } else {
        None
    }
}

/// The rest `v` of a node statement, from its label on.
pub open spec fn read_label(id: nat, v: Seq<char>, used: nat) -> Option<(Statement, nat)> {
    let q = find_char(v, '"');
    if q >= v.len() {
        None
    } else {
        read_close(id, v.take(q as int), v.skip((q + 1) as int), used + q + 1)
    }
}

/// The rest `v` of an edge statement, from its target on.
pub open spec fn read_target(id: nat, v: Seq<char>, used: nat) -> Option<(Statement, nat)> {
    let k = digit_run(v);
    let w = v.skip(k as int);
    if k > 0 && w.len() >= 1 && w[0] == '\n' {
        Some((Statement::Edge(id, numeral_value(v.take(k as int))), used + k + 1))
    } else {
        None
    }
}

/// The rest `u` of a statement, after its first id.
pub open spec fn read_after_id(id: nat, u: Seq<char>, used: nat) -> Option<(Statement, nat)> {
    if u.len() >= 9 && u.take(9) == label_open() {
        read_label(id, u.skip(9), used + 9)
    } else if u.len() >= 4 && u.take(4) == arrow() {
        read_target(id, u.skip(4), used + 4)
    } else {
        None
    }
}

/// The statement line that `s` starts with, and its length.
pub open spec fn read_statement(s: Seq<char>) -> Option<(Statement, nat)> {
    let t = s.skip(4);
    let k = digit_run(t);
    if s.len() < 4 || s.take(4) != indent() || k == 0 {
        None
    } else {
        read_after_id(numeral_value(t.take(k as int)), t.skip(k as int), 4 + k)
    }
}

proof fn lemma_find_char(a: Seq<char>, b: Seq<char>, c: char)
    requires
        !a.contains(c),
        b.len() > 0,
        b[0] == c,
    ensures
        find_char(a + b, c) == a.len(),
    decreases a.len(),
{
    if a.len() > 0 {
        assert((a + b)[0] == a[0]);
        assert(!a.skip(1).contains(c)) by {
            if a.skip(1).contains(c) {
                let p = choose|p: int| 0 <= p < a.skip(1).len() && a.skip(1)[p] == c;
                assert(a[p + 1] == c);
            }
        }
        lemma_find_char(a.skip(1), b, c);
        assert((a + b).skip(1) =~= a.skip(1) + b);
    } else {
        assert(a + b =~= b);
    }
}

proof fn lemma_digit_run(a: Seq<char>, b: Seq<char>)
    requires
        forall|i: int| 0 <= i < a.len() ==> digit_value(#[trigger] a[i]) < 10,
        b.len() > 0,
        digit_value(b[0]) >= 10,
    ensures
        digit_run(a + b) == a.len(),
    decreases a.len(),
{
    if a.len() > 0 {
        assert((a + b)[0] == a[0]);
        assert forall|i: int| 0 <= i < a.skip(1).len() implies digit_value(#[trigger] a.skip(1)[i]) < 10 by {
            assert(a.skip(1)[i] == a[i + 1]);
        }
        lemma_digit_run(a.skip(1), b);
        assert((a + b).skip(1) =~= a.skip(1) + b);
    } else {
        assert(a + b =~= b);
    }
}

/// The closing of a node statement.
pub open spec fn node_close(root: bool) -> Seq<char> {
    if root {
        root_close()
    } else {
        seq![']', '\n']
    }
}

proof fn lemma_node_line_parts(i: DefaultIx, l: Seq<char>, r: bool)
    ensures
        node_line(i, l, r) == indent() + decimal(i as nat) + label_open() + l + seq!['"'] + node_close(r),
{
    reveal_strlit("    ");
    reveal_strlit(" [label=\"");
    reveal_strlit("\"");
    reveal_strlit(", peripheries=2");
    reveal_strlit("]\n");
    assert(node_line(i, l, r) =~= indent() + decimal(i as nat) + label_open() + l + seq!['"'] + node_close(r));
}

/// The pieces that `read_statement` cuts a node statement into.
proof fn lemma_node_pieces(i: DefaultIx, l: Seq<char>, close: Seq<char>, rest: Seq<char>)
    requires
        !l.contains('"'),
    ensures
        ({
            let s = indent() + decimal(i as nat) + label_open() + l + seq!['"'] + close + rest;
            let t = s.skip(4);
            let k = digit_run(t);
            let u = t.skip(k as int);
            let v = u.skip(9);
            let q = find_char(v, '"');
            &&& s.len() >= 4 && s.take(4) == indent()
            &&& k == decimal(i as nat).len() && k > 0
            &&& numeral_value(t.take(k as int)) == i
            &&& u.len() >= 9 && u.take(9) == label_open()
            &&& q == l.len() && q < v.len()
            &&& v.take(q as int) == l
            &&& v.skip((q + 1) as int) == close + rest
        }),
{
    let d = decimal(i as nat);
    lemma_decimal_round_trip(i as nat);
    let s = indent() + d + label_open() + l + seq!['"'] + close + rest;
    assert(s.take(4) =~= indent());
    let t = s.skip(4);
    assert(t =~= d + (label_open() + l + seq!['"'] + close + rest));
    lemma_digit_run(d, label_open() + l + seq!['"'] + close + rest);
    assert(t.take(d.len() as int) =~= d);
    let u = t.skip(d.len() as int);
    assert(u =~= label_open() + (l + seq!['"'] + close + rest));
    assert(u.take(9) =~= label_open());
    let v = u.skip(9);
    assert(v =~= l + (seq!['"'] + close + rest));
    lemma_find_char(l, seq!['"'] + close + rest, '"');
    assert(v.take(l.len() as int) =~= l);
    assert(v.skip(l.len() as int + 1) =~= close + rest);
}

proof fn lemma_read_node_parts(i: DefaultIx, l: Seq<char>, r: bool, rest: Seq<char>)
    requires
        !l.contains('"'),
    ensures
        ({
            let s = indent() + decimal(i as nat) + label_open() + l + seq!['"'] + node_close(r) + rest;
            read_statement(s) == Some(
                (
                    Statement::Node(i as nat, l, r),
                    (4 + decimal(i as nat).len() + 9 + l.len() + 1 + node_close(r).len()) as nat,
                ),
            )
        }),
{
    lemma_node_pieces(i, l, node_close(r), rest);
    let d = decimal(i as nat);
    let s = indent() + d + label_open() + l + seq!['"'] + node_close(r) + rest;
    let t = s.skip(4);
    let k = digit_run(t);
    let u = t.skip(k as int);
    let v = u.skip(9);
    let w = node_close(r) + rest;
    let used = (4 + d.len() + 9 + l.len() + 1) as nat;
    if r {
        assert(w.take(2)[0] == ',');
        assert(w.take(17) =~= root_close());
    } else {
        assert(w.take(2) =~= seq![']', '\n']);
    }
    assert(read_close(i as nat, l, w, used) == Some((Statement::Node(i as nat, l, r), (used + node_close(r).len()) as nat)));
    assert(read_label(i as nat, v, (4 + k + 9) as nat) == read_close(i as nat, l, w, used));
    assert(read_after_id(i as nat, u, (4 + k) as nat) == read_label(i as nat, v, (4 + k + 9) as nat));
}

proof fn lemma_read_node(i: DefaultIx, l: Seq<char>, r: bool, rest: Seq<char>)
    requires
        !l.contains('"'),
    ensures
        read_statement(node_line(i, l, r) + rest) == Some(
            (Statement::Node(i as nat, l, r), node_line(i, l, r).len()),
        ),
{
    lemma_node_line_parts(i, l, r);
    lemma_read_node_parts(i, l, r, rest);
}

proof fn lemma_read_edge(i: DefaultIx, j: DefaultIx, rest: Seq<char>)
    ensures
        read_statement(edge_line(i, j) + rest) == Some(
            (Statement::Edge(i as nat, j as nat), edge_line(i, j).len()),
        ),
{
    reveal_strlit("    ");
    reveal_strlit(" -> ");
    reveal_strlit("\n");
    let d = decimal(i as nat);
    let e = decimal(j as nat);
    lemma_decimal_round_trip(i as nat);
    lemma_decimal_round_trip(j as nat);
    assert(edge_line(i, j) =~= indent() + d + arrow() + e + seq!['\n']);
    let s = edge_line(i, j) + rest;
    assert(s.take(4) =~= indent());
    let t = s.skip(4);
    assert(t =~= d + (arrow() + e + seq!['\n'] + rest));
    lemma_digit_run(d, arrow() + e + seq!['\n'] + rest);
    assert(t.take(d.len() as int) =~= d);
    let u = t.skip(d.len() as int);
    assert(u =~= arrow() + (e + seq!['\n'] + rest));
    if u.len() >= 9 {
        assert(u.take(9)[1] == '-');
    }
    assert(u.take(4) =~= arrow());
    let v = u.skip(4);
    assert(v =~= e + (seq!['\n'] + rest));
    lemma_digit_run(e, seq!['\n'] + rest);
    assert(v.take(e.len() as int) =~= e);
    assert(v.skip(e.len() as int) =~= seq!['\n'] + rest);
    assert(edge_line(i, j).len() == 4 + d.len() + 4 + e.len() + 1);
}

/// The node and edge statements that `s` holds, up to the closing brace that ends it.
pub open spec fn read_body(s: Seq<char>) -> Option<(Seq<(nat, Seq<char>, bool)>, Seq<(nat, nat)>)>
    decreases s.len(),
{
    if s == seq!['}'] {
        Some((Seq::empty(), Seq::empty()))
    } else {
        match read_statement(s) {
            Some((st, c)) => if 0 < c <= s.len() {
                match read_body(s.skip(c as int)) {
                    Some((ns, es)) => match st {
                        Statement::Node(i, l, r) => Some((seq![(i, l, r)] + ns, es)),
                        Statement::Edge(a, b) => Some((ns, seq![(a, b)] + es)),
                    },
                    None => None,
                }
            } else {
                None
            },
            None => None,
        }
    }
}

/// The nodes and edges that a DOT description states: past its opening line
/// and the configuration line, one statement per line.
pub open spec fn read_dot(text: Seq<char>) -> Option<(Seq<(nat, Seq<char>, bool)>, Seq<(nat, nat)>)> {
    let a = find_char(text, '\n');
    let rest = text.skip(a as int + 1);
    let b = find_char(rest, '\n');
    if a >= text.len() || b >= rest.len() {
        None
    } else {
        read_body(rest.skip(b as int + 1))
    }
}

/// Node entries as read back: ids as numbers.
pub open spec fn node_values(ns: Seq<(DefaultIx, Seq<char>, bool)>) -> Seq<(nat, Seq<char>, bool)> {
    ns.map_values(|e: (DefaultIx, Seq<char>, bool)| (e.0 as nat, e.1, e.2))
}

/// Edges as read back: ids as numbers.
pub open spec fn edge_values(es: Seq<(DefaultIx, DefaultIx)>) -> Seq<(nat, nat)> {
    es.map_values(|e: (DefaultIx, DefaultIx)| (e.0 as nat, e.1 as nat))
}

proof fn lemma_nodes_text_front(ns: Seq<(DefaultIx, Seq<char>, bool)>)
    requires
        ns.len() > 0,
    ensures
        nodes_text(ns) == node_line(ns[0].0, ns[0].1, ns[0].2) + nodes_text(ns.skip(1)),
    decreases ns.len(),
{
    if ns.len() == 1 {
        assert(ns.drop_last() =~= Seq::<(DefaultIx, Seq<char>, bool)>::empty());
        assert(ns.skip(1) =~= Seq::<(DefaultIx, Seq<char>, bool)>::empty());
        assert(nodes_text(ns) =~= node_line(ns[0].0, ns[0].1, ns[0].2) + nodes_text(ns.skip(1)));
    } else {
        lemma_nodes_text_front(ns.drop_last());
        assert(ns.skip(1).drop_last() =~= ns.drop_last().skip(1));
        assert(nodes_text(ns) =~= node_line(ns[0].0, ns[0].1, ns[0].2) + nodes_text(ns.skip(1)));
    }
}

proof fn lemma_edges_text_front(es: Seq<(DefaultIx, DefaultIx)>)
    requires
        es.len() > 0,
    ensures
        edges_text(es) == edge_line(es[0].0, es[0].1) + edges_text(es.skip(1)),
    decreases es.len(),
{
    if es.len() == 1 {
        assert(es.drop_last() =~= Seq::<(DefaultIx, DefaultIx)>::empty());
        assert(es.skip(1) =~= Seq::<(DefaultIx, DefaultIx)>::empty());
        assert(edges_text(es) =~= edge_line(es[0].0, es[0].1) + edges_text(es.skip(1)));
    } else {
        lemma_edges_text_front(es.drop_last());
        assert(es.skip(1).drop_last() =~= es.drop_last().skip(1));
        assert(edges_text(es) =~= edge_line(es[0].0, es[0].1) + edges_text(es.skip(1)));
    }
}

proof fn lemma_read_edges(es: Seq<(DefaultIx, DefaultIx)>)
    ensures
        read_body(edges_text(es) + seq!['}']) == Some((Seq::<(nat, Seq<char>, bool)>::empty(), edge_values(es))),
    decreases es.len(),
{
    if es.len() == 0 {
        assert(edges_text(es) + seq!['}'] =~= seq!['}']);
        assert(edge_values(es) =~= Seq::<(nat, nat)>::empty());
    } else {
        lemma_edges_text_front(es);
        let line = edge_line(es[0].0, es[0].1);
        let rest = edges_text(es.skip(1)) + seq!['}'];
        let s = edges_text(es) + seq!['}'];
        assert(s =~= line + rest);
        lemma_read_edge(es[0].0, es[0].1, rest);
        reveal_strlit("    ");
        assert(s[0] == ' ');
        assert(s.skip(line.len() as int) =~= rest);
        lemma_read_edges(es.skip(1));
        assert(seq![(es[0].0 as nat, es[0].1 as nat)] + edge_values(es.skip(1)) =~= edge_values(es));
    }
}

proof fn lemma_read_body(ns: Seq<(DefaultIx, Seq<char>, bool)>, es: Seq<(DefaultIx, DefaultIx)>)
    requires
        forall|i: int| 0 <= i < ns.len() ==> !(#[trigger] ns[i]).1.contains('"'),
    ensures
        read_body(nodes_text(ns) + edges_text(es) + seq!['}']) == Some((node_values(ns), edge_values(es))),
    decreases ns.len(),
{
    if ns.len() == 0 {
        assert(nodes_text(ns) + edges_text(es) + seq!['}'] =~= edges_text(es) + seq!['}']);
        assert(node_values(ns) =~= Seq::<(nat, Seq<char>, bool)>::empty());
        lemma_read_edges(es);
    } else {
        lemma_nodes_text_front(ns);
        let line = node_line(ns[0].0, ns[0].1, ns[0].2);
        let rest = nodes_text(ns.skip(1)) + edges_text(es) + seq!['}'];
        let s = nodes_text(ns) + edges_text(es) + seq!['}'];
        assert(s =~= line + rest);
        lemma_read_node(ns[0].0, ns[0].1, ns[0].2, rest);
        reveal_strlit("    ");
        assert(s[0] == ' ');
        assert(s.skip(line.len() as int) =~= rest);
        assert forall|i: int| 0 <= i < ns.skip(1).len() implies !(#[trigger] ns.skip(1)[i]).1.contains('"') by {
            assert(ns.skip(1)[i] == ns[i + 1]);
        }
        lemma_read_body(ns.skip(1), es);
        assert(seq![(ns[0].0 as nat, ns[0].1, ns[0].2)] + node_values(ns.skip(1)) =~= node_values(ns));
    }
}

/// The opening keyword of a description holds no line break.
proof fn lemma_keyword_one_line(t: GraphType)
    ensures
        !kind_keyword(t).contains('\n'),
{
    reveal_strlit("strict graph");
    reveal_strlit("graph");
    reveal_strlit("strict digraph");
    reveal_strlit("digraph");
    let k = kind_keyword(t);
    assert forall|i: int| 0 <= i < k.len() implies k[i] != '\n' by {}
}

/// Writing a graph as a DOT description and reading the description back
/// gives the same node statements (ids, labels, root marks) and the same
/// edges, in the same order, when no label holds a double quote and the
/// configuration line holds no line break.
pub proof fn lemma_dot_round_trip(
    t: GraphType,
    config: Seq<char>,
    ns: Seq<(DefaultIx, Seq<char>, bool)>,
    es: Seq<(DefaultIx, DefaultIx)>,
)
    requires
        !config.contains('\n'),
        forall|i: int| 0 <= i < ns.len() ==> !(#[trigger] ns[i]).1.contains('"'),
    ensures
        read_dot(dot_text(t, config, ns, es)) == Some((node_values(ns), edge_values(es))),
{
    reveal_strlit(" {\n");
    reveal_strlit("\n");
    reveal_strlit("}");
    let kw = kind_keyword(t);
    let body = nodes_text(ns) + edges_text(es) + seq!['}'];
    let text = dot_text(t, config, ns, es);
    lemma_keyword_one_line(t);
    let head = kw + seq![' ', '{'];
    assert(!head.contains('\n')) by {
        assert forall|i: int| 0 <= i < head.len() implies head[i] != '\n' by {
            if i < kw.len() {
                assert(head[i] == kw[i]);
                assert(!kw.contains('\n'));
                if kw[i] == '\n' {
                    assert(kw.contains('\n'));
                }
            }
        }
    }
    assert(text =~= head + (seq!['\n'] + config + seq!['\n'] + body));
    lemma_find_char(head, seq!['\n'] + config + seq!['\n'] + body, '\n');
    let rest = text.skip(head.len() as int + 1);
    assert(rest =~= config + (seq!['\n'] + body));
    lemma_find_char(config, seq!['\n'] + body, '\n');
    assert(rest.skip(config.len() as int + 1) =~= body);
    lemma_read_body(ns, es);
}

} // verus!
