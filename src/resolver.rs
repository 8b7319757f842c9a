use vstd::prelude::*;

use crate::node::{deps_of, first_index, lemma_first_index, position_of, titles, Failure};
use crate::graph::edge_list;
use crate::{DefaultIx, GraphError, Node};

verus! {

/// The id that title `t` resolves to in `ns`: that of the first node carrying it.
pub open spec fn lookup(ns: Seq<Node>, t: Seq<char>) -> Option<DefaultIx> {
    match first_index(titles(ns), t) {
        Some(i) => Some(ns[i].id),
        None => None,
    }
}

/// The first title of `ds` that does not resolve in `ns`.
pub open spec fn first_missing(ns: Seq<Node>, ds: Seq<Seq<char>>) -> Option<Seq<char>>
    decreases ds.len(),
{
    if ds.len() == 0 {
        None
    } else {
        match first_missing(ns, ds.drop_last()) {
            Some(d) => Some(d),
            None => if lookup(ns, ds.last()) is None {
                Some(ds.last())
            } else {
                None
            },
        }
    }
}

/// The first (referencing title, missing title) pair among the first `k` nodes.
pub open spec fn first_unresolved(ns: Seq<Node>, k: int) -> Option<(Seq<char>, Seq<char>)>
    decreases k,
{
    if k <= 0 {
        None
    } else {
        match first_unresolved(ns, k - 1) {
            Some(p) => Some(p),
            None => match first_missing(ns, deps_of(ns[k - 1].body)) {
                Some(d) => Some((ns[k - 1].body.title@, d)),
                None => None,
            },
        }
    }
}

/// `ps` with each of `ids` appended unless already present.
pub open spec fn merged(ps: Seq<DefaultIx>, ids: Seq<DefaultIx>) -> Seq<DefaultIx>
    decreases ids.len(),
{
    if ids.len() == 0 {
        ps
    } else {
        let m = merged(ps, ids.drop_last());
        if m.contains(ids.last()) {
            m
        } else {
            m.push(ids.last())
        }
    }
}

/// The ids that the titles `ds` resolve to in `ns`.
pub open spec fn dep_ids(ns: Seq<Node>, ds: Seq<Seq<char>>) -> Seq<DefaultIx> {
    ds.map_values(|d: Seq<char>| lookup(ns, d).unwrap())
}

/// The parents of node `n` once its dependencies are resolved in `ns`.
pub open spec fn linked_parents(ns: Seq<Node>, n: Node) -> Seq<DefaultIx> {
    merged(n.parents@, dep_ids(ns, deps_of(n.body)))
}

/// Whether `x` is among `v`.
pub fn has_id(v: &Vec<DefaultIx>, x: DefaultIx) -> (r: bool)
    ensures
        r == v@.contains(x),
{
    let mut i: usize = 0;
    while i < v.len()
        invariant
            i <= v@.len(),
            forall|k: int| 0 <= k < i ==> v@[k] != x,
        decreases v@.len() - i,
    {
        if v[i] == x {
            assert(v@[i as int] == x);
            return true;
        }
        i = i + 1;
    }
    false
}

/// Resolves the dependencies of node `k` against `nodes`: its parents merged
/// with the resolved ids, or the first reference that resolves nowhere.
pub fn link_deps(nodes: &Vec<Node>, k: usize) -> (r: Result<Vec<DefaultIx>, GraphError>)
    requires
        k < nodes@.len(),
    ensures
        match first_missing(nodes@, deps_of(nodes@[k as int].body)) {
            Some(d) => r matches Err(e) && e@ == Failure::UnresolvedDependency(
                nodes@[k as int].body.title@,
                d,
            ),
            None => r matches Ok(ps) && ps@ == linked_parents(nodes@, nodes@[k as int]),
        },
{
    let ghost ds = deps_of(nodes@[k as int].body);
    let deps = &nodes[k].body.dependencies;
    let mut ps: Vec<DefaultIx> = Vec::new();
    let mut i: usize = 0;
    while i < nodes[k].parents.len()
        invariant
            k < nodes@.len(),
            i <= nodes@[k as int].parents@.len(),
            ps@ == nodes@[k as int].parents@.take(i as int),
        decreases nodes@[k as int].parents@.len() - i,
    {
        ps.push(nodes[k].parents[i]);
        assert(ps@ =~= nodes@[k as int].parents@.take(i + 1));
        i = i + 1;
    }
    assert(ps@ =~= nodes@[k as int].parents@);
    let mut j: usize = 0;
    while j < deps.len()
        invariant
            k < nodes@.len(),
            deps == &nodes@[k as int].body.dependencies,
            ds == deps_of(nodes@[k as int].body),
            j <= ds.len(),
            first_missing(nodes@, ds.take(j as int)) is None,
            ps@ == merged(nodes@[k as int].parents@, dep_ids(nodes@, ds.take(j as int))),
        decreases ds.len() - j,
    {
        assert(ds.take(j + 1).drop_last() =~= ds.take(j as int));
        assert(dep_ids(nodes@, ds.take(j + 1)).drop_last() =~= dep_ids(nodes@, ds.take(j as int)));
        proof {
            lemma_first_index(titles(nodes@), ds[j as int]);
        }
        match position_of(nodes, &deps[j]) {
            Some(p) => {
                let id = nodes[p].id;
                if !has_id(&ps, id) {
                    ps.push(id);
                }
            },
            None => {
                proof {
                    lemma_first_missing_prefix(nodes@, ds, j + 1);
                }
                return Err(GraphError::UnresolvedDependency(nodes[k].title(), deps[j].clone()));
            },
        }
        j = j + 1;
    }
    assert(ds.take(j as int) =~= ds);
    Ok(ps)
}

/// A title missing in a prefix is the first missing one of the whole sequence.
proof fn lemma_first_missing_prefix(ns: Seq<Node>, ds: Seq<Seq<char>>, k: int)
    requires
        0 <= k <= ds.len(),
        first_missing(ns, ds.take(k)) is Some,
    ensures
        first_missing(ns, ds) == first_missing(ns, ds.take(k)),
    decreases ds.len() - k,
{
    if k < ds.len() {
        assert(ds.take(k + 1).drop_last() =~= ds.take(k));
        lemma_first_missing_prefix(ns, ds, k + 1);
    } else {
        assert(ds.take(k) =~= ds);
    }
}

/// Two node sets with the same titles and ids, position by position, resolve alike.
pub open spec fn same_index(a: Seq<Node>, b: Seq<Node>) -> bool {
    &&& a.len() == b.len()
    &&& forall|k: int|
        0 <= k < a.len() ==> (#[trigger] a[k]).id == b[k].id && a[k].body.title@ == b[k].body.title@
}

pub proof fn lemma_same_index(a: Seq<Node>, b: Seq<Node>, ds: Seq<Seq<char>>)
    requires
        same_index(a, b),
    ensures
        first_missing(a, ds) == first_missing(b, ds),
        dep_ids(a, ds) == dep_ids(b, ds),
    decreases ds.len(),
{
    assert(titles(a) =~= titles(b));
    assert forall|t: Seq<char>| lookup(a, t) == lookup(b, t) by {
        if let Some(i) = first_index(titles(a), t) {
            lemma_first_index(titles(a), t);
            assert(a[i].id == b[i].id);
        }
    }
    if ds.len() > 0 {
        lemma_same_index(a, b, ds.drop_last());
    }
    assert(dep_ids(a, ds) =~= dep_ids(b, ds));
}

/// Node set `out` is `ns` with every node's dependencies resolved into parents.
pub open spec fn fully_linked(ns: Seq<Node>, out: Seq<Node>) -> bool {
    &&& out.len() == ns.len()
    &&& forall|k: int|
        0 <= k < ns.len() ==> (#[trigger] out[k]).id == ns[k].id && out[k].body == ns[k].body
            && out[k].parents@ == linked_parents(ns, ns[k])
}

/// Full-graph mode: resolves every dependency reference of every node into a
/// parent edge, failing on the first reference (in node order, then reference
/// order) that names no node.
pub fn tree(all_nodes: Vec<Node>) -> (r: Result<Vec<Node>, GraphError>)
    ensures
        match first_unresolved(all_nodes@, all_nodes@.len() as int) {
            Some((from, dep)) => r matches Err(e) && e@ == Failure::UnresolvedDependency(from, dep),
            None => r matches Ok(out) && fully_linked(all_nodes@, out@),
        },
{
    let ghost orig = all_nodes@;
    let mut nodes = all_nodes;
    let n = nodes.len();
    let mut k: usize = 0;
    while k < n
        invariant
            n == nodes@.len() == orig.len(),
            orig == all_nodes@,
            k <= n,
            same_index(nodes@, orig),
            first_unresolved(orig, k as int) is None,
            forall|i: int|
                0 <= i < n ==> (#[trigger] nodes@[i]).id == orig[i].id && nodes@[i].body == orig[i].body,
            forall|i: int| 0 <= i < k ==> (#[trigger] nodes@[i]).parents@ == linked_parents(orig, orig[i]),
            forall|i: int| k <= i < n ==> (#[trigger] nodes@[i]) == orig[i],
        decreases n - k,
    {
        proof {
            lemma_same_index(nodes@, orig, deps_of(orig[k as int].body));
        }
        match link_deps(&nodes, k) {
            Ok(ps) => {
                nodes[k].parents = ps;
            },
            Err(e) => {
                proof {
                    lemma_first_unresolved_prefix(orig, k + 1, n as int);
                }
                return Err(e);
            },
        }
        k = k + 1;
    }
    Ok(nodes)
}

/// A failure among the first `k` nodes is the failure among the first `m >= k`.
proof fn lemma_first_unresolved_prefix(ns: Seq<Node>, k: int, m: int)
    requires
        0 <= k <= m,
        first_unresolved(ns, k) is Some,
    ensures
        first_unresolved(ns, m) == first_unresolved(ns, k),
    decreases m - k,
{
    if k < m {
        lemma_first_unresolved_prefix(ns, k, m - 1);
    }
}

/// Every title of a fully resolving list resolves.
pub proof fn lemma_all_resolve(ns: Seq<Node>, ds: Seq<Seq<char>>, i: int)
    requires
        first_missing(ns, ds) is None,
        0 <= i < ds.len(),
    ensures
        lookup(ns, ds[i]) is Some,
    decreases ds.len(),
{
    if i < ds.len() - 1 {
        assert(ds.drop_last()[i] == ds[i]);
        lemma_all_resolve(ns, ds.drop_last(), i);
    }
}

/// The total length of the dependency lists of `ns`.
pub open spec fn dep_total(ns: Seq<Node>) -> nat
    decreases ns.len(),
{
    if ns.len() == 0 {
        0
    } else {
        dep_total(ns.drop_last()) + deps_of(ns.last().body).len()
    }
}

proof fn lemma_resolves_each(ns: Seq<Node>, k: int, m: int)
    requires
        0 <= k < m <= ns.len(),
        first_unresolved(ns, m) is None,
    ensures
        first_missing(ns, deps_of(ns[k].body)) is None,
    decreases m,
{
    if k < m - 1 {
        lemma_resolves_each(ns, k, m - 1);
    }
}

proof fn lemma_merged_fresh(ids: Seq<DefaultIx>)
    requires
        ids.no_duplicates(),
    ensures
        merged(Seq::empty(), ids) == ids,
    decreases ids.len(),
{
    if ids.len() > 0 {
        let init = ids.drop_last();
        assert(init.no_duplicates());
        lemma_merged_fresh(init);
        if init.contains(ids.last()) {
            let p = choose|p: int| 0 <= p < init.len() && init[p] == ids.last();
            assert(ids[p] == ids[ids.len() - 1]);
        }
        assert(init.push(ids.last()) =~= ids);
    }
}

/// With ids at their positions, distinct resolving titles resolve to distinct ids.
proof fn lemma_dep_ids_distinct(ns: Seq<Node>, ds: Seq<Seq<char>>)
    requires
        forall|k: int| 0 <= k < ns.len() ==> (#[trigger] ns[k]).id == k,
        ds.no_duplicates(),
        first_missing(ns, ds) is None,
    ensures
        dep_ids(ns, ds).no_duplicates(),
{
    let ids = dep_ids(ns, ds);
    assert forall|a: int, b: int| 0 <= a < b < ids.len() implies ids[a] != ids[b] by {
        lemma_all_resolve(ns, ds, a);
        lemma_all_resolve(ns, ds, b);
        lemma_first_index(titles(ns), ds[a]);
        lemma_first_index(titles(ns), ds[b]);
        let ia = first_index(titles(ns), ds[a]).unwrap();
        let ib = first_index(titles(ns), ds[b]).unwrap();
        assert(ns[ia].id == ia && ns[ib].id == ib);
    }
}

/// In full-graph mode, when every reference resolves, there are as many edges
/// as dependency references: the sum of the dependency-list lengths (each list
/// a set, the node set fresh from admission).
pub proof fn lemma_edge_count(ns: Seq<Node>, out: Seq<Node>)
    requires
        fully_linked(ns, out),
        first_unresolved(ns, ns.len() as int) is None,
        forall|k: int| 0 <= k < ns.len() ==> (#[trigger] ns[k]).id == k && ns[k].parents@.len() == 0,
        forall|k: int| 0 <= k < ns.len() ==> deps_of(#[trigger] ns[k].body).no_duplicates(),
    ensures
        edge_list(out).len() == dep_total(ns),
{
    lemma_edge_count_prefix(ns, out, ns.len() as int);
    assert(out.take(ns.len() as int) =~= out);
    assert(ns.take(ns.len() as int) =~= ns);
}

proof fn lemma_edge_count_prefix(ns: Seq<Node>, out: Seq<Node>, k: int)
    requires
        fully_linked(ns, out),
        first_unresolved(ns, ns.len() as int) is None,
        forall|k: int| 0 <= k < ns.len() ==> (#[trigger] ns[k]).id == k && ns[k].parents@.len() == 0,
        forall|k: int| 0 <= k < ns.len() ==> deps_of(#[trigger] ns[k].body).no_duplicates(),
        0 <= k <= ns.len(),
    ensures
        edge_list(out.take(k)).len() == dep_total(ns.take(k)),
    decreases k,
{
    if k > 0 {
        lemma_edge_count_prefix(ns, out, k - 1);
        assert(out.take(k).drop_last() =~= out.take(k - 1));
        assert(ns.take(k).drop_last() =~= ns.take(k - 1));
        let ds = deps_of(ns[k - 1].body);
        lemma_resolves_each(ns, k - 1, ns.len() as int);
        lemma_dep_ids_distinct(ns, ds);
        lemma_merged_fresh(dep_ids(ns, ds));
        assert(ns[k - 1].parents@ =~= Seq::<DefaultIx>::empty());
        assert(out[k - 1].parents@.len() == ds.len());
    }
}

} // verus!
