use vstd::prelude::*;

use crate::node::{deps_of, first_index, lemma_first_index, titles, Failure};
use crate::resolver::{
    dep_ids, first_missing, lemma_all_resolve, lemma_same_index, link_deps, linked_parents, merged, same_index,
};
use crate::{DefaultIx, GraphError, MetaData, Node};

verus! {

/// A node set whose ids are the positions and whose parents are all present.
pub open spec fn wf_nodes(ns: Seq<Node>) -> bool {
    forall|k: int|
        0 <= k < ns.len() ==> (#[trigger] ns[k]).id == k && forall|i: int|
            0 <= i < ns[k].parents@.len() ==> ns[k].parents@[i] < ns.len()
}

/// Node `k` is a resolved dependency (or a known parent) of node `j`.
pub open spec fn hop(ns: Seq<Node>, j: int, k: int) -> bool {
    &&& first_missing(ns, deps_of(ns[j].body)) is None
    &&& linked_parents(ns, ns[j]).contains(k as DefaultIx)
}

/// `p` is a walk through `ns` along dependency hops.
pub open spec fn is_walk(ns: Seq<Node>, p: Seq<int>) -> bool {
    &&& p.len() >= 1
    &&& forall|i: int| 0 <= i < p.len() ==> 0 <= #[trigger] p[i] < ns.len()
    &&& forall|i: int| 0 <= i < p.len() - 1 ==> hop(ns, #[trigger] p[i], p[i + 1])
}

/// Node `k` lies at most `d` dependency hops from node `f`.
pub open spec fn within(ns: Seq<Node>, f: int, k: int, d: nat) -> bool {
    exists|p: Seq<int>| #[trigger] is_walk(ns, p) && p[0] == f && p.last() == k && p.len() <= d + 1
}

/// Node `k` is expanded by a search of depth `max` from `f`: it lies under `max` hops away.
pub open spec fn expanded(ns: Seq<Node>, f: int, k: int, max: nat) -> bool {
    max > 0 && within(ns, f, k, (max - 1) as nat)
}

/// How many entries of `v` are set.
pub open spec fn marked(v: Seq<bool>) -> nat
    decreases v.len(),
{
    if v.len() == 0 {
        0
    } else {
        marked(v.drop_last()) + if v.last() {
            1nat
        } else {
            0nat
        }
    }
}

proof fn lemma_marked_none(v: Seq<bool>)
    requires
        forall|i: int| 0 <= i < v.len() ==> !v[i],
    ensures
        marked(v) == 0,
    decreases v.len(),
{
    if v.len() > 0 {
        lemma_marked_none(v.drop_last());
    }
}

proof fn lemma_marked_bound(v: Seq<bool>)
    ensures
        marked(v) <= v.len(),
    decreases v.len(),
{
    if v.len() > 0 {
        lemma_marked_bound(v.drop_last());
    }
}

proof fn lemma_marked_set(v: Seq<bool>, i: int)
    requires
        0 <= i < v.len(),
        !v[i],
    ensures
        marked(v.update(i, true)) == marked(v) + 1,
    decreases v.len(),
{
    if i < v.len() - 1 {
        assert(v.update(i, true).drop_last() =~= v.drop_last().update(i, true));
        lemma_marked_set(v.drop_last(), i);
    } else {
        assert(v.update(i, true).drop_last() =~= v.drop_last());
    }
}

proof fn lemma_within_mono(ns: Seq<Node>, f: int, k: int, d1: nat, d2: nat)
    requires
        d1 <= d2,
        within(ns, f, k, d1),
    ensures
        within(ns, f, k, d2),
{
}

/// A walk to `j` within `d` hops, then one hop to `k`.
proof fn lemma_within_step(ns: Seq<Node>, f: int, j: int, k: int, d: nat)
    requires
        within(ns, f, j, d),
        0 <= k < ns.len(),
        hop(ns, j, k),
    ensures
        within(ns, f, k, d + 1),
{
    let p = choose|p: Seq<int>| #[trigger] is_walk(ns, p) && p[0] == f && p.last() == j && p.len() <= d + 1;
    let q = p.push(k);
    assert forall|i: int| 0 <= i < q.len() - 1 implies hop(ns, #[trigger] q[i], q[i + 1]) by {
        if i < p.len() - 1 {
            assert(q[i] == p[i] && q[i + 1] == p[i + 1]);
        }
    }
    assert(is_walk(ns, q));
}

/// The focal node is within any number of hops of itself.
proof fn lemma_within_self(ns: Seq<Node>, f: int, d: nat)
    requires
        0 <= f < ns.len(),
    ensures
        within(ns, f, f, d),
{
    let p = seq![f];
    assert(is_walk(ns, p));
}

proof fn lemma_merged_members(ps: Seq<DefaultIx>, ids: Seq<DefaultIx>, x: DefaultIx)
    ensures
        merged(ps, ids).contains(x) ==> ps.contains(x) || ids.contains(x),
    decreases ids.len(),
{
    if ids.len() > 0 {
        lemma_merged_members(ps, ids.drop_last(), x);
        if ids.drop_last().contains(x) {
            let i = choose|i: int| 0 <= i < ids.drop_last().len() && ids.drop_last()[i] == x;
            assert(ids[i] == x);
        }
        if merged(ps, ids).contains(x) && x == ids.last() {
            assert(ids[ids.len() - 1] == x);
        }
    }
}

/// In a well-formed node set, resolved parents are present nodes.
proof fn lemma_linked_bound(ns: Seq<Node>, j: int, x: DefaultIx)
    requires
        wf_nodes(ns),
        0 <= j < ns.len(),
        first_missing(ns, deps_of(ns[j].body)) is None,
        linked_parents(ns, ns[j]).contains(x),
    ensures
        x < ns.len(),
{
    let ds = deps_of(ns[j].body);
    let ids = dep_ids(ns, ds);
    lemma_merged_members(ns[j].parents@, ids, x);
    if ids.contains(x) {
        let i = choose|i: int| 0 <= i < ids.len() && ids[i] == x;
        lemma_all_resolve(ns, ds, i);
        lemma_first_index(titles(ns), ds[i]);
        let p = first_index(titles(ns), ds[i]).unwrap();
        assert(ns[p].id == p);
    } else {
        let i = choose|i: int| 0 <= i < ns[j].parents@.len() && ns[j].parents@[i] == x;
    }
}

/// Every node within `d <= max` hops is visited, at a recorded depth of at most `d`,
/// when every visited node under depth `max` has had its dependencies visited.
proof fn lemma_complete(
    ns: Seq<Node>,
    f: int,
    max: nat,
    visited: Seq<bool>,
    depth: Seq<usize>,
    k: int,
    d: nat,
)
    requires
        visited.len() == ns.len() == depth.len(),
        0 <= f < ns.len(),
        visited[f] && depth[f] == 0,
        forall|j: int, x: int|
            0 <= j < ns.len() && visited[j] && depth[j] < max && 0 <= x < ns.len() && #[trigger] hop(
                ns,
                j,
                x,
            ) ==> visited[x] && depth[x] <= depth[j] + 1,
        d <= max,
        within(ns, f, k, d),
    ensures
        visited[k] && depth[k] <= d,
{
    let p = choose|p: Seq<int>| #[trigger] is_walk(ns, p) && p[0] == f && p.last() == k && p.len() <= d + 1;
    lemma_walk_visited(ns, f, max, visited, depth, p, p.len() - 1);
}

proof fn lemma_walk_visited(
    ns: Seq<Node>,
    f: int,
    max: nat,
    visited: Seq<bool>,
    depth: Seq<usize>,
    p: Seq<int>,
    i: int,
)
    requires
        visited.len() == ns.len() == depth.len(),
        visited[f] && depth[f] == 0,
        forall|j: int, x: int|
            0 <= j < ns.len() && visited[j] && depth[j] < max && 0 <= x < ns.len() && #[trigger] hop(
                ns,
                j,
                x,
            ) ==> visited[x] && depth[x] <= depth[j] + 1,
        is_walk(ns, p),
        p[0] == f,
        p.len() <= max + 1,
        0 <= i < p.len(),
    ensures
        visited[p[i]] && depth[p[i]] <= i,
    decreases i,
{
    if i > 0 {
        lemma_walk_visited(ns, f, max, visited, depth, p, i - 1);
        assert(hop(ns, p[i - 1], p[i]));
    }
}

/// Node `j` has been dequeued: expanded (its dependencies resolved into parents
/// and visited one hop deeper) when under depth `max`, else left as it was.
#[verifier::opaque]
pub open spec fn processed(
    ns: Seq<Node>,
    cur: Seq<Node>,
    visited: Seq<bool>,
    depth: Seq<usize>,
    max: nat,
    j: int,
) -> bool {
    if depth[j] < max {
        &&& first_missing(ns, deps_of(ns[j].body)) is None
        &&& cur[j].parents@ == linked_parents(ns, ns[j])
        &&& forall|x: int|
            0 <= x < ns.len() && #[trigger] hop(ns, j, x) ==> visited[x] && depth[x] <= depth[j] + 1
    } else {
        cur[j] == ns[j]
    }
}

/// The state of the search after `head` nodes have been dequeued.
#[verifier::opaque]
pub open spec fn search_state(
    ns: Seq<Node>,
    f: int,
    max: nat,
    cur: Seq<Node>,
    visited: Seq<bool>,
    depth: Seq<usize>,
    queue: Seq<DefaultIx>,
    head: int,
) -> bool {
    &&& wf_nodes(ns)
    &&& 0 <= f < ns.len()
    &&& cur.len() == ns.len() == visited.len() == depth.len()
    &&& same_index(cur, ns)
    &&& forall|k: int| 0 <= k < ns.len() ==> (#[trigger] cur[k]).id == ns[k].id && cur[k].body == ns[k].body
    &&& 0 <= head <= queue.len() <= ns.len()
    &&& queue.len() == marked(visited)
    &&& queue.len() >= 1
    &&& queue[0] == f
    &&& queue.no_duplicates()
    &&& forall|i: int| 0 <= i < queue.len() ==> #[trigger] queue[i] < ns.len() && visited[queue[i] as int]
    &&& forall|k: int| 0 <= k < ns.len() && #[trigger] visited[k] ==> exists|i: int| 0 <= i < queue.len() && queue[i] == k
    &&& depth[f] == 0
    &&& forall|a: int, b: int| 0 <= a <= b < queue.len() ==> depth[#[trigger] queue[a] as int] <= depth[#[trigger] queue[b] as int]
    &&& head < queue.len() ==> depth[queue.last() as int] <= depth[queue[head] as int] + 1
    &&& forall|k: int| 0 <= k < ns.len() && #[trigger] visited[k] ==> depth[k] <= max && within(ns, f, k, depth[k] as nat)
    &&& forall|i: int| 0 <= i < head ==> processed(ns, cur, visited, depth, max, #[trigger] queue[i] as int)
    &&& forall|i: int| head <= i < queue.len() ==> cur[#[trigger] queue[i] as int] == ns[queue[i] as int]
    &&& forall|k: int| 0 <= k < ns.len() && !visited[k] ==> #[trigger] cur[k] == ns[k]
}

/// Visiting a node `p` not yet visited keeps what was established of node `j`.
proof fn lemma_processed_update(
    ns: Seq<Node>,
    cur: Seq<Node>,
    v0: Seq<bool>,
    d0: Seq<usize>,
    max: nat,
    j: int,
    p: int,
    dp: usize,
)
    requires
        processed(ns, cur, v0, d0, max, j),
        v0.len() == d0.len() == ns.len(),
        0 <= j < ns.len(),
        0 <= p < ns.len(),
        v0[j],
        !v0[p],
    ensures
        processed(ns, cur, v0.update(p, true), d0.update(p, dp), max, j),
{
    reveal(processed);
    let visited = v0.update(p, true);
    let depth = d0.update(p, dp);
    if d0[j] < max {
        assert forall|x: int| 0 <= x < ns.len() && #[trigger] hop(ns, j, x) implies visited[x] && depth[x] <= depth[j] + 1 by {
            assert(v0[x]);
        }
    }
}

/// Visiting a fresh dependency `p` of the node being expanded keeps the search state.
#[verifier::rlimit(100)]
proof fn lemma_enqueue(
    ns: Seq<Node>,
    f: int,
    max: nat,
    cur: Seq<Node>,
    v0: Seq<bool>,
    d0: Seq<usize>,
    q0: Seq<DefaultIx>,
    head: int,
    p: int,
)
    requires
        search_state(ns, f, max, cur, v0, d0, q0, head),
        head < q0.len(),
        d0[q0[head] as int] < max,
        0 <= p < ns.len(),
        !v0[p],
        hop(ns, q0[head] as int, p),
        max <= usize::MAX,
    ensures
        search_state(
            ns,
            f,
            max,
            cur,
            v0.update(p, true),
            d0.update(p, (d0[q0[head] as int] + 1) as usize),
            q0.push(p as DefaultIx),
            head,
        ),
{
    reveal(search_state);
    let j = q0[head] as int;
    let visited = v0.update(p, true);
    let depth = d0.update(p, (d0[j] + 1) as usize);
    let queue = q0.push(p as DefaultIx);
    lemma_marked_set(v0, p);
    lemma_marked_bound(visited);
    lemma_within_step(ns, f, j, p, d0[j] as nat);
    assert forall|k: int| 0 <= k < ns.len() && #[trigger] visited[k] implies exists|i: int|
        0 <= i < queue.len() && queue[i] == k by {
        if k == p {
            assert(queue[queue.len() - 1] == k);
        } else {
            assert(v0[k]);
            let i = choose|i: int| 0 <= i < q0.len() && q0[i] == k;
            assert(queue[i] == k);
        }
    }
    assert forall|i: int| 0 <= i < head implies processed(ns, cur, visited, depth, max, #[trigger] queue[i] as int) by {
        assert(queue[i] == q0[i]);
        assert(processed(ns, cur, v0, d0, max, q0[i] as int));
        assert(v0[q0[i] as int]);
        lemma_processed_update(ns, cur, v0, d0, max, q0[i] as int, p, (d0[j] + 1) as usize);
    }
    assert forall|a: int, b: int| 0 <= a <= b < queue.len() implies depth[#[trigger] queue[a] as int] <= depth[#[trigger] queue[b] as int] by {
        if b < q0.len() {
            assert(queue[a] == q0[a] && queue[b] == q0[b]);
            assert(v0[q0[a] as int] && v0[q0[b] as int]);
            assert(d0[q0[a] as int] <= d0[q0[b] as int]);
        } else if a < q0.len() {
            assert(v0[q0[a] as int]);
            assert(v0[q0.last() as int]);
            assert(d0[q0[a] as int] <= d0[q0[q0.len() - 1] as int]);
        }
    }
    assert(queue.no_duplicates()) by {
        assert forall|a: int, b: int| 0 <= a < b < queue.len() implies queue[a] != queue[b] by {
            if b == q0.len() {
                assert(v0[q0[a] as int]);
            }
        }
    }
    assert forall|k: int| 0 <= k < ns.len() && #[trigger] visited[k] implies depth[k] <= max && within(ns, f, k, depth[k] as nat) by {
        if k != p {
            assert(v0[k]);
            assert(depth[k] == d0[k]);
        } else {
            assert(depth[k] as nat == d0[j] + 1);
        }
    }
    assert forall|i: int| head <= i < queue.len() implies cur[#[trigger] queue[i] as int] == ns[queue[i] as int] by {
        if i < q0.len() {
            assert(queue[i] == q0[i]);
        }
    }
    assert forall|i: int| 0 <= i < queue.len() implies #[trigger] queue[i] < ns.len() && visited[queue[i] as int] by {
        if i < q0.len() {
            assert(queue[i] == q0[i]);
        }
    }
    assert(v0[q0[q0.len() - 1] as int]);
    assert(queue.last() == p);
}

/// Dequeuing node `j` under depth `max`, once its dependencies are visited and
/// resolved into its parents, keeps the search state.
proof fn lemma_expanded(
    ns: Seq<Node>,
    f: int,
    max: nat,
    before: Seq<Node>,
    cur: Seq<Node>,
    visited: Seq<bool>,
    depth: Seq<usize>,
    queue: Seq<DefaultIx>,
    head: int,
)
    requires
        search_state(ns, f, max, before, visited, depth, queue, head),
        head < queue.len(),
        depth[queue[head] as int] < max,
        first_missing(ns, deps_of(ns[queue[head] as int].body)) is None,
        forall|x: int|
            0 <= x < ns.len() && #[trigger] hop(ns, queue[head] as int, x) ==> visited[x] && depth[x]
                <= depth[queue[head] as int] + 1,
        cur.len() == before.len(),
        forall|k: int| 0 <= k < cur.len() && k != queue[head] ==> #[trigger] cur[k] == before[k],
        cur[queue[head] as int].id == before[queue[head] as int].id,
        cur[queue[head] as int].body == before[queue[head] as int].body,
        cur[queue[head] as int].parents@ == linked_parents(ns, ns[queue[head] as int]),
    ensures
        search_state(ns, f, max, cur, visited, depth, queue, head + 1),
{
    reveal(search_state);
    reveal(processed);
    let j = queue[head] as int;
    assert(processed(ns, cur, visited, depth, max, j));
    assert forall|i: int| 0 <= i < head + 1 implies processed(ns, cur, visited, depth, max, #[trigger] queue[i] as int) by {
        if i < head {
            assert(processed(ns, before, visited, depth, max, queue[i] as int));
            assert(queue[i] != j);
            assert(cur[queue[i] as int] == before[queue[i] as int]);
        }
    }
    assert forall|i: int| head + 1 <= i < queue.len() implies cur[#[trigger] queue[i] as int] == ns[queue[i] as int] by {
        assert(queue[i] != j);
        assert(cur[queue[i] as int] == before[queue[i] as int]);
    }
    assert(visited[j]);
    assert forall|k: int| 0 <= k < ns.len() && !visited[k] implies #[trigger] cur[k] == ns[k] by {
        assert(cur[k] == before[k]);
    }
    assert forall|k: int| 0 <= k < ns.len() implies (#[trigger] cur[k]).id == ns[k].id && cur[k].body == ns[k].body by {
        if k != j {
            assert(cur[k] == before[k]);
        }
    }
}

/// Dequeuing node `j` at depth `max` keeps the search state.
proof fn lemma_leaf(
    ns: Seq<Node>,
    f: int,
    max: nat,
    cur: Seq<Node>,
    visited: Seq<bool>,
    depth: Seq<usize>,
    queue: Seq<DefaultIx>,
    head: int,
)
    requires
        search_state(ns, f, max, cur, visited, depth, queue, head),
        head < queue.len(),
        depth[queue[head] as int] >= max,
    ensures
        search_state(ns, f, max, cur, visited, depth, queue, head + 1),
{
    reveal(search_state);
    reveal(processed);
    assert(processed(ns, cur, visited, depth, max, queue[head] as int));
}

/// The state right before node `queue[head]` is expanded.
proof fn lemma_before_expand(
    ns: Seq<Node>,
    f: int,
    max: nat,
    cur: Seq<Node>,
    visited: Seq<bool>,
    depth: Seq<usize>,
    queue: Seq<DefaultIx>,
    head: int,
)
    requires
        search_state(ns, f, max, cur, visited, depth, queue, head),
        head < queue.len(),
    ensures
        queue[head] < ns.len(),
        visited[queue[head] as int],
        cur[queue[head] as int] == ns[queue[head] as int],
        same_index(cur, ns),
        within(ns, f, queue[head] as int, depth[queue[head] as int] as nat),
        depth[queue[head] as int] <= max,
        queue.len() <= ns.len(),
        cur.len() == ns.len() == visited.len() == depth.len(),
        wf_nodes(ns),
        0 <= f < ns.len(),
        forall|k: int| 0 <= k < ns.len() && #[trigger] visited[k] ==> depth[k] <= depth[queue[head] as int] + 1,
{
    reveal(search_state);
    assert forall|k: int| 0 <= k < ns.len() && #[trigger] visited[k] implies depth[k] <= depth[queue[head] as int] + 1 by {
        let i = choose|i: int| 0 <= i < queue.len() && queue[i] == k;
        assert(depth[queue[i] as int] <= depth[queue[queue.len() - 1] as int]);
    }
}

/// A finished search has visited every node within `max` hops, at its distance.
proof fn lemma_finished(
    ns: Seq<Node>,
    f: int,
    max: nat,
    cur: Seq<Node>,
    visited: Seq<bool>,
    depth: Seq<usize>,
    queue: Seq<DefaultIx>,
)
    requires
        search_state(ns, f, max, cur, visited, depth, queue, queue.len() as int),
    ensures
        forall|k: int, d: nat|
            0 <= k < ns.len() && d <= max && #[trigger] within(ns, f, k, d) ==> visited[k] && depth[k]
                <= d,
        forall|j: int|
            0 <= j < ns.len() && visited[j] && depth[j] < max ==> first_missing(
                ns,
                deps_of(#[trigger] ns[j].body),
            ) is None && cur[j].parents@ == linked_parents(ns, ns[j]),
        forall|j: int|
            0 <= j < ns.len() && visited[j] && depth[j] >= max ==> #[trigger] cur[j] == ns[j],
        forall|k: int|
            0 <= k < ns.len() && #[trigger] visited[k] ==> depth[k] <= max && within(ns, f, k, depth[k] as nat),
        forall|k: int| 0 <= k < ns.len() && #[trigger] visited[k] ==> exists|i: int| 0 <= i < queue.len() && queue[i] == k,
        forall|i: int| 0 <= i < queue.len() ==> #[trigger] queue[i] < ns.len() && visited[queue[i] as int],
        forall|k: int| 0 <= k < ns.len() ==> (#[trigger] cur[k]).id == k && cur[k].body == ns[k].body,
        queue.no_duplicates(),
        queue.len() >= 1,
        queue[0] == f,
        cur.len() == ns.len() == visited.len() == depth.len(),
{
    reveal(search_state);
    reveal(processed);
    assert(visited[queue[0] as int]);
    assert forall|j: int, x: int|
        0 <= j < ns.len() && visited[j] && depth[j] < max && 0 <= x < ns.len() && #[trigger] hop(ns, j, x)
        implies visited[x] && depth[x] <= depth[j] + 1 by {
        let i = choose|i: int| 0 <= i < queue.len() && queue[i] == j;
        assert(processed(ns, cur, visited, depth, max, queue[i] as int));
    }
    assert forall|k: int, d: nat|
        0 <= k < ns.len() && d <= max && #[trigger] within(ns, f, k, d) implies visited[k] && depth[k] <= d by {
        lemma_complete(ns, f, max, visited, depth, k, d);
    }
    assert forall|j: int|
        0 <= j < ns.len() && visited[j] && depth[j] < max implies first_missing(ns, deps_of(#[trigger] ns[j].body)) is None
            && cur[j].parents@ == linked_parents(ns, ns[j]) by {
        let i = choose|i: int| 0 <= i < queue.len() && queue[i] == j;
        assert(processed(ns, cur, visited, depth, max, queue[i] as int));
    }
    assert forall|j: int| 0 <= j < ns.len() && visited[j] && depth[j] >= max implies #[trigger] cur[j] == ns[j] by {
        let i = choose|i: int| 0 <= i < queue.len() && queue[i] == j;
        assert(processed(ns, cur, visited, depth, max, queue[i] as int));
    }
}

/// Node set `out` is the neighbourhood of `f` in `ns` up to `max` hops.
pub open spec fn neighborhood_of(ns: Seq<Node>, f: int, max: nat, out: Seq<Node>) -> bool {
    &&& out.len() >= 1
    &&& out[0].id == f
    &&& forall|a: int, b: int| 0 <= a < b < out.len() ==> (#[trigger] out[a]).id != (#[trigger] out[b]).id
    &&& forall|i: int|
        0 <= i < out.len() ==> {
            let k = (#[trigger] out[i]).id as int;
            &&& k < ns.len()
            &&& out[i].body == ns[k].body
            &&& out[i].parents@ == if expanded(ns, f, k, max) {
                linked_parents(ns, ns[k])
            } else {
                ns[k].parents@
            }
        }
    &&& forall|k: int|
        0 <= k < ns.len() ==> (within(ns, f, k, max) <==> exists|i: int|
            0 <= i < out.len() && (#[trigger] out[i]).id == k)
}

/// Bounded mode: the nodes at most `max_depth` dependency hops from `focal`,
/// found breadth-first and each visited once, in the order found (the focal
/// node first). A node under `max_depth` hops away has its dependencies
/// resolved into parents; the search fails on a reference of such a node that
/// names no node.
pub fn neighborhood(all_nodes: Vec<Node>, focal: DefaultIx, max_depth: usize) -> (r: Result<
    Vec<Node>,
    GraphError,
>)
    requires
        wf_nodes(all_nodes@),
        focal < all_nodes@.len(),
    ensures
        r is Err <==> exists|j: int|
            0 <= j < all_nodes@.len() && expanded(all_nodes@, focal as int, j, max_depth as nat)
                && first_missing(all_nodes@, deps_of(#[trigger] all_nodes@[j].body)) is Some,
        r matches Err(e) ==> exists|j: int|
            0 <= j < all_nodes@.len() && expanded(all_nodes@, focal as int, j, max_depth as nat)
                && e@ == Failure::UnresolvedDependency(
                (#[trigger] all_nodes@[j]).body.title@,
                first_missing(all_nodes@, deps_of(all_nodes@[j].body)).unwrap(),
            ) && first_missing(all_nodes@, deps_of(all_nodes@[j].body)) is Some,
        r matches Ok(out) ==> neighborhood_of(all_nodes@, focal as int, max_depth as nat, out@),
{
    let ghost ns = all_nodes@;
    let ghost f = focal as int;
    let ghost max = max_depth as nat;
    let mut nodes = all_nodes;
    let n = nodes.len();
    let mut visited: Vec<bool> = Vec::new();
    let mut depth: Vec<usize> = Vec::new();
    let mut i: usize = 0;
    while i < n
        invariant
            i <= n,
            visited@.len() == i,
            depth@.len() == i,
            forall|k: int| 0 <= k < i ==> !visited@[k] && depth@[k] == 0,
        decreases n - i,
    {
        visited.push(false);
        depth.push(0);
        i = i + 1;
    }
    proof {
        lemma_marked_none(visited@);
        lemma_marked_set(visited@, f);
        lemma_within_self(ns, f, 0);
    }
    visited.set(focal, true);
    let mut queue: Vec<DefaultIx> = Vec::new();
    queue.push(focal);
    let mut head: usize = 0;
    assert(search_state(ns, f, max, nodes@, visited@, depth@, queue@, 0)) by {
        reveal(search_state);
        assert(nodes@ =~= ns);
        assert forall|k: int| 0 <= k < ns.len() && #[trigger] visited@[k] implies exists|i: int|
            0 <= i < queue@.len() && queue@[i] == k by {
            assert(queue@[0] == k);
        }
        assert(queue@.no_duplicates());
    }
    while head < queue.len()
        invariant
            search_state(ns, f, max, nodes@, visited@, depth@, queue@, head as int),
            n == ns.len(),
            ns == all_nodes@,
            head <= queue@.len(),
            f == focal,
            max == max_depth,
        decreases n - head,
    {
        let j = queue[head];
        proof {
            lemma_before_expand(ns, f, max, nodes@, visited@, depth@, queue@, head as int);
        }
        if depth[j] < max_depth {
            proof {
                lemma_same_index(nodes@, ns, deps_of(ns[j as int].body));
            }
            match link_deps(&nodes, j) {
                Err(e) => {
                    proof {
                        lemma_within_mono(ns, f, j as int, depth@[j as int] as nat, (max - 1) as nat);
                        assert(expanded(ns, f, j as int, max));
                        assert(first_missing(ns, deps_of(ns[j as int].body)) is Some);
                        assert(e@ == Failure::UnresolvedDependency(
                            ns[j as int].body.title@,
                            first_missing(ns, deps_of(ns[j as int].body)).unwrap(),
                        ));
                    }
                    return Err(e);
                },
                Ok(ps) => {
                    let dj = depth[j];
                    let mut t: usize = 0;
                    while t < ps.len()
                        invariant
                            search_state(ns, f, max, nodes@, visited@, depth@, queue@, head as int),
                            n == ns.len(),
                            wf_nodes(ns),
                            visited@.len() == n,
                            depth@.len() == n,
                            visited@[j as int],
                            forall|k: int| 0 <= k < n && #[trigger] visited@[k] ==> depth@[k] <= dj + 1,
                            max == max_depth,
                            head < queue@.len(),
                            j == queue@[head as int],
                            0 <= j < n,
                            dj == depth@[j as int],
                            dj < max,
                            first_missing(ns, deps_of(ns[j as int].body)) is None,
                            ps@ == linked_parents(ns, ns[j as int]),
                            t <= ps@.len(),
                            forall|s: int| 0 <= s < t ==> visited@[#[trigger] ps@[s] as int] && depth@[ps@[s] as int] <= dj + 1,
                        decreases ps@.len() - t,
                    {
                        let p = ps[t];
                        proof {
                            assert(ps@.contains(p));
                            lemma_linked_bound(ns, j as int, p);
                        }
                        let ghost old_v = visited@;
                        let ghost old_d = depth@;
                        if !visited[p] {
                            proof {
                                assert(hop(ns, j as int, p as int));
                                lemma_enqueue(ns, f, max, nodes@, visited@, depth@, queue@, head as int, p as int);
                            }
                            visited.set(p, true);
                            depth.set(p, dj + 1);
                            queue.push(p);
                        }
                        assert(visited@[p as int] && depth@[p as int] <= dj + 1);
                        assert forall|s: int| 0 <= s < t + 1 implies visited@[#[trigger] ps@[s] as int] && depth@[ps@[s] as int] <= dj + 1 by {
                            if s == t {
                                assert(ps@[s] == p);
                            } else {
                                assert(old_v[ps@[s] as int] && old_d[ps@[s] as int] <= dj + 1);
                                assert(ps@.contains(ps@[s]));
                                lemma_linked_bound(ns, j as int, ps@[s]);
                                if ps@[s] != p {
                                    assert(depth@[ps@[s] as int] == old_d[ps@[s] as int]);
                                    assert(visited@[ps@[s] as int]);
                                }
                            }
                        }
                        t = t + 1;
                    }
                    let ghost before = nodes@;
                    nodes[j].parents = ps;
                    proof {
                        assert forall|x: int| 0 <= x < ns.len() && #[trigger] hop(ns, j as int, x) implies visited@[x] && depth@[x] <= depth@[j as int] + 1 by {
                            let s = choose|s: int| 0 <= s < ps@.len() && ps@[s] == x as DefaultIx;
                            assert(visited@[ps@[s] as int]);
                        }
                        lemma_expanded(ns, f, max, before, nodes@, visited@, depth@, queue@, head as int);
                    }
                },
            }
        } else {
            proof {
                lemma_leaf(ns, f, max, nodes@, visited@, depth@, queue@, head as int);
            }
        }
        head = head + 1;
    }
    proof {
        lemma_finished(ns, f, max, nodes@, visited@, depth@, queue@);
    }
    let ghost fin = nodes@;
    let mut out: Vec<Node> = Vec::new();
    let mut s: usize = 0;
    while s < queue.len()
        invariant
            queue@.no_duplicates(),
            forall|i: int| 0 <= i < queue@.len() ==> #[trigger] queue@[i] < ns.len(),
            nodes@.len() == ns.len() == fin.len(),
            s <= queue@.len(),
            out@.len() == s,
            forall|i: int| 0 <= i < s ==> (#[trigger] out@[i]) == fin[queue@[i] as int],
            forall|i: int| s <= i < queue@.len() ==> nodes@[#[trigger] queue@[i] as int] == fin[queue@[i] as int],
        decreases queue@.len() - s,
    {
        let q = queue[s];
        let mut taken = Node { id: 0, body: MetaData::blank(), parents: Vec::new() };
        let ghost before = nodes@;
        std::mem::swap(&mut nodes[q], &mut taken);
        out.push(taken);
        assert forall|i: int| s + 1 <= i < queue@.len() implies nodes@[#[trigger] queue@[i] as int] == fin[queue@[i] as int] by {
            assert(queue@[i] != q);
            assert(before[queue@[i] as int] == fin[queue@[i] as int]);
        }
        s = s + 1;
    }
    proof {
        lemma_outcome(ns, f, max, fin, visited@, depth@, queue@, out@);
    }
    Ok(out)
}

/// What a finished search hands back meets the contract of `neighborhood`.
proof fn lemma_outcome(
    ns: Seq<Node>,
    f: int,
    max: nat,
    fin: Seq<Node>,
    visited: Seq<bool>,
    depth: Seq<usize>,
    queue: Seq<DefaultIx>,
    out: Seq<Node>,
)
    requires
        search_state(ns, f, max, fin, visited, depth, queue, queue.len() as int),
        out.len() == queue.len(),
        forall|i: int| 0 <= i < out.len() ==> (#[trigger] out[i]) == fin[queue[i] as int],
    ensures
        neighborhood_of(ns, f, max, out),
        forall|j: int|
            0 <= j < ns.len() && expanded(ns, f, j, max) ==> first_missing(ns, deps_of(#[trigger] ns[j].body)) is None,
{
    lemma_finished(ns, f, max, fin, visited, depth, queue);
    assert(out[0] == fin[f]);
    assert forall|i: int| 0 <= i < out.len() implies {
        let k = (#[trigger] out[i]).id as int;
        &&& k < ns.len()
        &&& out[i].body == ns[k].body
        &&& out[i].parents@ == if expanded(ns, f, k, max) {
            linked_parents(ns, ns[k])
        } else {
            ns[k].parents@
        }
    } by {
        let k = queue[i] as int;
        assert(visited[k]);
        assert(fin[k].id == k);
        if expanded(ns, f, k, max) {
            assert(within(ns, f, k, (max - 1) as nat));
        } else if depth[k] < max {
            lemma_within_mono(ns, f, k, depth[k] as nat, (max - 1) as nat);
        } else {
            assert(fin[k] == ns[k]);
        }
    }
    assert forall|k: int| 0 <= k < ns.len() implies (within(ns, f, k, max) <==> exists|i: int|
        0 <= i < out.len() && (#[trigger] out[i]).id == k) by {
        if within(ns, f, k, max) {
            assert(visited[k]);
            let i = choose|i: int| 0 <= i < queue.len() && queue[i] == k;
            assert(fin[k].id == k);
            assert(out[i].id == k);
        }
        if exists|i: int| 0 <= i < out.len() && (#[trigger] out[i]).id == k {
            let i = choose|i: int| 0 <= i < out.len() && (#[trigger] out[i]).id == k;
            assert(fin[queue[i] as int].id == queue[i]);
            assert(queue[i] == k);
            assert(visited[k]);
            lemma_within_mono(ns, f, k, depth[k] as nat, max);
        }
    }
    assert forall|a: int, b: int| 0 <= a < b < out.len() implies (#[trigger] out[a]).id != (#[trigger] out[b]).id by {
        assert(queue[a] != queue[b]);
        assert(fin[queue[a] as int].id == queue[a]);
        assert(fin[queue[b] as int].id == queue[b]);
    }
    assert forall|j: int|
        0 <= j < ns.len() && expanded(ns, f, j, max) implies first_missing(ns, deps_of(#[trigger] ns[j].body)) is None by {
        assert(within(ns, f, j, (max - 1) as nat));
        assert(visited[j]);
    }
}


/// A neighbourhood of a fresh node set has no dangling edge: every parent of
/// an output node is itself an output node.
pub proof fn lemma_no_dangling(ns: Seq<Node>, f: int, max: nat, out: Seq<Node>)
    requires
        wf_nodes(ns),
        forall|k: int| 0 <= k < ns.len() ==> (#[trigger] ns[k]).parents@.len() == 0,
        forall|j: int|
            0 <= j < ns.len() && expanded(ns, f, j, max) ==> first_missing(ns, deps_of(#[trigger] ns[j].body)) is None,
        neighborhood_of(ns, f, max, out),
    ensures
        forall|i: int, s: int|
            0 <= i < out.len() && 0 <= s < out[i].parents@.len() ==> exists|i2: int|
                0 <= i2 < out.len() && (#[trigger] out[i2]).id == #[trigger] out[i].parents@[s],
{
    assert forall|i: int, s: int| 0 <= i < out.len() && 0 <= s < out[i].parents@.len() implies exists|i2: int|
        0 <= i2 < out.len() && (#[trigger] out[i2]).id == #[trigger] out[i].parents@[s] by {
        let k = out[i].id as int;
        let p = out[i].parents@[s];
        assert(ns[k].parents@.len() == 0);
        assert(expanded(ns, f, k, max));
        assert(linked_parents(ns, ns[k]).contains(p));
        lemma_linked_bound(ns, k, p);
        assert(hop(ns, k, p as int));
        lemma_within_step(ns, f, k, p as int, (max - 1) as nat);
        assert(within(ns, f, p as int, max));
    }
}

} // verus!
