use vstd::prelude::*;

use crate::node::{first_index, lemma_first_index, position_of, strs, tags_of, titles, Failure};
use crate::{GraphError, MetaData, Node};

verus! {

/// A record with tags `tags` passes `filter` when the filter is empty or shares a tag.
pub open spec fn passes_filter(filter: Seq<Seq<char>>, tags: Seq<Seq<char>>) -> bool {
    filter.len() == 0 || exists|t: Seq<char>| filter.contains(t) && tags.contains(t)
}

/// Whether `m` goes through the ordinary (non-focal) admission path and is kept.
pub open spec fn keeps(m: MetaData, filter: Seq<Seq<char>>, focal: Option<Seq<char>>) -> bool {
    focal != Some(m.title@) && passes_filter(filter, tags_of(m))
}

/// The records kept by the filter, focal record aside, in their order.
pub open spec fn retained(recs: Seq<MetaData>, filter: Seq<Seq<char>>, focal: Option<Seq<char>>) -> Seq<
    MetaData,
>
    decreases recs.len(),
{
    if recs.len() == 0 {
        Seq::empty()
    } else {
        let before = retained(recs.drop_last(), filter, focal);
        if keeps(recs.last(), filter, focal) {
            before.push(recs.last())
        } else {
            before
        }
    }
}

/// The titles of a sequence of records.
pub open spec fn record_titles(recs: Seq<MetaData>) -> Seq<Seq<char>> {
    recs.map_values(|m: MetaData| m.title@)
}

/// How many records carry title `t`.
pub open spec fn title_count(recs: Seq<MetaData>, t: Seq<char>) -> nat
    decreases recs.len(),
{
    if recs.len() == 0 {
        0
    } else {
        title_count(recs.drop_last(), t) + if recs.last().title@ == t {
            1nat
        } else {
            0nat
        }
    }
}

/// The first element of `ts` that repeats an earlier one.
pub open spec fn first_repeat(ts: Seq<Seq<char>>) -> Option<Seq<char>>
    decreases ts.len(),
{
    if ts.len() == 0 {
        None
    } else {
        match first_repeat(ts.drop_last()) {
            Some(t) => Some(t),
            None => if ts.drop_last().contains(ts.last()) {
                Some(ts.last())
            } else {
                None
            },
        }
    }
}

/// The records admitted, in id order, or the failure of admission.
pub open spec fn admission(recs: Seq<MetaData>, filter: Seq<Seq<char>>, focal: Option<Seq<char>>) -> Result<
    Seq<MetaData>,
    Failure,
> {
    let order: Result<Seq<MetaData>, Failure> = match focal {
        None => Ok(retained(recs, filter, focal)),
        Some(f) => if title_count(recs, f) == 0 {
            Err(Failure::FocalNodeNotFound(f))
        } else if title_count(recs, f) >= 2 {
            Err(Failure::DuplicateTitle(f))
        } else {
            Ok(seq![recs[first_index(record_titles(recs), f).unwrap()]] + retained(recs, filter, focal))
        },
    };
    match order {
        Err(e) => Err(e),
        Ok(o) => match first_repeat(record_titles(o)) {
            Some(t) => Err(Failure::DuplicateTitle(t)),
            None => Ok(o),
        },
    }
}

/// The title a focal request names.
pub open spec fn focal_view(focal: Option<String>) -> Option<Seq<char>> {
    match focal {
        Some(f) => Some(f@),
        None => None,
    }
}

/// Node set `ns` holds `order` under ids `0..`, with no edges yet.
pub open spec fn fresh_nodes(ns: Seq<Node>, order: Seq<MetaData>) -> bool {
    &&& ns.len() == order.len()
    &&& forall|k: int|
        0 <= k < ns.len() ==> (#[trigger] ns[k]).id == k && ns[k].body == order[k]
            && ns[k].parents@.len() == 0
}

/// Whether `tags` passes `filter`.
pub fn tag_match(filter: &Vec<String>, tags: &Vec<String>) -> (r: bool)
    ensures
        r == passes_filter(strs(filter@), strs(tags@)),
{
    if filter.len() == 0 {
        return true;
    }
    let mut i: usize = 0;
    while i < filter.len()
        invariant
            i <= filter@.len(),
            forall|k: int| 0 <= k < i ==> !strs(tags@).contains(#[trigger] strs(filter@)[k]),
        decreases filter@.len() - i,
    {
        let mut j: usize = 0;
        while j < tags.len()
            invariant
                i < filter@.len(),
                j <= tags@.len(),
                forall|k: int| 0 <= k < j ==> strs(tags@)[k] != strs(filter@)[i as int],
            decreases tags@.len() - j,
        {
            if filter[i] == tags[j] {
                assert(strs(filter@).contains(strs(filter@)[i as int]));
                assert(strs(tags@)[j as int] == strs(filter@)[i as int]);
                assert(strs(tags@).contains(strs(filter@)[i as int]));
                return true;
            }
            j = j + 1;
        }
        i = i + 1;
    }
    assert forall|t: Seq<char>| strs(filter@).contains(t) implies !strs(tags@).contains(t) by {
        let k = choose|k: int| 0 <= k < strs(filter@).len() && strs(filter@)[k] == t;
        assert(!strs(tags@).contains(strs(filter@)[k]));
    }
    false
}

/// Unrolls `first_repeat` and `retained` by one record.
proof fn lemma_take_step(recs: Seq<MetaData>, filter: Seq<Seq<char>>, focal: Option<Seq<char>>, i: int)
    requires
        0 <= i < recs.len(),
    ensures
        retained(recs.take(i + 1), filter, focal) == if keeps(recs[i], filter, focal) {
            retained(recs.take(i), filter, focal).push(recs[i])
        } else {
            retained(recs.take(i), filter, focal)
        },
        title_count(recs.take(i + 1), recs[i].title@) == title_count(recs.take(i), recs[i].title@) + 1,
        forall|t: Seq<char>| t != recs[i].title@ ==> title_count(recs.take(i + 1), t) == title_count(recs.take(i), t),
{
    assert(recs.take(i + 1).drop_last() =~= recs.take(i));
}

/// `retained` of a prefix is a prefix of `retained`.
proof fn lemma_retained_prefix(recs: Seq<MetaData>, filter: Seq<Seq<char>>, focal: Option<Seq<char>>, i: int)
    requires
        0 <= i <= recs.len(),
    ensures
        retained(recs.take(i), filter, focal).len() <= retained(recs, filter, focal).len(),
        retained(recs, filter, focal).take(retained(recs.take(i), filter, focal).len() as int)
            == retained(recs.take(i), filter, focal),
    decreases recs.len() - i,
{
    let part = retained(recs.take(i), filter, focal);
    if i < recs.len() {
        lemma_take_step(recs, filter, focal, i);
        lemma_retained_prefix(recs, filter, focal, i + 1);
        let next = retained(recs.take(i + 1), filter, focal);
        let whole = retained(recs, filter, focal);
        assert(next.take(part.len() as int) =~= part);
        assert(whole.take(part.len() as int) =~= next.take(part.len() as int));
    } else {
        assert(recs.take(i) =~= recs);
        assert(part.take(part.len() as int) =~= part);
    }
}

/// A repeat found in a prefix is the first repeat of the whole sequence.
proof fn lemma_first_repeat_prefix(ts: Seq<Seq<char>>, k: int)
    requires
        0 <= k <= ts.len(),
        first_repeat(ts.take(k)) is Some,
    ensures
        first_repeat(ts) == first_repeat(ts.take(k)),
    decreases ts.len() - k,
{
    if k < ts.len() {
        assert(ts.take(k + 1).drop_last() =~= ts.take(k));
        lemma_first_repeat_prefix(ts, k + 1);
    } else {
        assert(ts.take(k) =~= ts);
    }
}

/// Admits `records` as a node set: the focal record (if any) first, then every
/// other record that passes `filter`, in order, each under the next id.
pub fn resolve(records: Vec<MetaData>, filter: &Vec<String>, focal: &Option<String>) -> (r: Result<
    Vec<Node>,
    GraphError,
>)
    ensures
        match admission(records@, strs(filter@), focal_view(*focal)) {
            Ok(order) => r matches Ok(ns) && fresh_nodes(ns@, order),
            Err(e) => r matches Err(x) && x@ == e,
        },
{
    let ghost orig = records@;
    let ghost fv = focal_view(*focal);
    let ghost flt = strs(filter@);
    let mut recs = records;
    let mut nodes: Vec<Node> = Vec::new();
    let n = recs.len();
    // position of the focal record, or `n` when none is asked for
    let mut focal_at: usize = n;
    if let Some(f) = focal {
        let mut count: usize = 0;
        let mut i: usize = 0;
        while i < n
            invariant
                n == recs@.len(),
                recs@ == orig,
                i <= n,
                count <= 2,
                count == 0 ==> focal_at == n,
                count > 0 ==> focal_at < i && first_index(record_titles(orig.take(i as int)), f@)
                    == Some(focal_at as int),
                count < 2 ==> count == title_count(orig.take(i as int), f@),
                count == 2 ==> title_count(orig.take(i as int), f@) >= 2,
                count == 0 ==> first_index(record_titles(orig.take(i as int)), f@) is None,
            decreases n - i,
        {
            proof {
                lemma_take_step(orig, flt, fv, i as int);
                assert(record_titles(orig.take(i + 1)).drop_last() =~= record_titles(orig.take(i as int)));
            }
            if recs[i].title == *f {
                if count == 0 {
                    focal_at = i;
                }
                if count < 2 {
                    count = count + 1;
                }
            }
            i = i + 1;
        }
        assert(orig.take(n as int) =~= orig);
        if count == 0 {
            return Err(GraphError::FocalNodeNotFound(f.clone()));
        }
        if count == 2 {
            return Err(GraphError::DuplicateTitle(f.clone()));
        }
        let mut taken = MetaData {
            title: String::new(),
            date: String::new(),
            description: String::new(),
            dependencies: Vec::new(),
            tags: Vec::new(),
        };
        std::mem::swap(&mut recs[focal_at], &mut taken);
        proof {
            lemma_first_index(record_titles(orig), f@);
            assert(record_titles(orig)[focal_at as int] == orig[focal_at as int].title@);
        }
        Node::from(taken).add_to_map(&mut nodes);
    }
    let ghost head = nodes@.map_values(|nd: Node| nd.body);
    assert(fv matches Some(f) ==> head =~= seq![orig[focal_at as int]]);
    assert(first_repeat(record_titles(head)) is None) by {
        reveal_with_fuel(first_repeat, 2);
        if head.len() == 1 {
            assert(record_titles(head).drop_last() =~= Seq::<Seq<char>>::empty());
        }
    }
    assert(head + retained(orig.take(0), flt, fv) =~= head);
    let mut i: usize = 0;
    while i < n
        invariant
            n == recs@.len() == orig.len(),
            i <= n,
            focal_at <= n,
            fv is None ==> focal_at == n && head.len() == 0,
            fv matches Some(f) ==> focal_at < n && orig[focal_at as int].title@ == f && head.len() == 1,
            fv matches Some(f) ==> title_count(orig, f) == 1 && first_index(record_titles(orig), f)
                == Some(focal_at as int) && head == seq![orig[focal_at as int]],
            forall|k: int| i <= k < n && k != focal_at ==> recs@[k] == orig[k],
            fresh_nodes(nodes@, head + retained(orig.take(i as int), flt, fv)),
            first_repeat(record_titles(head + retained(orig.take(i as int), flt, fv))) is None,
            flt == strs(filter@),
            fv == focal_view(*focal),
            orig == records@,
        decreases n - i,
    {
        let ghost before = head + retained(orig.take(i as int), flt, fv);
        proof {
            lemma_take_step(orig, flt, fv, i as int);
        }
        let keep = if i == focal_at {
            false
        } else {
            match focal {
                Some(f) if recs[i].title == *f => false,
                _ => tag_match(filter, &recs[i].tags),
            }
        };
        assert(keep == keeps(orig[i as int], flt, fv));
        if keep {
            let mut taken = MetaData {
                title: String::new(),
                date: String::new(),
                description: String::new(),
                dependencies: Vec::new(),
                tags: Vec::new(),
            };
            std::mem::swap(&mut recs[i], &mut taken);
            let ghost after = before.push(taken);
            let ghost old_nodes = nodes@;
            assert(head + retained(orig.take(i + 1), flt, fv) =~= after);
            assert(titles(nodes@) =~= record_titles(before));
            assert(record_titles(after).drop_last() =~= record_titles(before));
            match position_of(&nodes, &taken.title) {
                Some(_) => {
                    proof {
                        lemma_first_index(titles(nodes@), taken.title@);
                        let j = first_index(titles(nodes@), taken.title@).unwrap();
                        assert(record_titles(before)[j] == taken.title@);
                        assert(record_titles(after).last() == taken.title@);
                        assert(first_repeat(record_titles(after)) == Some(taken.title@));
                        let whole = head + retained(orig, flt, fv);
                        lemma_retained_prefix(orig, flt, fv, i + 1);
                        assert(orig.take(n as int) =~= orig);
                        assert(whole.take(after.len() as int) =~= after);
                        assert(record_titles(whole).take(after.len() as int) =~= record_titles(after));
                        lemma_first_repeat_prefix(record_titles(whole), after.len() as int);
                        assert(admission(orig, flt, fv) == Err::<Seq<MetaData>, Failure>(
                            Failure::DuplicateTitle(taken.title@)));
                    }
                    let e = GraphError::DuplicateTitle(taken.title);
                    return Err(e);
                },
                None => {
                    proof {
                        lemma_first_index(titles(nodes@), taken.title@);
                    }
                    Node::from(taken).add_to_map(&mut nodes);
                    assert forall|k: int| 0 <= k < nodes@.len() implies (#[trigger] nodes@[k]).id == k
                        && nodes@[k].body == after[k] && nodes@[k].parents@.len() == 0 by {
                        if k < before.len() {
                            assert(nodes@[k] == old_nodes[k]);
                        }
                    }
                },
            }
        }
        i = i + 1;
    }
    assert(orig.take(n as int) =~= orig);
    assert(admission(orig, flt, fv) == Ok::<Seq<MetaData>, Failure>(head + retained(orig, flt, fv)));
    Ok(nodes)
}


/// A sequence without a repeat has no duplicates.
proof fn lemma_no_repeat(ts: Seq<Seq<char>>)
    requires
        first_repeat(ts) is None,
    ensures
        ts.no_duplicates(),
    decreases ts.len(),
{
    if ts.len() > 0 {
        let init = ts.drop_last();
        lemma_no_repeat(init);
        assert forall|a: int, b: int| 0 <= a < b < ts.len() implies ts[a] != ts[b] by {
            if b == ts.len() - 1 {
                assert(init[a] == ts[a]);
                if ts[a] == ts[b] {
                    assert(init.contains(ts.last()));
                }
            } else {
                assert(init[a] == ts[a] && init[b] == ts[b]);
            }
        }
    }
}

/// Admission drops no admitted title and repeats none: the admitted records
/// carry pairwise distinct titles, so there are as many distinct titles as nodes.
pub proof fn lemma_titles_distinct(recs: Seq<MetaData>, filter: Seq<Seq<char>>, focal: Option<Seq<char>>)
    requires
        admission(recs, filter, focal) is Ok,
    ensures
        ({
            let order = admission(recs, filter, focal)->Ok_0;
            &&& record_titles(order).no_duplicates()
            &&& record_titles(order).to_set().len() == order.len()
        }),
{
    let order = admission(recs, filter, focal)->Ok_0;
    lemma_no_repeat(record_titles(order));
    record_titles(order).unique_seq_to_set();
}

/// A record kept before position `k` lends its title to `retained` of the first `k` records.
proof fn lemma_retained_has(recs: Seq<MetaData>, filter: Seq<Seq<char>>, focal: Option<Seq<char>>, i: int, k: int)
    requires
        0 <= i < k <= recs.len(),
        keeps(recs[i], filter, focal),
    ensures
        record_titles(retained(recs.take(k), filter, focal)).contains(recs[i].title@),
    decreases k,
{
    lemma_take_step(recs, filter, focal, k - 1);
    let before = retained(recs.take(k - 1), filter, focal);
    let now = retained(recs.take(k), filter, focal);
    if i == k - 1 {
        assert(record_titles(now)[now.len() - 1] == recs[i].title@);
    } else {
        lemma_retained_has(recs, filter, focal, i, k - 1);
        let p = choose|p: int| 0 <= p < record_titles(before).len() && record_titles(before)[p] == recs[i].title@;
        assert(record_titles(now)[p] == recs[i].title@);
    }
}

/// Two records with one title, both admitted on their own, make admission
/// fail with `DuplicateTitle`, whatever their other fields; so does a focal
/// title that two records carry.
pub proof fn lemma_shared_title_rejected(
    recs: Seq<MetaData>,
    filter: Seq<Seq<char>>,
    focal: Option<Seq<char>>,
    i: int,
    j: int,
)
    requires
        0 <= i < recs.len(),
        0 <= j < recs.len(),
        i != j,
        recs[i].title@ == recs[j].title@,
    ensures
        focal is None && passes_filter(filter, tags_of(recs[i])) && passes_filter(filter, tags_of(recs[j]))
            ==> admission(recs, filter, focal) matches Err(Failure::DuplicateTitle(_)),
        focal == Some(recs[i].title@) ==> admission(recs, filter, focal) == Err::<Seq<MetaData>, Failure>(
            Failure::DuplicateTitle(recs[i].title@),
        ),
{
    let (a, b) = if i < j {
        (i, j)
    } else {
        (j, i)
    };
    if focal is None && passes_filter(filter, tags_of(recs[i])) && passes_filter(filter, tags_of(recs[j])) {
        lemma_retained_has(recs, filter, focal, a, b);
        lemma_take_step(recs, filter, focal, b);
        let before = retained(recs.take(b), filter, focal);
        let now = retained(recs.take(b + 1), filter, focal);
        assert(now == before.push(recs[b]));
        assert(record_titles(now).drop_last() =~= record_titles(before));
        assert(first_repeat(record_titles(now)) is Some);
        lemma_retained_prefix(recs, filter, focal, b + 1);
        let whole = retained(recs, filter, focal);
        assert(record_titles(whole).take(now.len() as int) =~= record_titles(now));
        lemma_first_repeat_prefix(record_titles(whole), now.len() as int);
    }
    if focal == Some(recs[i].title@) {
        lemma_count_two(recs, recs[i].title@, a, b, recs.len() as int);
        assert(recs.take(recs.len() as int) =~= recs);
    }
}

/// Two positions with title `t` make its count at least two.
proof fn lemma_count_two(recs: Seq<MetaData>, t: Seq<char>, a: int, b: int, k: int)
    requires
        0 <= a < b < k <= recs.len(),
        recs[a].title@ == t,
        recs[b].title@ == t,
    ensures
        title_count(recs.take(k), t) >= 2,
    decreases k,
{
    assert(recs.take(k).drop_last() =~= recs.take(k - 1));
    if b < k - 1 {
        lemma_count_two(recs, t, a, b, k - 1);
    } else {
        lemma_count_one(recs, t, a, k - 1);
    }
    if k == recs.len() {
        assert(recs.take(k) =~= recs);
    }
}

proof fn lemma_count_one(recs: Seq<MetaData>, t: Seq<char>, a: int, k: int)
    requires
        0 <= a < k <= recs.len(),
        recs[a].title@ == t,
    ensures
        title_count(recs.take(k), t) >= 1,
    decreases k,
{
    assert(recs.take(k).drop_last() =~= recs.take(k - 1));
    if a < k - 1 {
        lemma_count_one(recs, t, a, k - 1);
    }
}

/// With no focal title, a record is retained exactly when its tags pass the
/// filter; with an empty filter, every record is retained, in order.
pub proof fn lemma_filter_exact(recs: Seq<MetaData>, filter: Seq<Seq<char>>)
    ensures
        forall|m: MetaData|
            retained(recs, filter, None).contains(m) <==> recs.contains(m) && passes_filter(filter, tags_of(m)),
        filter.len() == 0 ==> retained(recs, filter, None) == recs,
    decreases recs.len(),
{
    if recs.len() > 0 {
        let init = recs.drop_last();
        lemma_filter_exact(init, filter);
        let before = retained(init, filter, None);
        let now = retained(recs, filter, None);
        assert forall|m: MetaData| now.contains(m) <==> recs.contains(m) && passes_filter(filter, tags_of(m)) by {
            if now.contains(m) {
                let p = choose|p: int| 0 <= p < now.len() && now[p] == m;
                if p < before.len() {
                    assert(before[p] == m);
                    assert(before.contains(m));
                    assert(init.contains(m));
                    let q = choose|q: int| 0 <= q < init.len() && init[q] == m;
                    assert(recs[q] == m);
                } else {
                    assert(recs[recs.len() - 1] == m);
                }
            }
            if recs.contains(m) && passes_filter(filter, tags_of(m)) {
                let q = choose|q: int| 0 <= q < recs.len() && recs[q] == m;
                if q < recs.len() - 1 {
                    assert(init[q] == m);
                    assert(init.contains(m));
                    assert(before.contains(m));
                    let p = choose|p: int| 0 <= p < before.len() && before[p] == m;
                    if keeps(recs.last(), filter, None) {
                        assert(now[p] == m);
                    }
                } else {
                    assert(now[now.len() - 1] == m);
                }
            }
        }
        if filter.len() == 0 {
            assert(now =~= recs);
        }
    } else {
        assert(recs.len() == 0);
    }
}

/// When a focal title is given and admission succeeds, the focal record comes
/// first, so it is the node with id 0, wherever it stood among the records.
pub proof fn lemma_focal_first(recs: Seq<MetaData>, filter: Seq<Seq<char>>, f: Seq<char>)
    requires
        admission(recs, filter, Some(f)) is Ok,
    ensures
        admission(recs, filter, Some(f))->Ok_0.len() >= 1,
        admission(recs, filter, Some(f))->Ok_0[0].title@ == f,
{
    lemma_first_index(record_titles(recs), f);
    if first_index(record_titles(recs), f) is None {
        lemma_count_zero(recs, f);
    }
}

/// A title that no record carries has count zero.
proof fn lemma_count_zero(recs: Seq<MetaData>, t: Seq<char>)
    requires
        !record_titles(recs).contains(t),
    ensures
        title_count(recs, t) == 0,
    decreases recs.len(),
{
    if recs.len() > 0 {
        assert forall|p: int| 0 <= p < recs.len() - 1 implies record_titles(recs.drop_last())[p] != t by {
            assert(record_titles(recs)[p] == t ==> record_titles(recs).contains(t));
        }
        lemma_count_zero(recs.drop_last(), t);
        assert(record_titles(recs)[recs.len() - 1] == recs.last().title@);
    }
}

} // verus!
