use vstd::prelude::*;

use crate::DefaultIx;

verus! {

/// The metadata block of one document.
#[derive(Debug)]
pub struct MetaData {
    pub title: String,
    pub date: String,
    pub description: String,
    /// Titles of the documents this one depends on; read as a set.
    pub dependencies: Vec<String>,
    /// Tags of the document; read as a set.
    pub tags: Vec<String>,
}

/// A document admitted into the working graph.
#[derive(Debug)]
pub struct Node {
    pub id: DefaultIx,
    pub body: MetaData,
    /// Ids of the nodes this one depends on (edges `p -> id`); read as a set.
    pub parents: Vec<DefaultIx>,
}

/// The fatal failures of a run.
#[derive(Debug, PartialEq, Eq)]
pub enum GraphError {
    /// Two admitted records carry this title.
    DuplicateTitle(String),
    /// No record carries the requested focal title.
    FocalNodeNotFound(String),
    /// The record titled `.0` depends on `.1`, which no admitted record carries.
    UnresolvedDependency(String, String),
    /// A metadata block (from source `.0`) could not be decoded (cause `.1`).
    MalformedMetadata(String, String),
}

/// The mathematical value of a [`GraphError`].
pub enum Failure {
    DuplicateTitle(Seq<char>),
    FocalNodeNotFound(Seq<char>),
    UnresolvedDependency(Seq<char>, Seq<char>),
    MalformedMetadata(Seq<char>, Seq<char>),
}

impl View for GraphError {
    type V = Failure;

    open spec fn view(&self) -> Failure {
        match self {
            GraphError::DuplicateTitle(t) => Failure::DuplicateTitle(t@),
            GraphError::FocalNodeNotFound(t) => Failure::FocalNodeNotFound(t@),
            GraphError::UnresolvedDependency(a, b) => Failure::UnresolvedDependency(a@, b@),
            GraphError::MalformedMetadata(a, b) => Failure::MalformedMetadata(a@, b@),
        }
    }
}

/// The strings of a sequence, as character sequences.
pub open spec fn strs(v: Seq<String>) -> Seq<Seq<char>> {
    v.map_values(|s: String| s@)
}

/// The dependency titles of a record.
pub open spec fn deps_of(m: MetaData) -> Seq<Seq<char>> {
    strs(m.dependencies@)
}

/// The tags of a record.
pub open spec fn tags_of(m: MetaData) -> Seq<Seq<char>> {
    strs(m.tags@)
}

/// The titles of a sequence of nodes, in order.
pub open spec fn titles(ns: Seq<Node>) -> Seq<Seq<char>> {
    ns.map_values(|n: Node| n.body.title@)
}

/// The first position in `ts` that holds `t`, if any.
pub open spec fn first_index(ts: Seq<Seq<char>>, t: Seq<char>) -> Option<int>
    decreases ts.len(),
{
    if ts.len() == 0 {
        None
    } else {
        match first_index(ts.drop_last(), t) {
            Some(i) => Some(i),
            None => if ts.last() == t {
                Some(ts.len() - 1)
            } else {
                None
            },
        }
    }
}

/// `first_index` is the least position holding `t`, and is absent exactly when `t` is.
pub proof fn lemma_first_index(ts: Seq<Seq<char>>, t: Seq<char>)
    ensures
        match first_index(ts, t) {
            Some(i) => 0 <= i < ts.len() && ts[i] == t && forall|k: int|
                0 <= k < i ==> ts[k] != t,
            None => !ts.contains(t),
        },
    decreases ts.len(),
{
    if ts.len() > 0 {
        lemma_first_index(ts.drop_last(), t);
        if let Some(i) = first_index(ts.drop_last(), t) {
            assert(ts.drop_last()[i] == ts[i]);
            assert forall|k: int| 0 <= k < i implies ts[k] != t by {
                assert(ts.drop_last()[k] == ts[k]);
            }
        } else {
            assert forall|k: int| 0 <= k < ts.len() - 1 implies ts[k] != t by {
                assert(ts.drop_last()[k] == ts[k]);
            }
            if ts.last() != t {
                assert forall|k: int| 0 <= k < ts.len() implies ts[k] != t by {
                    if k < ts.len() - 1 {
                        assert(ts.drop_last()[k] == ts[k]);
                    }
                }
                assert(!ts.contains(t));
            }
        }
    }
}

impl GraphError {
    /// A copy of the error.
    pub fn duplicate(&self) -> (r: GraphError)
        ensures
            r@ == self@,
    {
        match self {
            GraphError::DuplicateTitle(t) => GraphError::DuplicateTitle(t.clone()),
            GraphError::FocalNodeNotFound(t) => GraphError::FocalNodeNotFound(t.clone()),
            GraphError::UnresolvedDependency(a, b) => GraphError::UnresolvedDependency(a.clone(), b.clone()),
            GraphError::MalformedMetadata(a, b) => GraphError::MalformedMetadata(a.clone(), b.clone()),
        }
    }
}

impl MetaData {
    /// A record with every field empty.
    pub fn blank() -> (r: MetaData)
        ensures
            r.title@.len() == 0,
            r.date@.len() == 0,
            r.description@.len() == 0,
            r.dependencies@.len() == 0,
            r.tags@.len() == 0,
    {
        MetaData {
            title: String::new(),
            date: String::new(),
            description: String::new(),
            dependencies: Vec::new(),
            tags: Vec::new(),
        }
    }
}

impl Node {
    /// A node for `md`, not yet placed in a node set, with no parents.
    pub fn from(md: MetaData) -> (r: Node)
        ensures
            r.id == 0,
            r.body == md,
            r.parents@.len() == 0,
    {
        Node { id: 0, body: md, parents: Vec::new() }
    }

    pub fn title(&self) -> (r: String)
        ensures
            r@ == self.body.title@,
    {
        self.body.title.clone()
    }

    /// Admits the node into `set` unless a node there has its title.
    pub fn try_add_to_set(self, set: &mut Vec<Node>) -> (r: Result<(), GraphError>)
        ensures
            titles(old(set)@).contains(self.body.title@) ==> {
                &&& r matches Err(e) && e@ == Failure::DuplicateTitle(self.body.title@)
                &&& final(set)@ == old(set)@
            },
            !titles(old(set)@).contains(self.body.title@) ==> {
                &&& r is Ok
                &&& final(set)@ == old(set)@.push(self)
            },
    {
        let found = position_of(set, &self.body.title);
        proof {
            lemma_first_index(titles(set@), self.body.title@);
        }
        match found {
            Some(i) => {
                assert(titles(set@)[i as int] == self.body.title@);
                Err(GraphError::DuplicateTitle(self.body.title))
            },
            None => {
                set.push(self);
                Ok(())
            },
        }
    }

    /// Places the node in `nodes` under the next free id.
    pub fn add_to_map(self, nodes: &mut Vec<Node>)
        ensures
            final(nodes)@.len() == old(nodes)@.len() + 1,
            forall|k: int| 0 <= k < old(nodes)@.len() ==> final(nodes)@[k] == old(nodes)@[k],
            final(nodes)@.last().id == old(nodes)@.len(),
            final(nodes)@.last().body == self.body,
            final(nodes)@.last().parents == self.parents,
    {
        let mut n = self;
        n.id = nodes.len();
        nodes.push(n);
    }
}

/// The position of the first node titled `t`.
pub fn position_of(nodes: &Vec<Node>, t: &String) -> (r: Option<usize>)
    ensures
        r matches Some(i) ==> first_index(titles(nodes@), t@) == Some(i as int),
        r is None ==> first_index(titles(nodes@), t@) is None,
{
    let mut i: usize = 0;
    while i < nodes.len()
        invariant
            i <= nodes@.len(),
            first_index(titles(nodes@).subrange(0, i as int), t@) is None,
        decreases nodes@.len() - i,
    {
        let ghost ts = titles(nodes@);
        assert(ts.subrange(0, i + 1).drop_last() =~= ts.subrange(0, i as int));
        if nodes[i].body.title == *t {
            assert(first_index(ts.subrange(0, i + 1), t@) == Some(i as int));
            assert(ts.subrange(0, i + 1) =~= ts.take(i + 1));
            proof { lemma_first_index_prefix(ts, t@, i + 1); }
            return Some(i);
        }
        i = i + 1;
    }
    assert(titles(nodes@).subrange(0, i as int) =~= titles(nodes@));
    None
}

/// A hit of `first_index` in a prefix is the hit in the whole sequence.
pub proof fn lemma_first_index_prefix(ts: Seq<Seq<char>>, t: Seq<char>, k: int)
    requires
        0 <= k <= ts.len(),
        first_index(ts.take(k), t) is Some,
    ensures
        first_index(ts, t) == first_index(ts.take(k), t),
    decreases ts.len() - k,
{
    if k < ts.len() {
        assert(ts.take(k + 1).drop_last() =~= ts.take(k));
        lemma_first_index_prefix(ts, t, k + 1);
    } else {
        assert(ts.take(k) =~= ts);
    }
}

} // verus!
