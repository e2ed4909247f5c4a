//! The reply graph of submissions and comments, and its linear branches.
use std::collections::HashMap;
use petgraph::graph::{Graph, NodeIndex};
use petgraph::visit::{Dfs, Walker};
use petgraph::Direction;
use vstd::prelude::*;
use crate::models::{comment_record, thread_record, Comment, JsonEntry, Reddit, RedditError, Thread};

verus! {

broadcast use vstd::std_specs::hash::group_hash_axioms;

#[verifier::external_type_specification]
#[verifier::external_body]
#[verifier::reject_recursive_types(N)]
#[verifier::reject_recursive_types(E)]
#[verifier::reject_recursive_types(Ty)]
#[verifier::reject_recursive_types(Ix)]
pub struct ExGraph<N, E, Ty, Ix>(Graph<N, E, Ty, Ix>);

#[verifier::external_type_specification]
#[verifier::external_body]
pub struct ExDirected(petgraph::Directed);

/// The edges of a reply graph, as (source, target) node indices in the order
/// in which they were added.
pub uninterp spec fn graph_edges(g: Graph<(), ()>) -> Seq<(usize, usize)>;

/// The number of nodes of a reply graph.
pub uninterp spec fn graph_node_count(g: Graph<(), ()>) -> nat;

/// The nodes that `petgraph::visit::Dfs` yields, in order, when it starts at
/// `start` in a directed graph with `node_count` nodes and the given edges.
pub uninterp spec fn dfs_preorder(node_count: nat, edges: Seq<(usize, usize)>, start: usize) -> Seq<
    usize,
>;

/// `petgraph::Graph::new`: the new graph has no nodes and no edges.
#[verifier::external_body]
fn graph_new() -> (g: Graph<(), ()>)
    ensures
        graph_node_count(g) == 0,
        graph_edges(g) == Seq::<(usize, usize)>::empty(),
{
    Graph::new()
}

/// `petgraph::Graph::add_node`: the new node gets the next index; edges are
/// unchanged. The call panics once the graph holds `u32::MAX` nodes, which
/// the `requires` rules out.
#[verifier::external_body]
fn graph_add_node(g: &mut Graph<(), ()>) -> (idx: usize)
    requires
        graph_node_count(*old(g)) < u32::MAX,
    ensures
        idx == graph_node_count(*old(g)),
        graph_node_count(*final(g)) == graph_node_count(*old(g)) + 1,
        graph_edges(*final(g)) == graph_edges(*old(g)),
{
    g.add_node(()).index()
}

/// `petgraph::Graph::add_edge`: appends the edge `(a, b)`; nodes are
/// unchanged. The call panics on a missing endpoint or once the graph holds
/// `u32::MAX` edges, which the `requires` rules out.
#[verifier::external_body]
fn graph_add_edge(g: &mut Graph<(), ()>, a: usize, b: usize)
    requires
        a < graph_node_count(*old(g)),
        b < graph_node_count(*old(g)),
        graph_edges(*old(g)).len() < u32::MAX,
    ensures
        graph_node_count(*final(g)) == graph_node_count(*old(g)),
        graph_edges(*final(g)) == graph_edges(*old(g)).push((a, b)),
{
    g.add_edge(NodeIndex::new(a), NodeIndex::new(b), ());
}

/// `petgraph::Graph::edge_count`: the number of edges.
#[verifier::external_body]
fn graph_edge_count(g: &Graph<(), ()>) -> (r: usize)
    ensures
        r == graph_edges(*g).len(),
{
    g.edge_count()
}

/// Whether some edge of the list leaves `n`.
pub open spec fn has_out(edges: Seq<(usize, usize)>, n: usize) -> bool {
    exists|i: int| 0 <= i < edges.len() && (#[trigger] edges[i]).0 == n
}

/// The source of the most recently added edge that enters `n`, if any.
pub open spec fn last_source(edges: Seq<(usize, usize)>, n: usize) -> Option<usize>
    decreases edges.len(),
{
    if edges.len() == 0 {
        None
    } else if edges.last().1 == n {
        Some(edges.last().0)
    } else {
        last_source(edges.drop_last(), n)
    }
}

/// `neighbors_directed(n, Outgoing).next().is_some()`: whether an edge leaves `n`.
#[verifier::external_body]
fn graph_has_outgoing(g: &Graph<(), ()>, n: usize) -> (r: bool)
    requires
        n < graph_node_count(*g),
    ensures
        r == has_out(graph_edges(*g), n),
{
    g.neighbors_directed(NodeIndex::new(n), Direction::Outgoing).next().is_some()
}

/// `neighbors_directed(n, Incoming).next()`: petgraph lists the neighbours of
/// a directed graph in reverse order of the addition of their edges, so the
/// first is the source of the most recently added edge into `n`.
#[verifier::external_body]
fn graph_first_incoming(g: &Graph<(), ()>, n: usize) -> (r: Option<usize>)
    requires
        n < graph_node_count(*g),
    ensures
        r == last_source(graph_edges(*g), n),
{
    g.neighbors_directed(NodeIndex::new(n), Direction::Incoming).next().map(|p| p.index())
}

/// An edge from `a` to `b` is in the list.
pub open spec fn is_edge(edges: Seq<(usize, usize)>, a: usize, b: usize) -> bool {
    exists|i: int| 0 <= i < edges.len() && edges[i] == (a, b)
}

/// `p` is a walk along the edges: each node followed by one it has an edge to.
pub open spec fn is_walk(edges: Seq<(usize, usize)>, p: Seq<usize>) -> bool {
    &&& p.len() > 0
    &&& forall|j: int| 0 <= j < p.len() - 1 ==> is_edge(edges, #[trigger] p[j], p[j + 1])
}

/// `b` can be reached from `a` by following edges (possibly none).
pub open spec fn reachable(edges: Seq<(usize, usize)>, a: usize, b: usize) -> bool {
    exists|p: Seq<usize>| #[trigger] is_walk(edges, p) && p[0] == a && p.last() == b
}

/// `Dfs::new(g, start)` walked to the end: the nodes in depth-first preorder,
/// starting with `start`, each reachable node exactly once and no other.
#[verifier::external_body]
fn graph_dfs(g: &Graph<(), ()>, start: usize) -> (r: Vec<usize>)
    requires
        start < graph_node_count(*g),
    ensures
        r@ == dfs_preorder(graph_node_count(*g), graph_edges(*g), start),
        forall|i: int| 0 <= i < r@.len() ==> (#[trigger] r@[i]) < graph_node_count(*g),
        r@.len() > 0 && r@[0] == start,
        r@.no_duplicates(),
        forall|n: usize| r@.contains(n) <==> reachable(graph_edges(*g), start, n),
{
    Dfs::new(g, NodeIndex::new(start)).iter(g).map(|n| n.index()).collect()
}

/// The 64-bit FNV-1a hash of a string's characters.
pub open spec fn id_hash(s: Seq<char>) -> u64
    decreases s.len(),
{
    if s.len() == 0 {
        0xcbf29ce484222325u64
    } else {
        (id_hash(s.drop_last()) ^ ((s.last() as u32) as u64)).wrapping_mul(0x100000001b3u64)
    }
}

fn hash_id(s: &Vec<char>) -> (h: u64)
    ensures
        h == id_hash(s@),
{
    let mut h: u64 = 0xcbf29ce484222325u64;
    let mut i: usize = 0;
    while i < s.len()
        invariant
            i <= s.len(),
            h == id_hash(s@.subrange(0, i as int)),
        decreases s.len() - i,
    {
        let c: char = s[i];
        let code: u32 = c as u32;
        proof {
            let t = s@.subrange(0, i + 1);
            assert(t.drop_last() =~= s@.subrange(0, i as int));
            assert(t.last() == c);
        }
        h = (h ^ (code as u64)).wrapping_mul(0x100000001b3u64);
        i = i + 1;
    }
    assert(s@.subrange(0, s.len() as int) =~= s@);
    h
}

/// The graph of replies between submissions and comments, with the index of
/// each node by its Reddit id and the list of submissions that start threads.
pub struct ThreadGraph {
    graph: Graph<(), ()>,
    ids: Vec<String>,
    buckets: HashMap<u64, Vec<usize>>,
    threads: Vec<usize>,
    records: Vec<Reddit>,
    names: Ghost<Seq<Seq<char>>>,
}

impl ThreadGraph {
    /// The Reddit id of each node, by node index.
    pub closed spec fn node_ids(&self) -> Seq<Seq<char>> {
        self.ids@.map_values(|s: String| s@)
    }

    /// The reply edges, (parent, child), in the order in which they were added.
    pub closed spec fn edges(&self) -> Seq<(usize, usize)> {
        graph_edges(self.graph)
    }

    /// The nodes at which threads start, in the order in which they were added.
    pub closed spec fn thread_starts(&self) -> Seq<usize> {
        self.threads@
    }

    /// The record stored for each node, by node index.
    pub closed spec fn records(&self) -> Seq<Reddit> {
        self.records@
    }

    /// The ids handed to the graph's calls that add nodes, in the order of
    /// the calls (both ids of an edge, `from_id` first).
    pub closed spec fn named(&self) -> Seq<Seq<char>> {
        self.names@
    }

    /// The number of nodes.
    pub open spec fn num_nodes(&self) -> nat {
        self.node_ids().len()
    }

    /// Well-formedness: node ids are distinct, every edge and thread start
    /// names an existing node, the id index finds every node, and the nodes
    /// are those that the ids handed to the graph call for.
    pub closed spec fn wf(&self) -> bool {
        &&& self.node_ids() == ids_from(self.names@)
        &&& graph_node_count(self.graph) == self.ids@.len()
        &&& self.records@.len() == self.ids@.len()
        &&& forall|i: int, j: int|
            0 <= i < self.ids@.len() && 0 <= j < self.ids@.len() && i != j ==> (
            #[trigger] self.ids@[i])@ != (#[trigger] self.ids@[j])@
        &&& forall|i: int|
            0 <= i < graph_edges(self.graph).len() ==> (#[trigger] graph_edges(self.graph)[i]).0
                < self.ids@.len() && graph_edges(self.graph)[i].1 < self.ids@.len()
        &&& forall|i: int|
            0 <= i < self.threads@.len() ==> (#[trigger] self.threads@[i]) < self.ids@.len()
        &&& forall|h: u64, k: int|
            #![trigger self.buckets@[h]@[k]]
            self.buckets@.contains_key(h) && 0 <= k < self.buckets@[h]@.len() ==> {
                &&& self.buckets@[h]@[k] < self.ids@.len()
                &&& id_hash(self.ids@[self.buckets@[h]@[k] as int]@) == h
            }
        &&& forall|i: int|
            #![trigger self.ids@[i]]
            0 <= i < self.ids@.len() ==> {
                &&& self.buckets@.contains_key(id_hash(self.ids@[i]@))
                &&& self.buckets@[id_hash(self.ids@[i]@)]@.contains(i as usize)
            }
    }

    /// Facts that follow from well-formedness.
    pub proof fn lemma_wf(&self)
        requires
            self.wf(),
        ensures
            forall|i: int, j: int|
                0 <= i < self.num_nodes() && 0 <= j < self.num_nodes() && i != j ==> (
                #[trigger] self.node_ids()[i]) != (#[trigger] self.node_ids()[j]),
            forall|i: int|
                0 <= i < self.edges().len() ==> (#[trigger] self.edges()[i]).0 < self.num_nodes()
                    && self.edges()[i].1 < self.num_nodes(),
            forall|i: int|
                0 <= i < self.thread_starts().len() ==> (#[trigger] self.thread_starts()[i])
                    < self.num_nodes(),
            self.records().len() == self.num_nodes(),
    {
        assert forall|i: int, j: int|
            0 <= i < self.num_nodes() && 0 <= j < self.num_nodes() && i != j implies (
            #[trigger] self.node_ids()[i]) != (#[trigger] self.node_ids()[j]) by {
            assert(self.ids@[i]@ != self.ids@[j]@);
        }
    }

    /// An empty graph.
    pub fn new() -> (g: Self)
        ensures
            g.wf(),
            g.node_ids() == Seq::<Seq<char>>::empty(),
            g.edges() == Seq::<(usize, usize)>::empty(),
            g.thread_starts() == Seq::<usize>::empty(),
            g.records() == Seq::<Reddit>::empty(),
            g.named() == Seq::<Seq<char>>::empty(),
    {
        let g = ThreadGraph {
            graph: graph_new(),
            ids: Vec::new(),
            buckets: HashMap::new(),
            threads: Vec::new(),
            records: Vec::new(),
            names: Ghost(Seq::empty()),
        };
        assert(g.node_ids() =~= Seq::<Seq<char>>::empty());
        g
    }

    /// The node with the given id, if there is one.
    fn find(&self, id: &Vec<char>) -> (r: Option<usize>)
        requires
            self.wf(),
        ensures
            match r {
                Some(i) => i < self.num_nodes() && self.node_ids()[i as int] == id@,
                None => !self.node_ids().contains(id@),
            },
    {
        let h = hash_id(id);
        let key = crate::text::string_of(id);
        match self.buckets.get(&h) {
            None => {
                proof {
                    if self.node_ids().contains(id@) {
                        let i = choose|i: int|
                            0 <= i < self.node_ids().len() && self.node_ids()[i] == id@;
                        assert(self.ids@[i]@ == id@);
                        assert(self.buckets@.contains_key(id_hash(self.ids@[i]@)));
                    }
                }
                None
            },
            Some(bucket) => {
                let mut k: usize = 0;
                while k < bucket.len()
                    invariant
                        self.wf(),
                        key@ == id@,
                        h == id_hash(id@),
                        self.buckets@.contains_key(h),
                        bucket@ == self.buckets@[h]@,
                        k <= bucket.len(),
                        forall|j: int| 0 <= j < k ==> self.ids@[#[trigger] bucket@[j] as int]@ != id@,
                    decreases bucket.len() - k,
                {
                    let idx = bucket[k];
                    assert(self.buckets@[h]@[k as int] == idx);
                    if self.ids[idx] == key {
                        assert(idx < self.ids@.len());
                        assert(self.node_ids()[idx as int] == self.ids@[idx as int]@);
                        return Some(idx);
                    }
                    k = k + 1;
                }
                proof {
                    if self.node_ids().contains(id@) {
                        let i = choose|i: int|
                            0 <= i < self.node_ids().len() && self.node_ids()[i] == id@;
                        assert(self.ids@[i]@ == id@);
                        assert(self.buckets@[h]@.contains(i as usize));
                        let j = choose|j: int|
                            0 <= j < self.buckets@[h]@.len() && self.buckets@[h]@[j] == i as usize;
                        assert(self.ids@.len() == self.ids.len());
                        assert(bucket@[j] as int == i);
                        assert(self.ids@[bucket@[j] as int]@ != id@);
                    }
                }
                None
            },
        }
    }
}

impl ThreadGraph {
    /// The node for `id`: the existing one if the id is known, otherwise a new
    /// node with the next index.
    pub fn add_node(&mut self, id: &str) -> (idx: usize)
        requires
            old(self).wf(),
            old(self).node_ids().contains(id@) || old(self).num_nodes() < u32::MAX,
        ensures
            final(self).wf(),
            idx < final(self).num_nodes(),
            final(self).node_ids()[idx as int] == id@,
            old(self).node_ids().contains(id@) ==> final(self).node_ids() == old(self).node_ids(),
            !old(self).node_ids().contains(id@) ==> idx == old(self).num_nodes()
                && final(self).node_ids() == old(self).node_ids().push(id@),
            final(self).node_ids() == add_id(old(self).node_ids(), id@),
            old(self).node_ids().contains(id@) ==> final(self).records() == old(self).records(),
            !old(self).node_ids().contains(id@) ==> final(self).records().len() == old(
                self,
            ).records().len() + 1 && final(self).records().drop_last() == old(self).records()
                && is_blank_record(final(self).records().last(), id@),
            final(self).edges() == old(self).edges(),
            final(self).thread_starts() == old(self).thread_starts(),
            final(self).named() == old(self).named().push(id@),
    {
        let cs = crate::text::chars_of(id);
        let ghost old_names = self.names@;
        proof {
            assert(old_names.push(id@).drop_last() =~= old_names);
        }
        match self.find(&cs) {
            Some(i) => {
                self.names = Ghost(old_names.push(id@));
                i
            },
            None => {
                let ghost old_ids = self.ids@;
                let ghost old_buckets = self.buckets@;
                let idx = graph_add_node(&mut self.graph);
                let h = hash_id(&cs);
                let key = crate::text::string_of(&cs);
                self.ids.push(key);
                let blank = Reddit {
                    id: crate::text::string_of(&cs),
                    selftext: String::new(),
                    parent_id: None,
                    subreddit: String::new(),
                    permalink: None,
                };
                let ghost old_records = self.records@;
                self.records.push(blank);
                assert(self.records@.drop_last() =~= old_records);
                let mut bucket = match self.buckets.remove(&h) {
                    Some(b) => b,
                    None => Vec::new(),
                };
                let ghost old_bucket = bucket@;
                bucket.push(idx);
                self.buckets.insert(h, bucket);
                proof {
                    assert(old_buckets.contains_key(h) ==> old_bucket == old_buckets[h]@);
                    assert(!old_buckets.contains_key(h) ==> old_bucket == Seq::<usize>::empty());
                    assert(self.ids@ == old_ids.push(key));
                    assert forall|hh: u64, k: int|
                        #![trigger self.buckets@[hh]@[k]]
                        self.buckets@.contains_key(hh) && 0 <= k < self.buckets@[hh]@.len() implies {
                            &&& self.buckets@[hh]@[k] < self.ids@.len()
                            &&& id_hash(self.ids@[self.buckets@[hh]@[k] as int]@) == hh
                        } by {
                        if hh == h {
                            if k < old_bucket.len() {
                                assert(self.buckets@[hh]@[k] == old_buckets[h]@[k]);
                            }
                        } else {
                            assert(self.buckets@[hh] == old_buckets[hh]);
                        }
                    }
                    assert forall|i: int|
                        #![trigger self.ids@[i]]
                        0 <= i < self.ids@.len() implies {
                            &&& self.buckets@.contains_key(id_hash(self.ids@[i]@))
                            &&& self.buckets@[id_hash(self.ids@[i]@)]@.contains(i as usize)
                        } by {
                        if i < old_ids.len() {
                            assert(self.ids@[i] == old_ids[i]);
                            let hi = id_hash(old_ids[i]@);
                            assert(old_buckets[hi]@.contains(i as usize));
                            if hi == h {
                                let k = choose|k: int|
                                    0 <= k < old_bucket.len() && old_bucket[k] == i as usize;
                                assert(self.buckets@[hi]@[k] == i as usize);
                            }
                        } else {
                            assert(self.buckets@[h]@[old_bucket.len() as int] == idx);
                        }
                    }
                    assert forall|i: int, j: int|
                        0 <= i < self.ids@.len() && 0 <= j < self.ids@.len() && i != j implies (
                        #[trigger] self.ids@[i])@ != (#[trigger] self.ids@[j])@ by {
                        if i < old_ids.len() && j < old_ids.len() {
                        } else if i < old_ids.len() {
                            assert(old_ids.map_values(|s: String| s@)[i] == old_ids[i]@);
                        } else {
                            assert(old_ids.map_values(|s: String| s@)[j] == old_ids[j]@);
                        }
                    }
                    assert(self.node_ids() =~= old_ids.map_values(|s: String| s@).push(id@));
                }
                self.names = Ghost(old_names.push(id@));
                idx
            },
        }
    }

    /// Whether a node with this id exists.
    pub fn is_in_map(&self, id: &str) -> (r: bool)
        requires
            self.wf(),
        ensures
            r == self.node_ids().contains(id@),
    {
        let cs = crate::text::chars_of(id);
        self.find(&cs).is_some()
    }

    /// Adds a reply edge from the node of `from_id` to the node of `to_id`,
    /// creating either node if its id is new.
    pub fn add_edge(&mut self, from_id: &str, to_id: &str)
        requires
            old(self).wf(),
            old(self).node_ids().contains(from_id@) || old(self).num_nodes() < u32::MAX,
            add_id(old(self).node_ids(), from_id@).contains(to_id@) || add_id(
                old(self).node_ids(),
                from_id@,
            ).len() < u32::MAX,
            old(self).edges().len() < u32::MAX,
        ensures
            final(self).wf(),
            final(self).node_ids() == add_id(add_id(old(self).node_ids(), from_id@), to_id@),
            final(self).named() == old(self).named().push(from_id@).push(to_id@),
            old(self).node_ids().contains(from_id@) && old(self).node_ids().contains(to_id@)
                ==> final(self).records() == old(self).records(),
            final(self).edges() == old(self).edges().push(
                (
                    index_of(final(self).node_ids(), from_id@) as usize,
                    index_of(final(self).node_ids(), to_id@) as usize,
                ),
            ),
            final(self).thread_starts() == old(self).thread_starts(),
            final(self).records().len() == final(self).num_nodes(),
            forall|i: int|
                0 <= i < old(self).records().len() ==> #[trigger] final(self).records()[i] == old(
                    self,
                ).records()[i],
            forall|i: int|
                old(self).records().len() <= i < final(self).records().len() ==> is_blank_record(
                    #[trigger] final(self).records()[i],
                    final(self).node_ids()[i],
                ),
    {
        let from_idx = self.add_node(from_id);
        proof {
            lemma_add_id(old(self).node_ids(), from_id@);
        }
        let to_idx = self.add_node(to_id);
        proof {
            lemma_index_of(self.node_ids(), from_idx as int);
            lemma_index_of(self.node_ids(), to_idx as int);
        }
        graph_add_edge(&mut self.graph, from_idx, to_idx);
    }

    /// Records the node of `id` as the start of a thread, creating the node
    /// if its id is new.
    pub fn add_threads(&mut self, id: &str)
        requires
            old(self).wf(),
            old(self).node_ids().contains(id@) || old(self).num_nodes() < u32::MAX,
        ensures
            final(self).wf(),
            final(self).node_ids() == add_id(old(self).node_ids(), id@),
            final(self).named() == old(self).named().push(id@),
            final(self).edges() == old(self).edges(),
            final(self).thread_starts() == old(self).thread_starts().push(
                index_of(final(self).node_ids(), id@) as usize,
            ),
            old(self).node_ids().contains(id@) ==> final(self).records() == old(self).records(),
            final(self).records().len() == final(self).num_nodes(),
            forall|i: int|
                0 <= i < old(self).records().len() ==> #[trigger] final(self).records()[i] == old(
                    self,
                ).records()[i],
            forall|i: int|
                old(self).records().len() <= i < final(self).records().len() ==> is_blank_record(
                    #[trigger] final(self).records()[i],
                    final(self).node_ids()[i],
                ),
    {
        let idx = self.add_node(id);
        proof {
            lemma_index_of(self.node_ids(), idx as int);
        }
        self.threads.push(idx);
    }
}

/// The record a node holds until data is stored for it: its id and nothing else.
pub open spec fn is_blank_record(r: Reddit, id: Seq<char>) -> bool {
    &&& r.id@ == id
    &&& r.selftext@ == Seq::<char>::empty()
    &&& r.parent_id is None
    &&& r.subreddit@ == Seq::<char>::empty()
    &&& r.permalink is None
}

/// The id list after `add_node`: unchanged if the id is present, otherwise
/// extended by it.
pub open spec fn add_id(ids: Seq<Seq<char>>, id: Seq<char>) -> Seq<Seq<char>> {
    if ids.contains(id) {
        ids
    } else {
        ids.push(id)
    }
}

/// After `add_node`, the id is present.
pub proof fn lemma_add_id(ids: Seq<Seq<char>>, id: Seq<char>)
    ensures
        add_id(ids, id).contains(id),
        add_id(ids, id).len() <= ids.len() + 1,
        forall|x: Seq<char>| ids.contains(x) ==> #[trigger] add_id(ids, id).contains(x),
{
    if !ids.contains(id) {
        assert(ids.push(id)[ids.len() as int] == id);
        assert forall|x: Seq<char>| ids.contains(x) implies #[trigger] add_id(ids, id).contains(x) by {
            let i = choose|i: int| 0 <= i < ids.len() && ids[i] == x;
            assert(ids.push(id)[i] == x);
        }
    }
}

/// The position of `id` in a list of distinct ids.
pub open spec fn index_of(ids: Seq<Seq<char>>, id: Seq<char>) -> int {
    choose|i: int| 0 <= i < ids.len() && ids[i] == id
}

/// In a list of distinct ids, the position of an id is where it stands.
pub proof fn lemma_index_of(ids: Seq<Seq<char>>, i: int)
    requires
        0 <= i < ids.len(),
        forall|a: int, b: int|
            0 <= a < ids.len() && 0 <= b < ids.len() && a != b ==> (#[trigger] ids[a]) != (
            #[trigger] ids[b]),
    ensures
        index_of(ids, ids[i]) == i,
{
}

/// A walk up the parent links from `n` reaches a node without a parent within
/// `k` nodes.
pub open spec fn walk_ends(edges: Seq<(usize, usize)>, n: usize, k: nat) -> bool
    decreases k,
{
    k > 0 && match last_source(edges, n) {
        None => true,
        Some(p) => walk_ends(edges, p, (k - 1) as nat),
    }
}

/// The first `k` nodes of the walk up the parent links from `n`, starting at `n`.
pub open spec fn up_chain(edges: Seq<(usize, usize)>, n: usize, k: nat) -> Seq<usize>
    decreases k,
{
    if k == 0 {
        seq![]
    } else {
        seq![n] + match last_source(edges, n) {
            None => seq![],
            Some(p) => up_chain(edges, p, (k - 1) as nat),
        }
    }
}

/// The linear branch that ends at `leaf`: from the root of its thread down to
/// the leaf, each node the last-added parent of the next.
pub open spec fn branch(edges: Seq<(usize, usize)>, node_count: nat, leaf: usize) -> Seq<usize> {
    up_chain(edges, leaf, node_count).reverse()
}

/// Every node of the path can index the records.
pub open spec fn in_bounds(path: Seq<usize>, len: nat) -> bool {
    forall|i: int| 0 <= i < path.len() ==> (#[trigger] path[i]) < len
}

/// The branches of one thread, in the order of its depth-first visit, or
/// `None` when a walk from a leaf never ends or a branch names a node past
/// the end of the records.
pub open spec fn scan_order(
    edges: Seq<(usize, usize)>,
    node_count: nat,
    records: nat,
    order: Seq<usize>,
) -> Option<Seq<Seq<usize>>>
    decreases order.len(),
{
    if order.len() == 0 {
        Some(seq![])
    } else {
        match scan_order(edges, node_count, records, order.drop_last()) {
            None => None,
            Some(ps) => {
                let n = order.last();
                if has_out(edges, n) {
                    Some(ps)
                } else if !walk_ends(edges, n, node_count) {
                    None
                } else if branch(edges, node_count, n).len() <= 1 {
                    Some(ps)
                } else if !in_bounds(branch(edges, node_count, n), records) {
                    None
                } else {
                    Some(ps.push(branch(edges, node_count, n)))
                }
            },
        }
    }
}

/// The branches of all threads, thread by thread, or `None` as in `scan_order`.
pub open spec fn scan_threads(
    edges: Seq<(usize, usize)>,
    node_count: nat,
    records: nat,
    threads: Seq<usize>,
) -> Option<Seq<Seq<usize>>>
    decreases threads.len(),
{
    if threads.len() == 0 {
        Some(seq![])
    } else {
        match (
            scan_threads(edges, node_count, records, threads.drop_last()),
            scan_order(
                edges,
                node_count,
                records,
                dfs_preorder(node_count, edges, threads.last()),
            ),
        ) {
            (Some(a), Some(b)) => Some(a + b),
            _ => None,
        }
    }
}

/// The markdown piece for the `i`-th text of a branch.
pub open spec fn piece(i: int, text: Seq<char>) -> Seq<char> {
    if i == 0 {
        "# Post\n\n"@ + text
    } else {
        "\n\n---\n\n## Reply\n\n"@ + text
    }
}

/// The markdown of a branch: the post, then each reply under a separator.
pub open spec fn render(texts: Seq<Seq<char>>) -> Seq<char>
    decreases texts.len(),
{
    if texts.len() == 0 {
        seq![]
    } else {
        render(texts.drop_last()) + piece(texts.len() - 1, texts.last())
    }
}

/// The texts of the records along a path.
pub open spec fn path_texts(path: Seq<usize>, records: Seq<Reddit>) -> Seq<Seq<char>> {
    path.map_values(|n: usize| records[n as int].selftext@)
}

/// `e` is the output line for the branch `path`.
pub open spec fn entry_for(e: JsonEntry, path: Seq<usize>, records: Seq<Reddit>) -> bool {
    &&& e.raw_content@ == render(path_texts(path, records))
    &&& e.length == vstd::utf8::encode_utf8(e.raw_content@).len() as usize
    &&& e.subreddit == records[path[0] as int].subreddit
    &&& e.permalink == records[path[0] as int].permalink
    &&& e.created_utc == None::<u64>
}

proof fn lemma_last_source_bound(edges: Seq<(usize, usize)>, n: usize, bound: nat)
    requires
        forall|i: int| 0 <= i < edges.len() ==> (#[trigger] edges[i]).0 < bound,
    ensures
        last_source(edges, n) matches Some(p) ==> p < bound,
    decreases edges.len(),
{
    if edges.len() > 0 && edges.last().1 != n {
        lemma_last_source_bound(edges.drop_last(), n, bound);
    }
}

proof fn lemma_scan_order_prefix_none(
    edges: Seq<(usize, usize)>,
    node_count: nat,
    records: nat,
    order: Seq<usize>,
    k: int,
)
    requires
        0 <= k <= order.len(),
        scan_order(edges, node_count, records, order.take(k)) is None,
    ensures
        scan_order(edges, node_count, records, order) is None,
    decreases order.len() - k,
{
    if k < order.len() {
        assert(order.take(k + 1).drop_last() =~= order.take(k));
        lemma_scan_order_prefix_none(edges, node_count, records, order, k + 1);
    } else {
        assert(order.take(k) =~= order);
    }
}

proof fn lemma_scan_threads_prefix_none(
    edges: Seq<(usize, usize)>,
    node_count: nat,
    records: nat,
    threads: Seq<usize>,
    k: int,
)
    requires
        0 <= k <= threads.len(),
        scan_threads(edges, node_count, records, threads.take(k)) is None,
    ensures
        scan_threads(edges, node_count, records, threads) is None,
    decreases threads.len() - k,
{
    if k < threads.len() {
        assert(threads.take(k + 1).drop_last() =~= threads.take(k));
        lemma_scan_threads_prefix_none(edges, node_count, records, threads, k + 1);
    } else {
        assert(threads.take(k) =~= threads);
    }
}

/// Whether every node of the path is below `len`.
fn all_below(path: &Vec<usize>, len: usize) -> (r: bool)
    ensures
        r == in_bounds(path@, len as nat),
{
    let mut j: usize = 0;
    while j < path.len()
        invariant
            j <= path.len(),
            forall|q: int| 0 <= q < j ==> (#[trigger] path@[q]) < len,
        decreases path.len() - j,
    {
        if path[j] >= len {
            assert(!in_bounds(path@, len as nat));
            return false;
        }
        j = j + 1;
    }
    true
}

impl ThreadGraph {
    /// The branch that ends at `leaf`, or `None` when the walk up the parent
    /// links from `leaf` does not reach a root within one step per node.
    fn walk_up(&self, leaf: usize) -> (r: Option<Vec<usize>>)
        requires
            self.wf(),
            leaf < self.num_nodes(),
        ensures
            r is Some <==> walk_ends(self.edges(), leaf, self.num_nodes()),
            r matches Some(p) ==> p@ == branch(self.edges(), self.num_nodes(), leaf),
    {
        let ghost edges = self.edges();
        let ghost nn = self.num_nodes();
        proof {
            self.lemma_wf();
        }
        let mut up: Vec<usize> = Vec::new();
        let mut cur: Option<usize> = Some(leaf);
        let mut fuel: usize = self.ids.len();
        loop
            invariant
                self.wf(),
                edges == self.edges(),
                nn == self.num_nodes(),
                fuel <= nn,
                cur matches Some(c) ==> c < nn,
                up@ + (match cur {
                    None => Seq::<usize>::empty(),
                    Some(c) => up_chain(edges, c, fuel as nat),
                }) == up_chain(edges, leaf, nn),
                walk_ends(edges, leaf, nn) == (match cur {
                    None => true,
                    Some(c) => walk_ends(edges, c, fuel as nat),
                }),
            ensures
                cur is None,
                up@ == up_chain(edges, leaf, nn),
                walk_ends(edges, leaf, nn),
            decreases fuel,
        {
            match cur {
                None => {
                    assert(up@ + Seq::<usize>::empty() =~= up@);
                    break;
                },
                Some(c) => {
                    if fuel == 0 {
                        return None;
                    }
                    let ghost before = up@;
                    up.push(c);
                    proof {
                        self.lemma_wf();
                        lemma_last_source_bound(edges, c, nn);
                    }
                    let next = graph_first_incoming(&self.graph, c);
                    proof {
                        assert(up_chain(edges, c, fuel as nat) == seq![c] + match next {
                            None => Seq::<usize>::empty(),
                            Some(p) => up_chain(edges, p, (fuel - 1) as nat),
                        });
                        assert(up@ + (match next {
                            None => Seq::<usize>::empty(),
                            Some(p) => up_chain(edges, p, (fuel - 1) as nat),
                        }) =~= before + up_chain(edges, c, fuel as nat));
                    }
                    cur = next;
                    fuel = fuel - 1;
                },
            }
        }
        // Reverse: root first, leaf last.
        let mut path: Vec<usize> = Vec::new();
        let mut k: usize = up.len();
        while k > 0
            invariant
                k <= up.len(),
                path@ == up@.reverse().take((up.len() - k) as int),
            decreases k,
        {
            k = k - 1;
            proof {
                assert(up@.reverse()[(up.len() - k - 1) as int] == up@[k as int]);
            }
            path.push(up[k]);
            assert(path@ =~= up@.reverse().take((up.len() - k) as int));
        }
        assert(path@ =~= up@.reverse());
        Some(path)
    }
}

/// The markdown line for a branch whose nodes all index `records`.
fn render_branch(path: &Vec<usize>, records: &Vec<Reddit>) -> (e: JsonEntry)
    requires
        path.len() > 0,
        in_bounds(path@, records.len() as nat),
    ensures
        entry_for(e, path@, records@),
{
    let root = path[0];
    let subreddit = records[root].subreddit.clone();
    let permalink = match &records[root].permalink {
        Some(p) => Some(p.clone()),
        None => None,
    };
    let mut raw = String::new();
    let mut i: usize = 0;
    while i < path.len()
        invariant
            i <= path.len(),
            in_bounds(path@, records.len() as nat),
            raw@ == render(path_texts(path@.take(i as int), records@)),
        decreases path.len() - i,
    {
        let ghost before = raw@;
        let node = path[i];
        assert(path@[i as int] < records.len());
        if i == 0 {
            raw.append("# Post\n\n");
        } else {
            raw.append("\n\n---\n\n## Reply\n\n");
        }
        raw.append(records[node].selftext.as_str());
        proof {
            let t = path_texts(path@.take(i + 1), records@);
            assert(t.drop_last() =~= path_texts(path@.take(i as int), records@));
            assert(t.last() == records@[node as int].selftext@);
            assert(raw@ =~= render(t));
        }
        i = i + 1;
    }
    assert(path@.take(path.len() as int) =~= path@);
    let length = raw.as_str().len();
    JsonEntry { raw_content: raw, length, subreddit, permalink, created_utc: None }
}

impl ThreadGraph {
    /// Whether the linear branches of the threads can be produced from these
    /// records: every walk up from a leaf ends, and every node of a branch of
    /// two or more nodes indexes the records.
    pub open spec fn traversable(&self, records: nat) -> bool {
        scan_threads(self.edges(), self.num_nodes(), records, self.thread_starts()) is Some
    }

    /// The linear branches of the threads, when they can be produced.
    pub open spec fn branches(&self, records: nat) -> Seq<Seq<usize>> {
        scan_threads(self.edges(), self.num_nodes(), records, self.thread_starts()).unwrap()
    }

    /// The branches for one visit order rendered as output lines, or `None`
    /// when a walk up from a leaf of the order never reaches a root or a
    /// branch names a node that has no record.
    pub fn branches_of_order(&self, order: &Vec<usize>, records: &Vec<Reddit>) -> (r: Option<
        Vec<JsonEntry>,
    >)
        requires
            self.wf(),
            forall|i: int| 0 <= i < order@.len() ==> (#[trigger] order@[i]) < self.num_nodes(),
        ensures
            r is Some <==> scan_order(
                self.edges(),
                self.num_nodes(),
                records.len() as nat,
                order@,
            ) is Some,
            r matches Some(v) ==> {
                let ps = scan_order(
                    self.edges(),
                    self.num_nodes(),
                    records.len() as nat,
                    order@,
                ).unwrap();
                &&& v.len() == ps.len()
                &&& forall|i: int| 0 <= i < v.len() ==> entry_for(#[trigger] v@[i], ps[i], records@)
            },
    {
        let ghost edges = self.edges();
        let ghost nn = self.num_nodes();
        let ghost rl = records.len() as nat;
        let mut out: Vec<JsonEntry> = Vec::new();
        let ghost mut done: Seq<Seq<usize>> = seq![];
        assert(order@.take(0) =~= Seq::<usize>::empty());
        let mut oi: usize = 0;
        while oi < order.len()
            invariant
                self.wf(),
                edges == self.edges(),
                nn == self.num_nodes(),
                rl == records.len(),
                oi <= order.len(),
                forall|i: int| 0 <= i < order@.len() ==> (#[trigger] order@[i]) < nn,
                scan_order(edges, nn, rl, order@.take(oi as int)) == Some(done),
                out.len() == done.len(),
                forall|i: int| 0 <= i < out.len() ==> entry_for(#[trigger] out@[i], done[i], records@),
            decreases order.len() - oi,
        {
            let n = order[oi];
            proof {
                self.lemma_wf();
                let t = order@.take(oi + 1);
                assert(t.drop_last() =~= order@.take(oi as int));
                assert(t.last() == n);
            }
            if !graph_has_outgoing(&self.graph, n) {
                let path = match self.walk_up(n) {
                    None => {
                        proof {
                            lemma_scan_order_prefix_none(edges, nn, rl, order@, oi + 1);
                        }
                        return None;
                    },
                    Some(p) => p,
                };
                if path.len() > 1 {
                    if !all_below(&path, records.len()) {
                        proof {
                            lemma_scan_order_prefix_none(edges, nn, rl, order@, oi + 1);
                        }
                        return None;
                    }
                    let e = render_branch(&path, records);
                    out.push(e);
                    proof {
                        done = done.push(path@);
                    }
                }
            }
            oi = oi + 1;
        }
        assert(order@.take(order.len() as int) =~= order@);
        Some(out)
    }

    /// The branches of all threads rendered as output lines, or `None` when a
    /// walk up from a leaf never reaches a root or a branch names a node that
    /// has no record. The lines come thread by thread; a thread's lines are
    /// the branches of exactly the leaves reachable from its start (those of
    /// two or more nodes), each once.
    pub fn try_tranverse(&self, vec_threads: &Vec<Reddit>) -> (r: Option<Vec<JsonEntry>>)
        requires
            self.wf(),
        ensures
            r is Some <==> self.traversable(vec_threads.len() as nat),
            r matches Some(v) ==> {
                &&& v.len() == self.branches(vec_threads.len() as nat).len()
                &&& forall|i: int|
                    0 <= i < v.len() ==> entry_for(
                        #[trigger] v@[i],
                        self.branches(vec_threads.len() as nat)[i],
                        vec_threads@,
                    )
                &&& self.complete(vec_threads.len() as nat)
            },
    {
        let ghost edges = self.edges();
        let ghost nn = self.num_nodes();
        let ghost rl = vec_threads.len() as nat;
        let ghost starts = self.thread_starts();
        let mut out: Vec<JsonEntry> = Vec::new();
        let ghost mut done: Seq<Seq<usize>> = seq![];
        proof {
            self.lemma_wf();
            assert(starts.take(0) =~= Seq::<usize>::empty());
        }
        let mut ti: usize = 0;
        while ti < self.threads.len()
            invariant
                self.wf(),
                edges == self.edges(),
                nn == self.num_nodes(),
                rl == vec_threads.len(),
                starts == self.thread_starts(),
                ti <= starts.len(),
                scan_threads(edges, nn, rl, starts.take(ti as int)) == Some(done),
                out.len() == done.len(),
                forall|i: int| 0 <= i < out.len() ==> entry_for(#[trigger] out@[i], done[i], vec_threads@),
                forall|j: int| 0 <= j < ti ==> thread_complete(edges, nn, rl, #[trigger] starts[j]),
            decreases starts.len() - ti,
        {
            proof {
                self.lemma_wf();
            }
            let start = self.threads[ti];
            let order = graph_dfs(&self.graph, start);
            proof {
                let t = starts.take(ti + 1);
                assert(t.drop_last() =~= starts.take(ti as int));
                assert(t.last() == start);
            }
            let part = match self.branches_of_order(&order, vec_threads) {
                None => {
                    proof {
                        lemma_scan_threads_prefix_none(edges, nn, rl, starts, ti + 1);
                    }
                    return None;
                },
                Some(v) => v,
            };
            let ghost ps = scan_order(edges, nn, rl, order@).unwrap();
            let ghost old_done = done;
            let mut part = part;
            out.append(&mut part);
            proof {
                done = old_done + ps;
                assert forall|i: int| 0 <= i < out.len() implies entry_for(
                    #[trigger] out@[i],
                    done[i],
                    vec_threads@,
                ) by {
                    if i >= old_done.len() {
                        assert(done[i] == ps[i - old_done.len()]);
                    }
                }
                lemma_order_complete(edges, nn, rl, start, order@);
                assert(starts[ti as int] == start);
            }
            ti = ti + 1;
        }
        proof {
            assert(starts.take(starts.len() as int) =~= starts);
            lemma_scan_threads_parts(edges, nn, rl, starts);
            thread_parts(edges, nn, rl, starts).lemma_flatten_and_flatten_alt_are_equivalent();
        }
        Some(out)
    }
}

impl ThreadGraph {
    /// The number of nodes.
    pub fn node_count(&self) -> (n: usize)
        requires
            self.wf(),
        ensures
            n == self.num_nodes(),
    {
        self.ids.len()
    }

    /// The number of edges.
    pub fn edge_count(&self) -> (n: usize)
        ensures
            n == self.edges().len(),
    {
        graph_edge_count(&self.graph)
    }

    /// Stores the record for the node of `id`, creating the node if its id
    /// is new.
    pub fn add_reddit_data(&mut self, id: &str, reddit: Reddit)
        requires
            old(self).wf(),
            old(self).node_ids().contains(id@) || old(self).num_nodes() < u32::MAX,
        ensures
            final(self).wf(),
            final(self).node_ids() == add_id(old(self).node_ids(), id@),
            final(self).named() == old(self).named().push(id@),
            final(self).node_ids().contains(id@),
            final(self).edges() == old(self).edges(),
            final(self).thread_starts() == old(self).thread_starts(),
            final(self).records() == store_at(
                old(self).records(),
                index_of(final(self).node_ids(), id@),
                reddit,
            ),
    {
        let ghost old_records = self.records@;
        let idx = self.add_node(id);
        proof {
            lemma_index_of(self.node_ids(), idx as int);
        }
        self.records.set(idx, reddit);
        proof {
            assert(self.node_ids()[idx as int] == id@);
            assert(old_records.take(old_records.len() as int) =~= old_records);
            if idx < old_records.len() {
                assert(self.records@ =~= old_records.update(idx as int, reddit));
            } else {
                assert(self.records@ =~= old_records.push(reddit));
            }
        }
    }

    /// The output lines of all threads, built from the given record of each
    /// node.
    pub fn tranverse(&self, vec_threads: &Vec<Reddit>) -> (r: Vec<JsonEntry>)
        requires
            self.wf(),
            self.traversable(vec_threads.len() as nat),
        ensures
            r.len() == self.branches(vec_threads.len() as nat).len(),
            forall|i: int|
                0 <= i < r.len() ==> entry_for(
                    #[trigger] r@[i],
                    self.branches(vec_threads.len() as nat)[i],
                    vec_threads@,
                ),
            self.complete(vec_threads.len() as nat),
    {
        match self.try_tranverse(vec_threads) {
            Some(v) => v,
            None => {
                assert(false);
                Vec::new()
            },
        }
    }

    /// The output lines of all threads, built from the stored records, or
    /// `None` when a walk up from a leaf never reaches a root.
    pub fn traverse(&self) -> (r: Option<Vec<JsonEntry>>)
        requires
            self.wf(),
        ensures
            r is Some <==> self.traversable(self.num_nodes()),
            r matches Some(v) ==> {
                &&& v.len() == self.branches(self.num_nodes()).len()
                &&& forall|i: int|
                    0 <= i < v.len() ==> entry_for(
                        #[trigger] v@[i],
                        self.branches(self.num_nodes())[i],
                        self.records(),
                    )
                &&& self.complete(self.num_nodes())
            },
    {
        proof {
            self.lemma_wf();
        }
        self.try_tranverse(&self.records)
    }

    /// Adds a submission: one with comments and enough text becomes a node
    /// that starts a thread; any other leaves the graph unchanged.
    pub fn add_thread_record(&mut self, thread: Thread)
        requires
            old(self).wf(),
            thread_record(thread) is Err || old(self).node_ids().contains(thread.name@)
                || old(self).num_nodes() < u32::MAX,
        ensures
            final(self).wf(),
            match thread_record(thread) {
                Err(_) => *final(self) == *old(self),
                Ok(rec) => {
                    &&& final(self).node_ids() == add_id(old(self).node_ids(), rec.id@)
                    &&& final(self).named() == old(self).named().push(rec.id@).push(rec.id@)
                    &&& final(self).edges() == old(self).edges()
                    &&& final(self).thread_starts() == old(self).thread_starts().push(
                        index_of(final(self).node_ids(), rec.id@) as usize,
                    )
                    &&& final(self).records() == store_at(
                        old(self).records(),
                        index_of(final(self).node_ids(), rec.id@),
                        rec,
                    )
                },
            },
    {
        let converted: Result<Reddit, RedditError> = Reddit::try_from(thread);
        match converted {
            Err(_) => {},
            Ok(reddit) => {
                let ghost rec = reddit;
                let ghost old_records = self.records@;
                let id = reddit.id.clone();
                self.add_reddit_data(id.as_str(), reddit);
                assert(old_records.take(old_records.len() as int) =~= old_records);
                self.add_threads(id.as_str());
            },
        }
    }

    /// Adds a comment whose parent is already in the graph: its node gets the
    /// comment's record and an edge from the parent. Deleted or removed
    /// comments and comments whose parent is unknown leave the graph unchanged.
    pub fn add_comment_record(&mut self, comment: Comment, include_scores: bool)
        requires
            old(self).wf(),
            comment_record(comment) is Err || !old(self).node_ids().contains(comment.parent_id@)
                || old(self).node_ids().contains(comment.name@) || old(self).num_nodes()
                < u32::MAX,
            comment_record(comment) is Err || !old(self).node_ids().contains(comment.parent_id@)
                || old(self).edges().len() < u32::MAX,
        ensures
            final(self).wf(),
            comment_record(comment) is Err || !old(self).node_ids().contains(comment.parent_id@)
                ==> *final(self) == *old(self),
            comment_record(comment) is Ok && old(self).node_ids().contains(comment.parent_id@) ==> {
                &&& final(self).node_ids() == add_id(old(self).node_ids(), comment.name@)
                &&& final(self).named() == old(self).named().push(comment.name@).push(
                    comment.parent_id@,
                ).push(comment.name@)
                &&& final(self).edges() == old(self).edges().push(
                    (
                        index_of(final(self).node_ids(), comment.parent_id@) as usize,
                        index_of(final(self).node_ids(), comment.name@) as usize,
                    ),
                )
                &&& final(self).thread_starts() == old(self).thread_starts()
                &&& final(self).records().len() == final(self).num_nodes()
                &&& forall|i: int|
                    0 <= i < old(self).records().len() && i != index_of(
                        final(self).node_ids(),
                        comment.name@,
                    ) ==> #[trigger] final(self).records()[i] == old(self).records()[i]
                &&& comment_stored(
                    final(self).records()[index_of(final(self).node_ids(), comment.name@)],
                    comment,
                    include_scores,
                )
            },
    {
        let ghost c = comment;
        let converted = comment.into_reddit(include_scores);
        match converted {
            Err(_) => {},
            Ok(reddit) => {
                let parent = match &reddit.parent_id {
                    Some(p) => p.clone(),
                    None => {
                        return;
                    },
                };
                if self.is_in_map(parent.as_str()) {
                    let id = reddit.id.clone();
                    let ghost rec = reddit;
                    self.add_reddit_data(id.as_str(), reddit);
                    let ghost mid = self.records@;
                    let ghost mid_ids = self.node_ids();
                    proof {
                        lemma_add_id(old(self).node_ids(), id@);
                        assert(mid_ids.contains(parent@));
                        self.lemma_wf();
                        lemma_index_of_in(mid_ids, id@);
                    }
                    self.add_edge(parent.as_str(), id.as_str());
                    proof {
                        assert(add_id(mid_ids, parent@) == mid_ids);
                        assert(add_id(mid_ids, id@) == mid_ids);
                    }
                }
            },
        }
    }
}

/// The records with `r` stored at index `i`: replacing the record there, or
/// appended when `i` is the next index.
pub open spec fn store_at(records: Seq<Reddit>, i: int, r: Reddit) -> Seq<Reddit> {
    if 0 <= i < records.len() {
        records.update(i, r)
    } else {
        records.push(r)
    }
}

/// The record stored for a comment: its id, parent, subreddit and
/// permalink, and its text, followed by the score line when scores are
/// included.
pub open spec fn comment_stored(r: Reddit, c: Comment, include_scores: bool) -> bool {
    &&& r.id == c.name
    &&& r.parent_id == Some(c.parent_id)
    &&& r.subreddit == c.subreddit
    &&& r.permalink == c.permalink
    &&& include_scores ==> r.selftext@ == crate::models::text_with_scores(
        c.body@,
        c.score,
        c.ups,
        c.downs,
    )
    &&& !include_scores ==> r.selftext == c.body
}

/// In a list of distinct ids that holds `id`, `index_of` finds it.
pub proof fn lemma_index_of_in(ids: Seq<Seq<char>>, id: Seq<char>)
    requires
        ids.contains(id),
        forall|a: int, b: int|
            0 <= a < ids.len() && 0 <= b < ids.len() && a != b ==> (#[trigger] ids[a]) != (
            #[trigger] ids[b]),
    ensures
        0 <= index_of(ids, id) < ids.len(),
        ids[index_of(ids, id)] == id,
{
}

/// The branches of the thread that starts at `t`, in the order of its
/// depth-first visit, or `None` as in `scan_order`.
pub open spec fn thread_part(
    edges: Seq<(usize, usize)>,
    node_count: nat,
    records: nat,
    t: usize,
) -> Option<Seq<Seq<usize>>> {
    scan_order(edges, node_count, records, dfs_preorder(node_count, edges, t))
}

/// The branches of each thread, one list per thread start.
pub open spec fn thread_parts(
    edges: Seq<(usize, usize)>,
    node_count: nat,
    records: nat,
    threads: Seq<usize>,
) -> Seq<Seq<Seq<usize>>> {
    threads.map_values(|t: usize| thread_part(edges, node_count, records, t).unwrap())
}

/// `p` is the branch of a leaf reachable from thread start `t`.
pub open spec fn branch_of_thread(
    edges: Seq<(usize, usize)>,
    node_count: nat,
    t: usize,
    p: Seq<usize>,
) -> bool {
    exists|leaf: usize|
        reachable(edges, t, leaf) && !has_out(edges, leaf) && p == branch(edges, node_count, leaf)
}

/// The branches of the thread that starts at `t` are exactly those of the
/// leaves reachable from `t`: every such leaf's branch (when it has two or
/// more nodes) is among them, each of them is the branch of such a leaf,
/// and none occurs twice.
pub open spec fn thread_complete(
    edges: Seq<(usize, usize)>,
    node_count: nat,
    records: nat,
    t: usize,
) -> bool {
    thread_part(edges, node_count, records, t) matches Some(b) && {
        &&& b.no_duplicates()
        &&& forall|leaf: usize|
            reachable(edges, t, leaf) && !has_out(edges, leaf) && branch(
                edges,
                node_count,
                leaf,
            ).len() > 1 ==> #[trigger] b.contains(branch(edges, node_count, leaf))
        &&& forall|k: int| 0 <= k < b.len() ==> branch_of_thread(edges, node_count, t, #[trigger] b[k])
    }
}

impl ThreadGraph {
    /// The branches are the threads' own branches, thread by thread, and
    /// each thread's branches are exactly those of the leaves reachable from
    /// its start, each once.
    pub open spec fn complete(&self, records: nat) -> bool {
        &&& self.branches(records) == thread_parts(
            self.edges(),
            self.num_nodes(),
            records,
            self.thread_starts(),
        ).flatten()
        &&& forall|j: int|
            0 <= j < self.thread_starts().len() ==> thread_complete(
                self.edges(),
                self.num_nodes(),
                records,
                #[trigger] self.thread_starts()[j],
            )
    }
}

proof fn lemma_branch_last(edges: Seq<(usize, usize)>, node_count: nat, leaf: usize)
    requires
        walk_ends(edges, leaf, node_count),
    ensures
        branch(edges, node_count, leaf).len() >= 1,
        branch(edges, node_count, leaf).last() == leaf,
{
    lemma_up_chain(edges, leaf, node_count);
}

proof fn lemma_scan_order_members(
    edges: Seq<(usize, usize)>,
    node_count: nat,
    records: nat,
    order: Seq<usize>,
)
    requires
        scan_order(edges, node_count, records, order) is Some,
    ensures
        forall|k: int|
            0 <= k < scan_order(edges, node_count, records, order).unwrap().len() ==> exists|j: int|
                0 <= j < order.len() && walk_ends(edges, order[j], node_count) && !has_out(
                    edges,
                    order[j],
                ) && #[trigger] scan_order(edges, node_count, records, order).unwrap()[k]
                    == branch(edges, node_count, order[j]),
    decreases order.len(),
{
    if order.len() > 0 {
        let prev = order.drop_last();
        lemma_scan_order_members(edges, node_count, records, prev);
        let ps = scan_order(edges, node_count, records, prev).unwrap();
        let res = scan_order(edges, node_count, records, order).unwrap();
        assert forall|k: int| 0 <= k < res.len() implies exists|j: int|
            0 <= j < order.len() && walk_ends(edges, order[j], node_count) && !has_out(
                edges,
                order[j],
            ) && #[trigger] res[k] == branch(edges, node_count, order[j]) by {
            if k < ps.len() {
                let j = choose|j: int|
                    0 <= j < prev.len() && walk_ends(edges, prev[j], node_count) && !has_out(
                        edges,
                        prev[j],
                    ) && ps[k] == branch(edges, node_count, prev[j]);
                assert(res[k] == ps[k]);
                assert(order[j] == prev[j]);
            } else {
                assert(res[k] == branch(edges, node_count, order.last()));
                assert(order[order.len() - 1] == order.last());
            }
        }
    }
}

proof fn lemma_scan_order_contains(
    edges: Seq<(usize, usize)>,
    node_count: nat,
    records: nat,
    order: Seq<usize>,
    j: int,
)
    requires
        scan_order(edges, node_count, records, order) is Some,
        0 <= j < order.len(),
        !has_out(edges, order[j]),
        branch(edges, node_count, order[j]).len() > 1,
    ensures
        scan_order(edges, node_count, records, order).unwrap().contains(
            branch(edges, node_count, order[j]),
        ),
    decreases order.len(),
{
    let prev = order.drop_last();
    let res = scan_order(edges, node_count, records, order).unwrap();
    if j == order.len() - 1 {
        assert(res.last() == branch(edges, node_count, order[j]));
        assert(res[res.len() - 1] == res.last());
    } else {
        assert(prev[j] == order[j]);
        lemma_scan_order_contains(edges, node_count, records, prev, j);
        let ps = scan_order(edges, node_count, records, prev).unwrap();
        let k = choose|k: int| 0 <= k < ps.len() && ps[k] == branch(edges, node_count, order[j]);
        assert(res[k] == ps[k]);
    }
}

proof fn lemma_scan_order_distinct(
    edges: Seq<(usize, usize)>,
    node_count: nat,
    records: nat,
    order: Seq<usize>,
)
    requires
        scan_order(edges, node_count, records, order) is Some,
        order.no_duplicates(),
    ensures
        scan_order(edges, node_count, records, order).unwrap().no_duplicates(),
    decreases order.len(),
{
    if order.len() > 0 {
        let prev = order.drop_last();
        lemma_scan_order_distinct(edges, node_count, records, prev);
        lemma_scan_order_members(edges, node_count, records, prev);
        let ps = scan_order(edges, node_count, records, prev).unwrap();
        let res = scan_order(edges, node_count, records, order).unwrap();
        let n = order.last();
        if res.len() > ps.len() {
            lemma_branch_last(edges, node_count, n);
            assert forall|a: int, b: int|
                0 <= a < res.len() && 0 <= b < res.len() && a != b implies res[a] != res[b] by {
                if a < ps.len() && b < ps.len() {
                    assert(res[a] == ps[a] && res[b] == ps[b]);
                } else {
                    let k = if a < ps.len() {
                        a
                    } else {
                        b
                    };
                    assert(res[k] == ps[k]);
                    let j = choose|j: int|
                        0 <= j < prev.len() && walk_ends(edges, prev[j], node_count) && !has_out(
                            edges,
                            prev[j],
                        ) && ps[k] == branch(edges, node_count, prev[j]);
                    lemma_branch_last(edges, node_count, prev[j]);
                    assert(order[j] == prev[j]);
                    assert(order[order.len() - 1] == n);
                    assert(prev[j] != n);
                }
            }
        } else {
            assert(res == ps);
        }
    }
}

/// With the facts of the depth-first visit, a thread's branches are exactly
/// those of its reachable leaves, each once.
proof fn lemma_order_complete(
    edges: Seq<(usize, usize)>,
    node_count: nat,
    records: nat,
    t: usize,
    order: Seq<usize>,
)
    requires
        order == dfs_preorder(node_count, edges, t),
        order.no_duplicates(),
        forall|n: usize| order.contains(n) <==> reachable(edges, t, n),
        scan_order(edges, node_count, records, order) is Some,
    ensures
        thread_complete(edges, node_count, records, t),
{
    let ps = scan_order(edges, node_count, records, order).unwrap();
    lemma_scan_order_distinct(edges, node_count, records, order);
    lemma_scan_order_members(edges, node_count, records, order);
    assert forall|leaf: usize|
        reachable(edges, t, leaf) && !has_out(edges, leaf) && branch(edges, node_count, leaf).len()
            > 1 implies #[trigger] ps.contains(branch(edges, node_count, leaf)) by {
        assert(order.contains(leaf));
        let j = choose|j: int| 0 <= j < order.len() && order[j] == leaf;
        lemma_scan_order_contains(edges, node_count, records, order, j);
    }
    assert forall|k: int| 0 <= k < ps.len() implies branch_of_thread(
        edges,
        node_count,
        t,
        #[trigger] ps[k],
    ) by {
        let j = choose|j: int|
            0 <= j < order.len() && walk_ends(edges, order[j], node_count) && !has_out(
                edges,
                order[j],
            ) && ps[k] == branch(edges, node_count, order[j]);
        assert(order.contains(order[j]));
        assert(reachable(edges, t, order[j]));
    }
}

/// The branches of all threads are the threads' own branches, one thread
/// after the other.
proof fn lemma_scan_threads_parts(
    edges: Seq<(usize, usize)>,
    node_count: nat,
    records: nat,
    threads: Seq<usize>,
)
    requires
        scan_threads(edges, node_count, records, threads) is Some,
    ensures
        scan_threads(edges, node_count, records, threads).unwrap() == thread_parts(
            edges,
            node_count,
            records,
            threads,
        ).flatten_alt(),
    decreases threads.len(),
{
    let parts = thread_parts(edges, node_count, records, threads);
    if threads.len() == 0 {
        assert(parts =~= Seq::<Seq<Seq<usize>>>::empty());
    } else {
        lemma_scan_threads_parts(edges, node_count, records, threads.drop_last());
        assert(parts.drop_last() =~= thread_parts(
            edges,
            node_count,
            records,
            threads.drop_last(),
        ));
        assert(parts.last() == thread_part(edges, node_count, records, threads.last()).unwrap());
    }
}

/// A linear branch: at least two nodes, the first without a parent, each
/// later node's (last-added) parent the node before it, and the last without
/// replies.
pub open spec fn is_linear_branch(edges: Seq<(usize, usize)>, path: Seq<usize>) -> bool {
    &&& path.len() >= 2
    &&& last_source(edges, path[0]) is None
    &&& forall|k: int|
        0 <= k < path.len() - 1 ==> last_source(edges, #[trigger] path[k + 1]) == Some(path[k])
    &&& !has_out(edges, path.last())
}

proof fn lemma_up_chain(edges: Seq<(usize, usize)>, n: usize, k: nat)
    requires
        walk_ends(edges, n, k),
    ensures
        up_chain(edges, n, k).len() >= 1,
        up_chain(edges, n, k)[0] == n,
        last_source(edges, up_chain(edges, n, k).last()) is None,
        forall|j: int|
            0 <= j < up_chain(edges, n, k).len() - 1 ==> last_source(
                edges,
                #[trigger] up_chain(edges, n, k)[j],
            ) == Some(up_chain(edges, n, k)[j + 1]),
    decreases k,
{
    let u = up_chain(edges, n, k);
    match last_source(edges, n) {
        None => {
            assert(u =~= seq![n]);
        },
        Some(p) => {
            let k1 = (k - 1) as nat;
            lemma_up_chain(edges, p, k1);
            let rest = up_chain(edges, p, k1);
            assert(u =~= seq![n] + rest);
            assert forall|j: int| 0 <= j < u.len() - 1 implies last_source(edges, #[trigger] u[j])
                == Some(u[j + 1]) by {
                if j > 0 {
                    assert(u[j] == rest[j - 1]);
                    assert(u[j + 1] == rest[j]);
                }
            }
        },
    }
}

proof fn lemma_branch_linear(edges: Seq<(usize, usize)>, node_count: nat, leaf: usize)
    requires
        walk_ends(edges, leaf, node_count),
        !has_out(edges, leaf),
        branch(edges, node_count, leaf).len() > 1,
    ensures
        is_linear_branch(edges, branch(edges, node_count, leaf)),
{
    lemma_up_chain(edges, leaf, node_count);
    let u = up_chain(edges, leaf, node_count);
    let p = branch(edges, node_count, leaf);
    assert(p[0] == u.last());
    assert(p.last() == u[0]);
    assert forall|k: int| 0 <= k < p.len() - 1 implies last_source(edges, #[trigger] p[k + 1])
        == Some(p[k]) by {
        let j = u.len() - 2 - k;
        assert(p[k + 1] == u[j]);
        assert(p[k] == u[j + 1]);
    }
}

proof fn lemma_scan_order_linear(
    edges: Seq<(usize, usize)>,
    node_count: nat,
    records: nat,
    order: Seq<usize>,
)
    requires
        scan_order(edges, node_count, records, order) is Some,
    ensures
        forall|i: int|
            0 <= i < scan_order(edges, node_count, records, order).unwrap().len() ==> is_linear_branch(
                edges,
                #[trigger] scan_order(edges, node_count, records, order).unwrap()[i],
            ),
    decreases order.len(),
{
    if order.len() > 0 {
        lemma_scan_order_linear(edges, node_count, records, order.drop_last());
        let n = order.last();
        if !has_out(edges, n) && walk_ends(edges, n, node_count) && branch(
            edges,
            node_count,
            n,
        ).len() > 1 {
            lemma_branch_linear(edges, node_count, n);
        }
    }
}

proof fn lemma_scan_threads_linear(
    edges: Seq<(usize, usize)>,
    node_count: nat,
    records: nat,
    threads: Seq<usize>,
)
    requires
        scan_threads(edges, node_count, records, threads) is Some,
    ensures
        forall|i: int|
            0 <= i < scan_threads(edges, node_count, records, threads).unwrap().len()
                ==> is_linear_branch(
                edges,
                #[trigger] scan_threads(edges, node_count, records, threads).unwrap()[i],
            ),
    decreases threads.len(),
{
    if threads.len() > 0 {
        lemma_scan_threads_linear(edges, node_count, records, threads.drop_last());
        let order = dfs_preorder(node_count, edges, threads.last());
        lemma_scan_order_linear(edges, node_count, records, order);
        let a = scan_threads(edges, node_count, records, threads.drop_last()).unwrap();
        let b = scan_order(edges, node_count, records, order).unwrap();
        assert forall|i: int| 0 <= i < (a + b).len() implies is_linear_branch(
            edges,
            #[trigger] (a + b)[i],
        ) by {
            if i < a.len() {
                assert((a + b)[i] == a[i]);
            } else {
                assert((a + b)[i] == b[i - a.len()]);
            }
        }
    }
}

proof fn lemma_walk_mono(edges: Seq<(usize, usize)>, n: usize, j: nat, j2: nat)
    requires
        walk_ends(edges, n, j),
        j <= j2,
    ensures
        walk_ends(edges, n, j2),
    decreases j,
{
    if let Some(p) = last_source(edges, n) {
        lemma_walk_mono(edges, p, (j - 1) as nat, (j2 - 1) as nat);
    }
}

proof fn lemma_walk_len(edges: Seq<(usize, usize)>, n: usize, k: nat)
    requires
        walk_ends(edges, n, k),
    ensures
        walk_ends(edges, n, up_chain(edges, n, k).len()),
        up_chain(edges, n, k).len() <= k,
    decreases k,
{
    if let Some(p) = last_source(edges, n) {
        lemma_walk_len(edges, p, (k - 1) as nat);
    }
}

proof fn lemma_chain_shift(edges: Seq<(usize, usize)>, u: Seq<usize>, a: int, b: int, t: int)
    requires
        0 <= a < b,
        0 <= t,
        b + t < u.len(),
        u[a] == u[b],
        forall|j: int|
            0 <= j < u.len() - 1 ==> last_source(edges, #[trigger] u[j]) == Some(u[j + 1]),
    ensures
        u[a + t] == u[b + t],
    decreases t,
{
    if t > 0 {
        lemma_chain_shift(edges, u, a, b, t - 1);
        assert(last_source(edges, u[a + t - 1]) == Some(u[a + t]));
        assert(last_source(edges, u[b + t - 1]) == Some(u[b + t]));
    }
}

/// A walk up the parent links that ends visits each node at most once, so
/// in a graph of `node_count` nodes it ends within `node_count` nodes: a walk
/// that does not end within that many nodes never ends. Traversal is thus
/// refused only where a walk from a leaf runs forever.
pub proof fn lemma_walk_ends_within_node_count(
    edges: Seq<(usize, usize)>,
    node_count: nat,
    n: usize,
    k: nat,
)
    requires
        forall|i: int| 0 <= i < edges.len() ==> (#[trigger] edges[i]).0 < node_count,
        n < node_count,
        walk_ends(edges, n, k),
    ensures
        walk_ends(edges, n, node_count),
{
    lemma_up_chain(edges, n, k);
    lemma_walk_len(edges, n, k);
    let u = up_chain(edges, n, k);
    // Every node of the chain is a node of the graph.
    assert forall|j: int| 0 <= j < u.len() implies (#[trigger] u[j]) < node_count by {
        if j > 0 {
            lemma_last_source_bound(edges, u[j - 1], node_count);
            assert(last_source(edges, u[j - 1]) == Some(u[j]));
        }
    }
    // The chain has no repeated node: a repeat would make it periodic and
    // put a parentless node before its end.
    assert forall|a: int, b: int| 0 <= a < u.len() && 0 <= b < u.len() && a != b implies u[a]
        != u[b] by {
        if u[a] == u[b] {
            let (x, y) = if a < b {
                (a, b)
            } else {
                (b, a)
            };
            let t = u.len() - 1 - y;
            lemma_chain_shift(edges, u, x, y, t);
            assert(u[x + t] == u[u.len() - 1]);
            assert(last_source(edges, u[x + t]) == Some(u[x + t + 1]));
        }
    }
    let w = u.map_values(|x: usize| x as int);
    assert(w.no_duplicates());
    w.unique_seq_to_set();
    vstd::set_lib::lemma_int_range(0, node_count as int);
    assert(w.to_set().subset_of(vstd::set_lib::set_int_range(0, node_count as int))) by {
        assert forall|x: int| w.to_set().contains(x) implies vstd::set_lib::set_int_range(
            0,
            node_count as int,
        ).contains(x) by {
            let j = choose|j: int| 0 <= j < w.len() && w[j] == x;
            assert(u[j] < node_count);
        }
    }
    vstd::set_lib::lemma_len_subset(
        w.to_set(),
        vstd::set_lib::set_int_range(0, node_count as int),
    );
    lemma_walk_mono(edges, n, u.len(), node_count);
}

/// Every output line of a traversal is a linear branch: it starts at a
/// submission or comment without a parent, each later node replies to the
/// one before it, and it ends at a node without replies.
pub proof fn lemma_branches_are_linear(g: &ThreadGraph, records: nat)
    requires
        g.wf(),
        g.traversable(records),
    ensures
        forall|i: int|
            0 <= i < g.branches(records).len() ==> is_linear_branch(
                g.edges(),
                #[trigger] g.branches(records)[i],
            ),
{
    lemma_scan_threads_linear(g.edges(), g.num_nodes(), records, g.thread_starts());
}

/// The id list of a new graph after calls that hand it the ids `names`, in
/// order: each id gets a node unless it already has one.
pub open spec fn ids_from(names: Seq<Seq<char>>) -> Seq<Seq<char>>
    decreases names.len(),
{
    if names.len() == 0 {
        seq![]
    } else {
        add_id(ids_from(names.drop_last()), names.last())
    }
}

proof fn lemma_add_id_facts(ids: Seq<Seq<char>>, id: Seq<char>)
    requires
        ids.no_duplicates(),
    ensures
        add_id(ids, id).no_duplicates(),
        forall|x: Seq<char>| #[trigger] add_id(ids, id).contains(x) <==> (ids.contains(x) || x == id),
{
    lemma_add_id(ids, id);
    if !ids.contains(id) {
        let t = ids.push(id);
        assert forall|x: Seq<char>| #[trigger] t.contains(x) implies (ids.contains(x) || x == id) by {
            let i = choose|i: int| 0 <= i < t.len() && t[i] == x;
            if i < ids.len() {
                assert(ids[i] == x);
            }
        }
        assert forall|a: int, b: int| 0 <= a < t.len() && 0 <= b < t.len() && a != b implies t[a]
            != t[b] by {
            if a < ids.len() && b < ids.len() {
            } else if a < ids.len() {
                assert(ids.contains(ids[a]));
            } else {
                assert(ids.contains(ids[b]));
            }
        }
    }
}

/// For any ids handed to a new graph, in any order and with any repeats,
/// an id has a node exactly when it was handed over, and no two nodes share
/// an id.
pub proof fn lemma_ids_from(names: Seq<Seq<char>>)
    ensures
        ids_from(names).no_duplicates(),
        forall|x: Seq<char>| #[trigger] ids_from(names).contains(x) <==> names.contains(x),
    decreases names.len(),
{
    if names.len() > 0 {
        let prev = names.drop_last();
        lemma_ids_from(prev);
        lemma_add_id_facts(ids_from(prev), names.last());
        assert forall|x: Seq<char>| #[trigger] ids_from(names).contains(x) <==> names.contains(
            x,
        ) by {
            if prev.contains(x) {
                let i = choose|i: int| 0 <= i < prev.len() && prev[i] == x;
                assert(names[i] == x);
            }
            if x == names.last() {
                assert(names[names.len() - 1] == x);
            }
            if names.contains(x) {
                let i = choose|i: int| 0 <= i < names.len() && names[i] == x;
                if i < prev.len() {
                    assert(prev[i] == x);
                }
            }
        }
    }
}

impl ThreadGraph {
    /// Across any sequence of calls on a new graph, a node exists for an id
    /// exactly when the id was handed to one of the calls (`add_node`,
    /// `add_edge`, `add_threads` and the record calls), and each such id has
    /// exactly one node: node indices and those ids correspond one to one.
    pub proof fn lemma_nodes_are_named(&self)
        requires
            self.wf(),
        ensures
            self.node_ids().no_duplicates(),
            forall|x: Seq<char>| #[trigger] self.node_ids().contains(x) <==> self.named().contains(
                x,
            ),
    {
        lemma_ids_from(self.named());
    }
}

/// Adding a node twice adds it once: the second `add_node` finds the first.
pub proof fn lemma_add_id_idempotent(ids: Seq<Seq<char>>, id: Seq<char>)
    ensures
        add_id(add_id(ids, id), id) == add_id(ids, id),
        add_id(ids, id).contains(id),
{
    lemma_add_id(ids, id);
}


/// The total length of some texts.
pub open spec fn text_lens(texts: Seq<Seq<char>>) -> nat
    decreases texts.len(),
{
    if texts.len() == 0 {
        0
    } else {
        text_lens(texts.drop_last()) + texts.last().len()
    }
}

proof fn lemma_text_lens_first(texts: Seq<Seq<char>>)
    requires
        texts.len() > 0,
    ensures
        text_lens(texts) >= texts[0].len(),
    decreases texts.len(),
{
    if texts.len() > 1 {
        lemma_text_lens_first(texts.drop_last());
        assert(texts.drop_last()[0] == texts[0]);
    }
}

/// The markdown of a branch holds every text in full: each text is appended
/// whole after its header (`# Post` for the first, a `## Reply` separator for
/// the others), the markdown starts with the post's header and whole text,
/// and its length is that of the headers plus that of all the texts.
pub proof fn lemma_render_keeps_texts(texts: Seq<Seq<char>>)
    ensures
        texts.len() == 0 ==> render(texts).len() == 0,
        texts.len() > 0 ==> render(texts) == render(texts.drop_last()) + (if texts.len() == 1 {
            "# Post\n\n"@
        } else {
            "\n\n---\n\n## Reply\n\n"@
        }) + texts.last(),
        texts.len() > 0 ==> render(texts).len() == 8 + 17 * (texts.len() - 1) + text_lens(texts),
        texts.len() > 0 ==> render(texts).subrange(0, 8 + texts[0].len() as int) == "# Post\n\n"@
            + texts[0],
    decreases texts.len(),
{
    reveal_strlit("# Post\n\n");
    reveal_strlit("\n\n---\n\n## Reply\n\n");
    if texts.len() > 0 {
        let dl = texts.drop_last();
        lemma_render_keeps_texts(dl);
        let h = if texts.len() == 1 {
            "# Post\n\n"@
        } else {
            "\n\n---\n\n## Reply\n\n"@
        };
        assert(piece(texts.len() - 1, texts.last()) == h + texts.last());
        assert(render(dl) + (h + texts.last()) =~= render(dl) + h + texts.last());
        if texts.len() == 1 {
            assert(render(dl) =~= Seq::<char>::empty());
            assert(texts.last() == texts[0]);
            assert(render(texts) =~= h + texts[0]);
            assert(render(texts).subrange(0, 8 + texts[0].len() as int) =~= h + texts[0]);
        } else {
            assert(dl[0] == texts[0]);
            lemma_text_lens_first(dl);
            assert(render(texts).subrange(0, 8 + texts[0].len() as int) =~= render(dl).subrange(
                0,
                8 + texts[0].len() as int,
            ));
        }
    }
}

/// An output line holds the whole texts of its branch: it starts with the
/// post's header and its full text, ends with the last reply's separator and
/// full text, and is exactly as long as the headers and all the texts.
pub proof fn lemma_entry_keeps_texts(e: JsonEntry, path: Seq<usize>, records: Seq<Reddit>)
    requires
        entry_for(e, path, records),
        path.len() > 0,
        in_bounds(path, records.len()),
    ensures
        e.raw_content@.len() == 8 + 17 * (path.len() - 1) + text_lens(path_texts(path, records)),
        e.raw_content@.subrange(0, 8 + records[path[0] as int].selftext@.len() as int) == "# Post\n\n"@
            + records[path[0] as int].selftext@,
        path.len() > 1 ==> e.raw_content@.subrange(
            e.raw_content@.len() - 17 - records[path.last() as int].selftext@.len(),
            e.raw_content@.len() as int,
        ) == "\n\n---\n\n## Reply\n\n"@ + records[path.last() as int].selftext@,
        path.len() == 1 ==> e.raw_content@ == "# Post\n\n"@ + records[path[0] as int].selftext@,
{
    reveal_strlit("\n\n---\n\n## Reply\n\n");
    let texts = path_texts(path, records);
    lemma_render_keeps_texts(texts);
    assert(texts[0] == records[path[0] as int].selftext@);
    assert(texts.last() == records[path.last() as int].selftext@);
    let raw = e.raw_content@;
    let tail = "\n\n---\n\n## Reply\n\n"@ + texts.last();
    if path.len() > 1 {
        assert(raw == render(texts.drop_last()) + tail);
        assert(raw.subrange(raw.len() - tail.len(), raw.len() as int) =~= tail);
    } else {
        lemma_render_keeps_texts(texts.drop_last());
        assert(raw =~= "# Post\n\n"@ + texts[0]);
    }
}

} // verus!

