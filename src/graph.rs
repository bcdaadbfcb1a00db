use vstd::prelude::*;

use crate::kind::DataType;
use crate::text::{clone_strings, strings_view};

verus! {

/// A component of the pipeline, tagged by its role.
#[derive(Clone, Debug)]
pub enum Node {
    Source { ty: DataType },
    Transform { in_ty: DataType, out_ty: DataType, named_outputs: Vec<String> },
    Sink { ty: DataType },
}

/// The mathematical model of a node: named output ports as character sequences.
pub enum NodeView {
    Source { ty: DataType },
    Transform { in_ty: DataType, out_ty: DataType, ports: Seq<Seq<char>> },
    Sink { ty: DataType },
}

impl View for Node {
    type V = NodeView;

    open spec fn view(&self) -> NodeView {
        match self {
            Node::Source { ty } => NodeView::Source { ty: *ty },
            Node::Transform { in_ty, out_ty, named_outputs } => NodeView::Transform {
                in_ty: *in_ty,
                out_ty: *out_ty,
                ports: strings_view(named_outputs@),
            },
            Node::Sink { ty } => NodeView::Sink { ty: *ty },
        }
    }
}

/// `to` consumes what `from` produces.
struct Edge {
    from: String,
    to: String,
}

struct Entry {
    key: String,
    node: Node,
}

/// The model of a graph: nodes by key, and edges `(from, to)` in the order
/// in which they were declared.
pub struct GraphView {
    pub nodes: Map<Seq<char>, NodeView>,
    pub edges: Seq<(Seq<char>, Seq<char>)>,
}

/// The declared components of a pipeline and the edges between them.
pub struct Graph {
    nodes: Vec<Entry>,
    edges: Vec<Edge>,
}

spec fn entries_view(v: Seq<Entry>) -> Seq<(Seq<char>, NodeView)> {
    v.map_values(|e: Entry| (e.key@, e.node@))
}

spec fn edges_view(v: Seq<Edge>) -> Seq<(Seq<char>, Seq<char>)> {
    v.map_values(|e: Edge| (e.from@, e.to@))
}

/// The map that a list of keyed entries describes; a later entry wins.
pub open spec fn entries_map(s: Seq<(Seq<char>, NodeView)>) -> Map<Seq<char>, NodeView>
    decreases s.len(),
{
    if s.len() == 0 {
        Map::empty()
    } else {
        entries_map(s.drop_last()).insert(s.last().0, s.last().1)
    }
}

pub open spec fn keys_unique(s: Seq<(Seq<char>, NodeView)>) -> bool {
    forall|i: int, j: int| 0 <= i < j < s.len() ==> (#[trigger] s[i]).0 != (#[trigger] s[j]).0
}

proof fn lemma_entries_map_lookup(s: Seq<(Seq<char>, NodeView)>, i: int)
    requires
        keys_unique(s),
        0 <= i < s.len(),
    ensures
        entries_map(s).contains_key(s[i].0),
        entries_map(s)[s[i].0] == s[i].1,
    decreases s.len(),
{
    if i < s.len() - 1 {
        lemma_entries_map_lookup(s.drop_last(), i);
        assert(s.drop_last()[i] == s[i]);
        assert(s[i].0 != s.last().0);
    }
}

proof fn lemma_entries_map_absent(s: Seq<(Seq<char>, NodeView)>, k: Seq<char>)
    requires
        forall|i: int| 0 <= i < s.len() ==> (#[trigger] s[i]).0 != k,
    ensures
        !entries_map(s).contains_key(k),
    decreases s.len(),
{
    if s.len() > 0 {
        assert forall|i: int| 0 <= i < s.drop_last().len() implies (#[trigger] s.drop_last()[i]).0
            != k by {
            assert(s.drop_last()[i] == s[i]);
        }
        lemma_entries_map_absent(s.drop_last(), k);
        assert(s[s.len() - 1].0 != k);
    }
}

proof fn lemma_entries_map_update(s: Seq<(Seq<char>, NodeView)>, i: int, n: NodeView)
    requires
        keys_unique(s),
        0 <= i < s.len(),
    ensures
        entries_map(s.update(i, (s[i].0, n))) == entries_map(s).insert(s[i].0, n),
    decreases s.len(),
{
    let t = s.update(i, (s[i].0, n));
    if i == s.len() - 1 {
        assert(t.drop_last() =~= s.drop_last());
        assert(entries_map(t) =~= entries_map(s).insert(s[i].0, n));
    } else {
        assert(t.drop_last() =~= s.drop_last().update(i, (s[i].0, n)));
        lemma_entries_map_update(s.drop_last(), i, n);
        assert(s[i].0 != s.last().0);
        assert(entries_map(t) =~= entries_map(s).insert(s[i].0, n));
    }
}

impl View for Graph {
    type V = GraphView;

    closed spec fn view(&self) -> GraphView {
        GraphView { nodes: entries_map(entries_view(self.nodes@)), edges: edges_view(self.edges@) }
    }
}

impl Graph {
    /// Each key names at most one entry.
    pub closed spec fn wf(&self) -> bool {
        keys_unique(entries_view(self.nodes@))
    }

    /// The position of the entry for `key`, if there is one.
    fn find(&self, key: &String) -> (r: Option<usize>)
        requires
            self.wf(),
        ensures
            match r {
                Some(i) => i < self.nodes@.len() && self.nodes@[i as int].key@ == key@
                    && self@.nodes.contains_key(key@) && self@.nodes[key@]
                    == self.nodes@[i as int].node@,
                None => !self@.nodes.contains_key(key@),
            },
    {
        let mut i: usize = 0;
        while i < self.nodes.len()
            invariant
                i <= self.nodes@.len(),
                self.wf(),
                forall|j: int| 0 <= j < i ==> (#[trigger] self.nodes@[j]).key@ != key@,
            decreases self.nodes.len() - i,
        {
            if self.nodes[i].key == *key {
                proof {
                    lemma_entries_map_lookup(entries_view(self.nodes@), i as int);
                }
                return Some(i);
            }
            i = i + 1;
        }
        proof {
            let s = entries_view(self.nodes@);
            assert forall|j: int| 0 <= j < s.len() implies (#[trigger] s[j]).0 != key@ by {
                assert(s[j].0 == self.nodes@[j].key@);
            }
            lemma_entries_map_absent(s, key@);
        }
        None
    }

    /// The keys of the nodes, in the order in which they are stored.
    pub(crate) closed spec fn keys(&self) -> Seq<Seq<char>> {
        self.nodes@.map_values(|e: Entry| e.key@)
    }

    pub(crate) proof fn lemma_keys(&self)
        requires
            self.wf(),
        ensures
            forall|k: Seq<char>| #[trigger] self@.nodes.contains_key(k) <==> self.keys().contains(k),
    {
        let s = entries_view(self.nodes@);
        assert forall|k: Seq<char>| #[trigger] self@.nodes.contains_key(k) <==> self.keys().contains(
            k,
        ) by {
            if self.keys().contains(k) {
                let i = choose|i: int| 0 <= i < self.keys().len() && self.keys()[i] == k;
                lemma_entries_map_lookup(s, i);
            } else {
                assert forall|j: int| 0 <= j < s.len() implies (#[trigger] s[j]).0 != k by {
                    assert(self.keys()[j] == s[j].0);
                }
                lemma_entries_map_absent(s, k);
            }
        }
    }

    pub(crate) fn node_count(&self) -> (r: usize)
        ensures
            r == self.keys().len(),
    {
        self.nodes.len()
    }

    pub(crate) fn entry_at(&self, i: usize) -> (r: (&String, &Node))
        requires
            self.wf(),
            i < self.keys().len(),
        ensures
            r.0@ == self.keys()[i as int],
            self@.nodes.contains_key(r.0@),
            self@.nodes[r.0@] == r.1@,
    {
        proof {
            lemma_entries_map_lookup(entries_view(self.nodes@), i as int);
        }
        (&self.nodes[i].key, &self.nodes[i].node)
    }

    /// The node under `key`, if any.
    pub(crate) fn get(&self, key: &String) -> (r: Option<&Node>)
        requires
            self.wf(),
        ensures
            r is Some <==> self@.nodes.contains_key(key@),
            r is Some ==> self@.nodes[key@] == r->Some_0@,
    {
        match self.find(key) {
            Some(i) => Some(&self.nodes[i].node),
            None => None,
        }
    }

    pub(crate) fn edge_count(&self) -> (r: usize)
        ensures
            r == self@.edges.len(),
    {
        self.edges.len()
    }

    pub(crate) fn edge_at(&self, i: usize) -> (r: (&String, &String))
        requires
            i < self@.edges.len(),
        ensures
            (r.0@, r.1@) == self@.edges[i as int],
    {
        (&self.edges[i].from, &self.edges[i].to)
    }

    /// Puts `node` under `key`, replacing what was there.
    fn insert_node(&mut self, key: &str, node: Node)
        requires
            old(self).wf(),
        ensures
            final(self).wf(),
            final(self)@.nodes == old(self)@.nodes.insert(key@, node@),
            final(self).edges == old(self).edges,
    {
        let ghost s = entries_view(self.nodes@);
        let key = String::from_str(key);
        match self.find(&key) {
            Some(i) => {
                self.nodes[i] = Entry { key, node };
                proof {
                    assert(entries_view(self.nodes@) =~= s.update(i as int, (s[i as int].0, node@)));
                    lemma_entries_map_update(s, i as int, node@);
                }
            },
            None => {
                let ghost k = key@;
                self.nodes.push(Entry { key, node });
                proof {
                    let t = entries_view(self.nodes@);
                    assert(t.drop_last() =~= s);
                    assert forall|j: int| 0 <= j < s.len() implies (#[trigger] s[j]).0 != k by {
                        if s[j].0 == k {
                            lemma_entries_map_lookup(s, j);
                        }
                    }
                    assert forall|a: int, b: int| 0 <= a < b < t.len() implies (#[trigger] t[a]).0
                        != (#[trigger] t[b]).0 by {
                        assert(t[a] == s[a]);
                        if b < s.len() {
                            assert(t[b] == s[b]);
                        }
                    }
                }
            },
        }
    }

    /// Appends one edge into `to` from each of `inputs`, in order.
    fn add_edges(&mut self, to: &str, inputs: &Vec<&str>)
        ensures
            final(self).nodes == old(self).nodes,
            final(self)@.edges == old(self)@.edges + inputs@.map_values(
                |s: &str| (s@, to@),
            ),
    {
        let ghost e0 = self@.edges;
        let mut i: usize = 0;
        while i < inputs.len()
            invariant
                i <= inputs@.len(),
                self.nodes == old(self).nodes,
                self@.edges == e0 + inputs@.subrange(0, i as int).map_values(|s: &str| (s@, to@)),
            decreases inputs.len() - i,
        {
            let from: &str = inputs[i];
            let ghost before = self.edges@;
            self.edges.push(Edge { from: String::from_str(from), to: String::from_str(to) });
            proof {
                assert(edges_view(self.edges@) =~= edges_view(before).push((from@, to@)));
                assert(inputs@.subrange(0, i + 1).map_values(|s: &str| (s@, to@)) =~= inputs@.subrange(
                    0,
                    i as int,
                ).map_values(|s: &str| (s@, to@)).push((from@, to@)));
                assert(self@.edges =~= e0 + inputs@.subrange(0, i + 1).map_values(
                    |s: &str| (s@, to@),
                ));
            }
            i = i + 1;
        }
        proof {
            assert(inputs@.subrange(0, inputs@.len() as int) =~= inputs@);
        }
    }

    /// Declares a source that produces `ty`.
    pub fn add_source(&mut self, id: &str, ty: DataType)
        requires
            old(self).wf(),
        ensures
            final(self).wf(),
            final(self)@.nodes == old(self)@.nodes.insert(id@, NodeView::Source { ty }),
            final(self)@.edges == old(self)@.edges,
    {
        self.insert_node(id, Node::Source { ty });
    }

    /// Declares a transform with no named output ports, and an edge from each
    /// of its inputs.
    pub fn add_transform(&mut self, id: &str, in_ty: DataType, out_ty: DataType, inputs: Vec<&str>)
        requires
            old(self).wf(),
        ensures
            final(self).wf(),
            final(self)@.nodes == old(self)@.nodes.insert(
                id@,
                NodeView::Transform { in_ty, out_ty, ports: Seq::empty() },
            ),
            final(self)@.edges == old(self)@.edges + inputs@.map_values(|s: &str| (s@, id@)),
    {
        let node = Node::Transform { in_ty, out_ty, named_outputs: Vec::new() };
        proof {
            assert(node@ == NodeView::Transform { in_ty, out_ty, ports: Seq::empty() }) by {
                assert(strings_view(Seq::<String>::empty()) =~= Seq::<Seq<char>>::empty());
            }
        }
        self.insert_node(id, node);
        self.add_edges(id, &inputs);
    }

    /// Registers the named output port `name` on the transform `id`, which
    /// must already be declared.
    pub fn add_transform_output(&mut self, id: &str, name: &str)
        requires
            old(self).wf(),
            old(self)@.nodes.contains_key(id@),
            old(self)@.nodes[id@] is Transform,
        ensures
            final(self).wf(),
            final(self)@.edges == old(self)@.edges,
            final(self)@.nodes == old(self)@.nodes.insert(
                id@,
                NodeView::Transform {
                    in_ty: old(self)@.nodes[id@]->Transform_in_ty,
                    out_ty: old(self)@.nodes[id@]->Transform_out_ty,
                    ports: old(self)@.nodes[id@]->Transform_ports.push(name@),
                },
            ),
    {
        let i = self.find(&String::from_str(id)).unwrap();
        let node = match &self.nodes[i].node {
            Node::Transform { in_ty, out_ty, named_outputs } => {
                let mut ports = clone_strings(named_outputs);
                ports.push(String::from_str(name));
                proof {
                    assert(strings_view(ports@) =~= strings_view(named_outputs@).push(name@));
                }
                Node::Transform { in_ty: *in_ty, out_ty: *out_ty, named_outputs: ports }
            },
            Node::Source { ty } => Node::Source { ty: *ty },
            Node::Sink { ty } => Node::Sink { ty: *ty },
        };
        self.insert_node(id, node);
    }

    /// Declares a sink that consumes `ty`, and an edge from each of its inputs.
    pub fn add_sink(&mut self, id: &str, ty: DataType, inputs: Vec<&str>)
        requires
            old(self).wf(),
        ensures
            final(self).wf(),
            final(self)@.nodes == old(self)@.nodes.insert(id@, NodeView::Sink { ty }),
            final(self)@.edges == old(self)@.edges + inputs@.map_values(|s: &str| (s@, id@)),
    {
        self.insert_node(id, Node::Sink { ty });
        self.add_edges(id, &inputs);
    }
}

impl Default for Graph {
    /// The graph with no nodes and no edges.
    fn default() -> (r: Graph)
        ensures
            r.wf(),
            r@.nodes == Map::<Seq<char>, NodeView>::empty(),
            r@.edges == Seq::<(Seq<char>, Seq<char>)>::empty(),
    {
        let r = Graph { nodes: Vec::new(), edges: Vec::new() };
        proof {
            assert(entries_view(r.nodes@) =~= Seq::empty());
            assert(edges_view(r.edges@) =~= Seq::empty());
        }
        r
    }
}

} // verus!
