use vstd::prelude::*;

use crate::graph::{Graph, GraphView, Node, NodeView};
use crate::paths::is_consumer;
use crate::text::strings_view;

verus! {

/// `k` names something that can be consumed: a source, the default output
/// of a transform, or a named port of a transform written `<id>.<port>`.
/// Sinks have no outputs.
pub open spec fn is_output(g: GraphView, k: Seq<char>) -> bool {
    ||| g.nodes.contains_key(k) && !(g.nodes[k] is Sink)
    ||| exists|id: Seq<char>, j: int|
        g.nodes.contains_key(id) && g.nodes[id] is Transform && 0 <= j < g.nodes[id]->Transform_ports.len()
            && k == #[trigger] port_key(id, g.nodes[id]->Transform_ports[j])
}

/// The key of the output port `port` of the transform `id`.
pub open spec fn port_key(id: Seq<char>, port: Seq<char>) -> Seq<char> {
    id + "."@ + port
}

/// How a consumer is named in diagnostics.
pub open spec fn role_name(n: NodeView) -> Seq<char> {
    match n {
        NodeView::Transform { .. } => "transform"@,
        _ => "sink"@,
    }
}

pub open spec fn input_message(from: Seq<char>, role: Seq<char>, to: Seq<char>) -> Seq<char> {
    "Input \""@ + from + "\" for "@ + role + " \""@ + to + "\" doesn't match any components."@
}

/// The diagnostics for the first `n` edges, in declaration order: one for
/// each edge that draws from something that is not an output.
pub open spec fn input_errors(g: GraphView, n: int) -> Seq<Seq<char>>
    decreases n,
{
    if n <= 0 {
        Seq::empty()
    } else {
        let prev = input_errors(g, n - 1);
        let e = g.edges[n - 1];
        if is_output(g, e.0) {
            prev
        } else {
            prev.push(input_message(e.0, role_name(g.nodes[e.1]), e.1))
        }
    }
}

/// Every edge whose producer is not an output leads into a transform or a sink.
pub open spec fn dangling_inputs_have_consumers(g: GraphView) -> bool {
    forall|i: int|
        0 <= i < g.edges.len() && !is_output(g, #[trigger] g.edges[i].0) ==> is_consumer(
            g,
            g.edges[i].1,
        )
}

fn input_text(from: &String, role: &str, to: &String) -> (r: String)
    ensures
        r@ == input_message(from@, role@, to@),
{
    let mut r = String::from_str("Input \"");
    r.append(from.as_str());
    r.append("\" for ");
    r.append(role);
    r.append(" \"");
    r.append(to.as_str());
    r.append("\" doesn't match any components.");
    r
}

/// Whether `k` is `<id>.<port>` for one of `ports`.
fn has_port(id: &String, ports: &Vec<String>, k: &String) -> (r: bool)
    ensures
        r == exists|u: int| 0 <= u < ports@.len() && k@ == #[trigger] port_key(id@, ports@[u]@),
{
    let mut j: usize = 0;
    while j < ports.len()
        invariant
            j <= ports.len(),
            forall|u: int| 0 <= u < j ==> k@ != #[trigger] port_key(id@, ports@[u]@),
        decreases ports.len() - j,
    {
        let mut c = id.clone();
        c.append(".");
        c.append(ports[j].as_str());
        if c == *k {
            proof {
                assert(k@ == port_key(id@, ports@[j as int]@));
            }
            return true;
        }
        j = j + 1;
    }
    false
}

impl Graph {
    /// Whether `k` names an output of some node.
    fn is_output(&self, k: &String) -> (r: bool)
        requires
            self.wf(),
        ensures
            r == is_output(self@, k@),
    {
        let ghost g = self@;
        match self.get(k) {
            Some(n) => match n {
                Node::Sink { .. } => {},
                _ => {
                    return true;
                },
            },
            None => {},
        }
        let n = self.node_count();
        let mut i: usize = 0;
        while i < n
            invariant
                self.wf(),
                g == self@,
                n == self.keys().len(),
                i <= n,
                !(g.nodes.contains_key(k@) && !(g.nodes[k@] is Sink)),
                forall|t: int, j: int|
                    0 <= t < i && g.nodes[self.keys()[t]] is Transform && 0 <= j
                        < g.nodes[self.keys()[t]]->Transform_ports.len() ==> k@ != #[trigger] port_key(
                        self.keys()[t],
                        g.nodes[self.keys()[t]]->Transform_ports[j],
                    ),
            decreases n - i,
        {
            let (id, node) = self.entry_at(i);
            match node {
                Node::Transform { named_outputs, .. } => {
                    if has_port(id, named_outputs, k) {
                        proof {
                            let u = choose|u: int|
                                0 <= u < named_outputs@.len() && k@ == #[trigger] port_key(
                                    id@,
                                    named_outputs@[u]@,
                                );
                            assert(g.nodes[id@]->Transform_ports[u] == named_outputs@[u]@);
                        }
                        return true;
                    }
                    proof {
                        assert forall|t: int, u: int|
                            0 <= t < i + 1 && g.nodes[self.keys()[t]] is Transform && 0 <= u
                                < g.nodes[self.keys()[t]]->Transform_ports.len() implies k@
                            != #[trigger] port_key(
                            self.keys()[t],
                            g.nodes[self.keys()[t]]->Transform_ports[u],
                        ) by {
                            if t == i {
                                assert(g.nodes[id@]->Transform_ports[u] == named_outputs@[u]@);
                            }
                        }
                    }
                },
                _ => {},
            }
            i = i + 1;
        }
        proof {
            self.lemma_keys();
            if is_output(g, k@) {
                let (id, j) = choose|id: Seq<char>, j: int|
                    g.nodes.contains_key(id) && g.nodes[id] is Transform && 0 <= j
                        < g.nodes[id]->Transform_ports.len() && k@ == #[trigger] port_key(
                        id,
                        g.nodes[id]->Transform_ports[j],
                    );
                assert(self.keys().contains(id));
                let t = choose|t: int| 0 <= t < self.keys().len() && self.keys()[t] == id;
                assert(k@ != port_key(self.keys()[t], g.nodes[self.keys()[t]]->Transform_ports[j]));
            }
        }
        false
    }

    /// Checks that every edge draws from an existing output. Fails with one
    /// diagnostic per offending edge, in declaration order, duplicates kept.
    pub fn check_inputs(&self) -> (r: Result<(), Vec<String>>)
        requires
            self.wf(),
            dangling_inputs_have_consumers(self@),
        ensures
            r is Ok <==> input_errors(self@, self@.edges.len() as int).len() == 0,
            r matches Err(e) ==> strings_view(e@) == input_errors(self@, self@.edges.len() as int),
    {
        let ghost g = self@;
        let mut errors: Vec<String> = Vec::new();
        let m = self.edge_count();
        let mut i: usize = 0;
        proof {
            assert(strings_view(errors@) =~= input_errors(g, 0));
        }
        while i < m
            invariant
                self.wf(),
                g == self@,
                m == g.edges.len(),
                i <= m,
                dangling_inputs_have_consumers(g),
                strings_view(errors@) == input_errors(g, i as int),
            decreases m - i,
        {
            let (from, to) = self.edge_at(i);
            if !self.is_output(from) {
                proof {
                    assert(g.edges[i as int].0 == from@);
                    assert(is_consumer(g, to@));
                }
                let role = match self.get(to) {
                    Some(n) => match n {
                        Node::Transform { .. } => "transform",
                        Node::Sink { .. } => "sink",
                        Node::Source { .. } => vstd::pervasive::unreached(),
                    },
                    None => vstd::pervasive::unreached(),
                };
                proof {
                    reveal_strlit("transform");
                    reveal_strlit("sink");
                }
                let ghost before = strings_view(errors@);
                errors.push(input_text(from, role, to));
                proof {
                    assert(strings_view(errors@) =~= before.push(
                        input_message(from@, role_name(g.nodes[to@]), to@),
                    ));
                }
            }
            i = i + 1;
        }
        if errors.len() == 0 {
            Ok(())
        } else {
            Err(errors)
        }
    }
}

} // verus!
