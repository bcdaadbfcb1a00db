use vstd::prelude::*;

use crate::graph::{Graph, GraphView, Node, NodeView};
use crate::kind::{compatible, kind_name, DataType};
use crate::paths::{
    all_paths, cycle_errors, follows_edges, has_edge, is_consumer, is_sink, lemma_search_follows_edges,
    paths_view, backward_chain,
};
use crate::text::{lemma_push_to_set, sort_dedup, strictly_sorted, strings_view};

verus! {

/// The kind that a node hands on to its consumers.
pub open spec fn producer_kind(n: NodeView) -> DataType {
    match n {
        NodeView::Source { ty } => ty,
        NodeView::Transform { out_ty, .. } => out_ty,
        NodeView::Sink { ty } => ty,
    }
}

/// The kind that a node accepts from its inputs.
pub open spec fn consumer_kind(n: NodeView) -> DataType {
    match n {
        NodeView::Source { ty } => ty,
        NodeView::Transform { in_ty, .. } => in_ty,
        NodeView::Sink { ty } => ty,
    }
}

pub open spec fn mismatch_message(x: Seq<char>, k1: DataType, y: Seq<char>, k2: DataType) -> Seq<
    char,
> {
    "Data type mismatch between "@ + x + " ("@ + kind_name(k1) + ") and "@ + y + " ("@ + kind_name(
        k2,
    ) + ")"@
}

/// `x` feeds `y`, both are declared, and their kinds do not fit.
pub open spec fn pair_mismatch(g: GraphView, x: Seq<char>, y: Seq<char>) -> bool {
    g.nodes.contains_key(x) && g.nodes.contains_key(y) && !compatible(
        producer_kind(g.nodes[x]),
        consumer_kind(g.nodes[y]),
    )
}

pub open spec fn pair_message(g: GraphView, x: Seq<char>, y: Seq<char>) -> Seq<char> {
    mismatch_message(x, producer_kind(g.nodes[x]), y, consumer_kind(g.nodes[y]))
}

/// The diagnostics for the neighbours on `p` whose kinds do not fit.
pub open spec fn path_mismatches(g: GraphView, p: Seq<Seq<char>>) -> Set<Seq<char>> {
    Set::new(
        |m: Seq<char>|
            exists|b: int|
                0 <= b < p.len() - 1 && #[trigger] pair_mismatch(g, p[b], p[b + 1]) && m
                    == pair_message(g, p[b], p[b + 1]),
    )
}

/// The kind diagnostics over every route to every sink.
pub open spec fn mismatch_errors(g: GraphView) -> Set<Seq<char>> {
    Set::new(
        |m: Seq<char>|
            exists|p: Seq<Seq<char>>| #[trigger] all_paths(g).contains(p) && path_mismatches(
                g,
                p,
            ).contains(m),
    )
}

/// What the type check reports: the cycles if there are any, else the kind
/// mismatches.
pub open spec fn typecheck_errors(g: GraphView) -> Set<Seq<char>> {
    if cycle_errors(g).is_empty() {
        mismatch_errors(g)
    } else {
        cycle_errors(g)
    }
}

/// No edge draws from a sink: sinks have no output.
pub open spec fn no_sink_producer(g: GraphView) -> bool {
    forall|i: int| 0 <= i < g.edges.len() ==> !is_sink(g, #[trigger] g.edges[i].0)
}

spec fn mismatches_upto(g: GraphView, ps: Seq<Seq<Seq<char>>>, n: int) -> Set<Seq<char>> {
    Set::new(
        |m: Seq<char>|
            exists|a: int| 0 <= a < n && #[trigger] path_mismatches(g, ps[a]).contains(m),
    )
}

spec fn pair_mismatches_upto(g: GraphView, p: Seq<Seq<char>>, n: int) -> Set<Seq<char>> {
    Set::new(
        |m: Seq<char>|
            exists|b: int|
                0 <= b < n && #[trigger] pair_mismatch(g, p[b], p[b + 1]) && m == pair_message(
                    g,
                    p[b],
                    p[b + 1],
                ),
    )
}

fn mismatch_text(x: &String, k1: DataType, y: &String, k2: DataType) -> (r: String)
    ensures
        r@ == mismatch_message(x@, k1, y@, k2),
{
    let mut r = String::from_str("Data type mismatch between ");
    r.append(x.as_str());
    r.append(" (");
    r.append(k1.name().as_str());
    r.append(") and ");
    r.append(y.as_str());
    r.append(" (");
    r.append(k2.name().as_str());
    r.append(")");
    r
}

impl Graph {
    /// Adds to `errors` the diagnostic of each neighbouring pair on `p` whose
    /// kinds do not fit.
    fn check_path(&self, p: &Vec<String>, errors: &mut Vec<String>)
        requires
            self.wf(),
            follows_edges(self@, strings_view(p@)),
            no_sink_producer(self@),
        ensures
            strings_view(final(errors)@).to_set() == strings_view(old(errors)@).to_set().union(
                path_mismatches(self@, strings_view(p@)),
            ),
    {
        let ghost g = self@;
        let ghost pv = strings_view(p@);
        let ghost start = strings_view(errors@).to_set();
        if p.len() < 2 {
            proof {
                assert(path_mismatches(g, pv) =~= Set::empty());
                assert(start.union(Set::empty()) =~= start);
            }
            return;
        }
        let mut b: usize = 0;
        proof {
            assert(pair_mismatches_upto(g, pv, 0) =~= Set::empty());
            assert(start.union(Set::empty()) =~= start);
        }
        while b + 1 < p.len()
            invariant
                self.wf(),
                g == self@,
                pv == strings_view(p@),
                follows_edges(g, pv),
                no_sink_producer(g),
                b + 1 <= p.len(),
                strings_view(errors@).to_set() == start.union(pair_mismatches_upto(g, pv, b as int)),
            decreases p.len() - b,
        {
            let x = &p[b];
            let y = &p[b + 1];
            let ghost before = strings_view(errors@);
            proof {
                assert(pv[b as int] == x@ && pv[b + 1] == y@);
                assert(pv.len() == p@.len());
                assert(0 <= b < pv.len() - 1);
                let bi: int = b as int;
                assert(has_edge(g, pv[bi], pv[bi + 1]));
                assert(is_consumer(g, pv[bi + 1]));
                if g.nodes.contains_key(x@) && g.nodes[x@] is Sink {
                    let e = choose|e: int| 0 <= e < g.edges.len() && #[trigger] g.edges[e] == (x@, y@);
                    assert(!is_sink(g, g.edges[e].0));
                }
            }
            let mut hit = false;
            match (self.get(x), self.get(y)) {
                (Some(nx), Some(ny)) => {
                    let k1 = match nx {
                        Node::Source { ty } => *ty,
                        Node::Transform { out_ty, .. } => *out_ty,
                        Node::Sink { .. } => vstd::pervasive::unreached(),
                    };
                    let k2 = match ny {
                        Node::Transform { in_ty, .. } => *in_ty,
                        Node::Sink { ty } => *ty,
                        Node::Source { .. } => vstd::pervasive::unreached(),
                    };
                    if !k1.is_compatible_with(&k2) {
                        proof {
                            assert(k1 == producer_kind(g.nodes[x@]));
                            assert(k2 == consumer_kind(g.nodes[y@]));
                        }
                        errors.push(mismatch_text(x, k1, y, k2));
                        hit = true;
                    }
                },
                _ => {},
            }
            proof {
                let next = pair_mismatches_upto(g, pv, b + 1);
                let prev = pair_mismatches_upto(g, pv, b as int);
                if hit {
                    let m = pair_message(g, pv[b as int], pv[b + 1]);
                    assert(pair_mismatch(g, pv[b as int], pv[b + 1]));
                    assert(strings_view(errors@) =~= before.push(m));
                    lemma_push_to_set(before, m);
                    assert(next =~= prev.insert(m));
                    assert(strings_view(errors@).to_set() =~= start.union(next));
                } else {
                    assert(strings_view(errors@) =~= before);
                    assert(next =~= prev);
                }
            }
            b = b + 1;
        }
        proof {
            assert(pair_mismatches_upto(g, pv, b as int) =~= path_mismatches(g, pv));
        }
    }

    /// Checks the kinds along every route to every sink. Fails with the
    /// cycle diagnostics if the graph has a cycle, else with the kind
    /// mismatches; either way sorted and without duplicates.
    pub fn typecheck(&self) -> (r: Result<(), Vec<String>>)
        requires
            self.wf(),
            no_sink_producer(self@),
        ensures
            r is Ok <==> typecheck_errors(self@).is_empty(),
            r matches Err(e) ==> strictly_sorted(strings_view(e@)) && strings_view(e@).to_set()
                == typecheck_errors(self@),
    {
        let ghost g = self@;
        let found = match self.paths() {
            Ok(v) => v,
            Err(e) => {
                return Err(e);
            },
        };
        let ghost ps = paths_view(found@);
        proof {
            assert forall|a: int| 0 <= a < ps.len() implies follows_edges(g, #[trigger] ps[a]) by {
                assert(all_paths(g).contains(ps[a])) by {
                    assert(ps.to_set().contains(ps[a]));
                }
                let k = choose|k: Seq<char>|
                    is_sink(g, k) && (#[trigger] crate::paths::search(g, k, Seq::empty())) is Ok
                        && crate::paths::search(g, k, Seq::empty())->Ok_0.contains(ps[a]);
                assert(backward_chain(g, Seq::empty()));
                lemma_search_follows_edges(g, k, Seq::empty());
            }
        }
        let mut errors: Vec<String> = Vec::new();
        let mut a: usize = 0;
        proof {
            assert(strings_view(errors@).to_set() =~= mismatches_upto(g, ps, 0));
        }
        while a < found.len()
            invariant
                self.wf(),
                g == self@,
                ps == paths_view(found@),
                no_sink_producer(g),
                forall|t: int| 0 <= t < ps.len() ==> follows_edges(g, #[trigger] ps[t]),
                a <= found.len(),
                strings_view(errors@).to_set() == mismatches_upto(g, ps, a as int),
            decreases found.len() - a,
        {
            proof {
                assert(ps[a as int] == strings_view(found@[a as int]@));
            }
            self.check_path(&found[a], &mut errors);
            proof {
                assert(mismatches_upto(g, ps, a + 1) =~= mismatches_upto(g, ps, a as int).union(
                    path_mismatches(g, ps[a as int]),
                ));
            }
            a = a + 1;
        }
        proof {
            assert forall|m: Seq<char>| #[trigger] mismatch_errors(g).contains(m) <==> mismatches_upto(g, ps, a as int).contains(m) by {
                if mismatch_errors(g).contains(m) {
                    let p = choose|p: Seq<Seq<char>>| #[trigger] all_paths(g).contains(p) && path_mismatches(g, p).contains(m);
                    assert(ps.to_set().contains(p));
                    let t = choose|t: int| 0 <= t < ps.len() && ps[t] == p;
                    assert(path_mismatches(g, ps[t]).contains(m));
                }
                if mismatches_upto(g, ps, a as int).contains(m) {
                    let t = choose|t: int| 0 <= t < a && #[trigger] path_mismatches(g, ps[t]).contains(m);
                    assert(ps.to_set().contains(ps[t]));
                    assert(all_paths(g).contains(ps[t]));
                }
            }
            assert(mismatch_errors(g) =~= mismatches_upto(g, ps, a as int));
        }
        if errors.len() == 0 {
            proof {
                assert(strings_view(errors@).to_set() =~= Set::empty());
            }
            Ok(())
        } else {
            proof {
                assert(strings_view(errors@).to_set().contains(strings_view(errors@)[0]));
            }
            Err(sort_dedup(errors))
        }
    }
}

} // verus!
