use vstd::prelude::*;

use crate::graph::GraphView;
use crate::inputs::{is_output, port_key};
use crate::kind::DataType;
use crate::paths::{
    all_paths, backward_chain, cycle_errors, cycle_message, first_index, follows_edges, has_edge,
    is_consumer, is_cycle, is_sink, lemma_search_cycle_is_real, lemma_search_follows_edges, search,
    search_inputs, targets,
};
use crate::typing::{
    consumer_kind, mismatch_errors, mismatch_message, no_sink_producer, pair_mismatch,
    path_mismatches, producer_kind, typecheck_errors,
};

verus! {

/// On every route that the type check walks, each pair of neighbours is a
/// producer (never a sink) followed by a consumer (a transform or a sink),
/// so the check never meets a pairing that cannot arise.
pub proof fn lemma_checked_pairs_are_well_formed(g: GraphView, p: Seq<Seq<char>>)
    requires
        no_sink_producer(g),
        all_paths(g).contains(p),
    ensures
        forall|b: int|
            0 <= b < p.len() - 1 ==> #[trigger] is_consumer(g, p[b + 1]) && !is_sink(g, p[b]),
{
    let k = choose|k: Seq<char>|
        is_sink(g, k) && (#[trigger] search(g, k, Seq::empty())) is Ok && search(
            g,
            k,
            Seq::empty(),
        )->Ok_0.contains(p);
    assert(backward_chain(g, Seq::empty()));
    lemma_search_follows_edges(g, k, Seq::empty());
    assert(follows_edges(g, p));
    assert forall|b: int| 0 <= b < p.len() - 1 implies #[trigger] is_consumer(g, p[b + 1]) && !is_sink(
        g,
        p[b],
    ) by {
        assert(has_edge(g, p[b], p[b + 1]));
        let e = choose|e: int| 0 <= e < g.edges.len() && #[trigger] g.edges[e] == (p[b], p[b + 1]);
        assert(!is_sink(g, g.edges[e].0));
    }
}

/// When the graph has a cycle, the type check reports exactly the cycle
/// diagnostics and no kind mismatch.
pub proof fn lemma_cycles_short_circuit_typecheck(g: GraphView)
    requires
        !cycle_errors(g).is_empty(),
    ensures
        typecheck_errors(g) == cycle_errors(g),
{
}

proof fn lemma_skip_other_inputs(g: GraphView, x: Seq<char>, path: Seq<Seq<char>>, j: int, i: int)
    requires
        0 <= j <= i < g.edges.len(),
        forall|t: int| 0 <= t < i ==> (#[trigger] g.edges[t]).1 != x,
    ensures
        search_inputs(g, x, path, j) == search_inputs(g, x, path, i),
    decreases i - j,
{
    if j < i {
        lemma_skip_other_inputs(g, x, path, j + 1, i);
    }
}

/// A transform that declares itself as its first input is reported as the
/// two-element loop `[ x -> x ]`.
pub proof fn lemma_self_reference(g: GraphView, x: Seq<char>, path: Seq<Seq<char>>, i: int)
    requires
        is_consumer(g, x),
        !path.contains(x),
        0 <= i < g.edges.len(),
        g.edges[i] == (x, x),
        forall|t: int| 0 <= t < i ==> (#[trigger] g.edges[t]).1 != x,
    ensures
        search(g, x, path) == Err::<Seq<Seq<Seq<char>>>, Seq<char>>(cycle_message(seq![x, x])),
{
    let p2 = path.push(x);
    assert(g.edges.map_values(|e: (Seq<char>, Seq<char>)| e.1)[i] == x);
    assert(targets(g).contains(x));
    lemma_skip_other_inputs(g, x, p2, 0, i);
    assert(p2.contains(x)) by {
        assert(p2[path.len() as int] == x);
    }
    assert forall|t: int| 0 <= t < path.len() implies p2[t] != x by {
        assert(p2[t] == path[t]);
    }
    crate::paths::lemma_first_index(p2, x, path.len() as int);
    assert(first_index(p2, x) == path.len());
    assert(p2.subrange(path.len() as int, p2.len() as int).push(x).reverse() =~= seq![x, x]);
    assert(search(g, x, p2) == Err::<Seq<Seq<Seq<char>>>, Seq<char>>(cycle_message(seq![x, x])));
    assert(search_inputs(g, x, p2, i) == Err::<Seq<Seq<Seq<char>>>, Seq<char>>(
        cycle_message(seq![x, x]),
    ));
    assert(search(g, x, path) == search_inputs(g, x, p2, 0));
}

/// A wildcard on either side of a pair never makes a mismatch.
pub proof fn lemma_wildcard_never_mismatches(g: GraphView, x: Seq<char>, y: Seq<char>)
    requires
        g.nodes.contains_key(x),
        g.nodes.contains_key(y),
        producer_kind(g.nodes[x]) == DataType::Any || consumer_kind(g.nodes[y]) == DataType::Any,
    ensures
        !pair_mismatch(g, x, y),
{
}

/// Every kind diagnostic names a declared edge whose two kinds differ and
/// neither of which is the wildcard.
pub proof fn lemma_mismatches_are_real(g: GraphView, m: Seq<char>)
    requires
        mismatch_errors(g).contains(m),
    ensures
        exists|x: Seq<char>, y: Seq<char>|
            #[trigger] has_edge(g, x, y) && g.nodes.contains_key(x) && g.nodes.contains_key(y)
                && producer_kind(g.nodes[x]) != DataType::Any && consumer_kind(g.nodes[y])
                != DataType::Any && producer_kind(g.nodes[x]) != consumer_kind(g.nodes[y]) && m
                == mismatch_message(x, producer_kind(g.nodes[x]), y, consumer_kind(g.nodes[y])),
{
    let p = choose|p: Seq<Seq<char>>| #[trigger] all_paths(g).contains(p) && path_mismatches(
        g,
        p,
    ).contains(m);
    let k = choose|k: Seq<char>|
        is_sink(g, k) && (#[trigger] search(g, k, Seq::empty())) is Ok && search(
            g,
            k,
            Seq::empty(),
        )->Ok_0.contains(p);
    assert(backward_chain(g, Seq::empty()));
    lemma_search_follows_edges(g, k, Seq::empty());
    let b = choose|b: int|
        0 <= b < p.len() - 1 && #[trigger] pair_mismatch(g, p[b], p[b + 1]) && m
            == crate::typing::pair_message(g, p[b], p[b + 1]);
    assert(has_edge(g, p[b], p[b + 1]));
}

/// A graph without a loop of declared edges gets no cycle diagnostic.
pub proof fn lemma_acyclic_graph_has_no_cycle_errors(g: GraphView)
    requires
        forall|chain: Seq<Seq<char>>| !is_cycle(g, chain),
    ensures
        cycle_errors(g).is_empty(),
{
    if !cycle_errors(g).is_empty() {
        let m = cycle_errors(g).choose();
        assert(cycle_errors(g).contains(m));
        let k = choose|k: Seq<char>|
            is_sink(g, k) && #[trigger] search(g, k, Seq::empty()) == Err::<
                Seq<Seq<Seq<char>>>,
                Seq<char>,
            >(m);
        assert(backward_chain(g, Seq::empty()));
        lemma_search_cycle_is_real(g, k, Seq::empty());
    }
    assert(cycle_errors(g) =~= Set::empty());
}

/// Each named port of a transform is an output, under `<id>.<port>`.
pub proof fn lemma_named_port_is_output(g: GraphView, id: Seq<char>, j: int)
    requires
        g.nodes.contains_key(id),
        g.nodes[id] is Transform,
        0 <= j < g.nodes[id]->Transform_ports.len(),
    ensures
        is_output(g, port_key(id, g.nodes[id]->Transform_ports[j])),
{
}

} // verus!
