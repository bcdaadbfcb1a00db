use vstd::prelude::*;

use crate::graph::{Graph, GraphView, Node};
use crate::text::{
    clone_strings, join, join_strings, lemma_push_to_set, sort_dedup, strictly_sorted, strings_view,
};

verus! {

/// A node that declares inputs: a transform or a sink.
pub open spec fn is_consumer(g: GraphView, k: Seq<char>) -> bool {
    g.nodes.contains_key(k) && !(g.nodes[k] is Source)
}

/// A node that only consumes.
pub open spec fn is_sink(g: GraphView, k: Seq<char>) -> bool {
    g.nodes.contains_key(k) && g.nodes[k] is Sink
}

/// Every key that some edge leads into.
pub open spec fn targets(g: GraphView) -> Set<Seq<char>> {
    g.edges.map_values(|e: (Seq<char>, Seq<char>)| e.1).to_set()
}

/// How many edge targets a traversal that has visited `path` may still enter.
pub open spec fn unvisited(g: GraphView, path: Seq<Seq<char>>) -> nat {
    targets(g).difference(path.to_set()).len()
}

/// The position of the first occurrence of `x` in `s`.
pub open spec fn first_index(s: Seq<Seq<char>>, x: Seq<char>) -> int
    decreases s.len(),
{
    if s.len() == 0 || s[0] == x {
        0
    } else {
        1 + first_index(s.drop_first(), x)
    }
}

/// The loop closed by revisiting `node` on `path` (listed from the sink
/// outwards), in the direction in which data flows: it starts and ends at
/// `node`.
pub open spec fn cycle_chain(path: Seq<Seq<char>>, node: Seq<char>) -> Seq<Seq<char>> {
    path.subrange(first_index(path, node), path.len() as int).push(node).reverse()
}

/// The diagnostic for a loop, listed in the direction in which data flows.
pub open spec fn cycle_message(chain: Seq<Seq<char>>) -> Seq<char> {
    "Cyclic dependency detected in the chain [ "@ + join(chain, " -> "@) + " ]"@
}

pub proof fn lemma_unvisited_shrinks(g: GraphView, path: Seq<Seq<char>>, node: Seq<char>)
    requires
        targets(g).contains(node),
        !path.contains(node),
    ensures
        unvisited(g, path.push(node)) < unvisited(g, path),
{
    let t = targets(g);
    let d = t.difference(path.to_set());
    lemma_push_to_set(path, node);
    assert(t.difference(path.push(node).to_set()) =~= d.remove(node));
    vstd::set_lib::lemma_len_subset(d, t);
}

/// Backward depth-first search from `node`, having come along `path` (the
/// keys from the sink down to the node before `node`). The result lists every
/// route from a source, or from a key that names no node, up to the sink, in
/// the direction in which data flows; or the first cycle met. A transform or
/// sink that no edge feeds yields no route.
pub open spec fn search(g: GraphView, node: Seq<char>, path: Seq<Seq<char>>) -> Result<
    Seq<Seq<Seq<char>>>,
    Seq<char>,
>
    decreases unvisited(g, path), 1int, 0int,
{
    if path.contains(node) {
        Err(cycle_message(cycle_chain(path, node)))
    } else if !is_consumer(g, node) {
        Ok(seq![path.push(node).reverse()])
    } else if !targets(g).contains(node) {
        Ok(Seq::empty())
    } else {
        proof {
            lemma_unvisited_shrinks(g, path, node);
        }
        search_inputs(g, node, path.push(node), 0)
    }
}

/// The search continued into the inputs of `node` declared by the edges at
/// `i` and after, in order; it stops at the first cycle.
pub open spec fn search_inputs(g: GraphView, node: Seq<char>, path: Seq<Seq<char>>, i: int) -> Result<
    Seq<Seq<Seq<char>>>,
    Seq<char>,
>
    decreases unvisited(g, path), 2int, g.edges.len() - i,
{
    if i < 0 || i >= g.edges.len() {
        Ok(Seq::empty())
    } else if g.edges[i].1 != node {
        search_inputs(g, node, path, i + 1)
    } else {
        match search(g, g.edges[i].0, path) {
            Err(e) => Err(e),
            Ok(ps) => match search_inputs(g, node, path, i + 1) {
                Err(e) => Err(e),
                Ok(rest) => Ok(ps + rest),
            },
        }
    }
}

/// The accumulated routes in front of what the rest of a search yields.
pub open spec fn prepend(acc: Seq<Seq<Seq<char>>>, r: Result<Seq<Seq<Seq<char>>>, Seq<char>>) -> Result<
    Seq<Seq<Seq<char>>>,
    Seq<char>,
> {
    match r {
        Ok(rest) => Ok(acc + rest),
        Err(e) => Err(e),
    }
}

pub open spec fn paths_view(v: Seq<Vec<String>>) -> Seq<Seq<Seq<char>>> {
    v.map_values(|p: Vec<String>| strings_view(p@))
}

pub open spec fn search_result_view(r: Result<Vec<Vec<String>>, String>) -> Result<
    Seq<Seq<Seq<char>>>,
    Seq<char>,
> {
    match r {
        Ok(v) => Ok(paths_view(v@)),
        Err(e) => Err(e@),
    }
}

pub proof fn lemma_first_index(s: Seq<Seq<char>>, x: Seq<char>, i: int)
    requires
        0 <= i < s.len(),
        s[i] == x,
        forall|j: int| 0 <= j < i ==> s[j] != x,
    ensures
        first_index(s, x) == i,
    decreases i,
{
    if i > 0 {
        assert forall|j: int| 0 <= j < i - 1 implies s.drop_first()[j] != x by {
            assert(s.drop_first()[j] == s[j + 1]);
        }
        lemma_first_index(s.drop_first(), x, i - 1);
    }
}

proof fn lemma_search_inputs_unfed(g: GraphView, node: Seq<char>, path: Seq<Seq<char>>, i: int)
    requires
        !targets(g).contains(node),
    ensures
        search_inputs(g, node, path, i) == Ok::<Seq<Seq<Seq<char>>>, Seq<char>>(Seq::empty()),
    decreases g.edges.len() - i,
{
    if 0 <= i < g.edges.len() {
        assert(g.edges.map_values(|e: (Seq<char>, Seq<char>)| e.1)[i] == g.edges[i].1);
        lemma_search_inputs_unfed(g, node, path, i + 1);
    }
}

/// `v` in reverse order.
fn reversed(v: &Vec<String>) -> (r: Vec<String>)
    ensures
        strings_view(r@) == strings_view(v@).reverse(),
{
    let mut r: Vec<String> = Vec::new();
    let mut k: usize = 0;
    while k < v.len()
        invariant
            k <= v.len(),
            strings_view(r@) == strings_view(v@).reverse().subrange(0, k as int),
        decreases v.len() - k,
    {
        let ghost before = r@;
        r.push(v[v.len() - 1 - k].clone());
        proof {
            assert(strings_view(r@) =~= strings_view(before).push(v@[v.len() - 1 - k]@));
            assert(strings_view(r@) =~= strings_view(v@).reverse().subrange(0, k + 1));
        }
        k = k + 1;
    }
    proof {
        assert(strings_view(r@) =~= strings_view(v@).reverse());
    }
    r
}

/// The diagnostic for the loop that revisiting `node` closes, where `node`
/// first stands at `i` on `path`.
fn cycle_text(path: &Vec<String>, i: usize, node: &String) -> (r: String)
    requires
        i < path.len(),
    ensures
        r@ == cycle_message(
            strings_view(path@).subrange(i as int, path.len() as int).push(node@).reverse(),
        ),
{
    let ghost target = strings_view(path@).subrange(i as int, path.len() as int).push(
        node@,
    ).reverse();
    let n = path.len();
    let mut chain: Vec<String> = Vec::new();
    chain.push(node.clone());
    let mut k: usize = n;
    proof {
        assert(strings_view(chain@) =~= target.subrange(0, 1));
    }
    while k > i
        invariant
            i <= k <= n == path.len(),
            target.len() == n - i + 1,
            target == strings_view(path@).subrange(i as int, n as int).push(node@).reverse(),
            strings_view(chain@) == target.subrange(0, n - k + 1),
        decreases k,
    {
        let ghost before = chain@;
        chain.push(path[k - 1].clone());
        proof {
            assert(target[n - k + 1] == path@[k - 1]@);
            assert(strings_view(chain@) =~= strings_view(before).push(path@[k - 1]@));
            assert(strings_view(chain@) =~= target.subrange(0, n - k + 2));
        }
        k = k - 1;
    }
    proof {
        assert(strings_view(chain@) =~= target);
    }
    let joined = join_strings(&chain, " -> ");
    let mut r = String::from_str("Cyclic dependency detected in the chain [ ");
    r.append(joined.as_str());
    r.append(" ]");
    r
}

/// Backward depth-first search from `node` along `path`.
fn paths_rec(graph: &Graph, node: &String, path: Vec<String>) -> (r: Result<Vec<Vec<String>>, String>)
    requires
        graph.wf(),
    ensures
        search_result_view(r) == search(graph@, node@, strings_view(path@)),
    decreases unvisited(graph@, strings_view(path@)),
{
    let ghost g = graph@;
    let ghost pv = strings_view(path@);
    let mut i: usize = 0;
    while i < path.len()
        invariant
            i <= path.len(),
            pv == strings_view(path@),
            forall|j: int| 0 <= j < i ==> pv[j] != node@,
        decreases path.len() - i,
    {
        if path[i] == *node {
            proof {
                lemma_first_index(pv, node@, i as int);
                assert(pv[i as int] == node@);
            }
            return Err(cycle_text(&path, i, node));
        }
        i = i + 1;
    }
    let mut walk = clone_strings(&path);
    walk.push(node.clone());
    let ghost p2 = pv.push(node@);
    proof {
        assert(strings_view(walk@) =~= p2);
        assert(!pv.contains(node@));
    }
    let consumer = match graph.get(node) {
        Some(n) => match n {
            Node::Source { .. } => false,
            _ => true,
        },
        None => false,
    };
    if !consumer {
        let single = reversed(&walk);
        let r: Vec<Vec<String>> = vec![single];
        proof {
            assert(paths_view(r@) =~= seq![p2.reverse()]);
        }
        return Ok(r);
    }
    let mut acc: Vec<Vec<String>> = Vec::new();
    let mut j: usize = 0;
    proof {
        assert(paths_view(acc@) =~= Seq::empty());
        assert(search_inputs(g, node@, p2, 0) =~= prepend(
            paths_view(acc@),
            search_inputs(g, node@, p2, 0),
        ));
    }
    while j < graph.edge_count()
        invariant
            graph.wf(),
            g == graph@,
            j <= g.edges.len(),
            strings_view(walk@) == p2,
            p2 == pv.push(node@),
            pv == strings_view(path@),
            !pv.contains(node@),
            is_consumer(g, node@),
            search_inputs(g, node@, p2, 0) == prepend(
                paths_view(acc@),
                search_inputs(g, node@, p2, j as int),
            ),
        decreases g.edges.len() - j,
    {
        let (from, to) = graph.edge_at(j);
        if *to == *node {
            proof {
                assert(g.edges.map_values(|e: (Seq<char>, Seq<char>)| e.1)[j as int] == node@);
                assert(targets(g).contains(node@));
                lemma_unvisited_shrinks(g, pv, node@);
            }
            let branch = clone_strings(&walk);
            proof {
                assert(unvisited(graph@, strings_view(branch@)) < unvisited(graph@, pv));
            }
            let sub = paths_rec(graph, from, branch);
            proof {
                assert(search_inputs(g, node@, p2, j as int) == match search(g, from@, p2) {
                    Err(e) => Err(e),
                    Ok(ps) => match search_inputs(g, node@, p2, j + 1) {
                        Err(e) => Err(e),
                        Ok(rest) => Ok(ps + rest),
                    },
                });
                assert(search(g, node@, pv) == search_inputs(g, node@, p2, 0));
            }
            match sub {
                Ok(ps) => {
                    let ghost before = acc@;
                    let ghost got = ps@;
                    let mut ps = ps;
                    acc.append(&mut ps);
                    proof {
                        assert(paths_view(acc@) =~= paths_view(before) + paths_view(got));
                        match search_inputs(g, node@, p2, j + 1) {
                            Ok(rest) => {
                                assert(paths_view(acc@) + rest =~= paths_view(before) + (
                                paths_view(got) + rest));
                            },
                            Err(_) => {},
                        }
                    }
                },
                Err(e) => {
                    return Err(e);
                },
            }
        }
        j = j + 1;
    }
    proof {
        if !targets(g).contains(node@) {
            lemma_search_inputs_unfed(g, node@, p2, 0);
            assert(paths_view(acc@) =~= Seq::empty());
        }
        assert(paths_view(acc@) + Seq::empty() =~= paths_view(acc@));
    }
    Ok(acc)
}

/// Some declared edge leads from `x` into `y`.
pub open spec fn has_edge(g: GraphView, x: Seq<char>, y: Seq<char>) -> bool {
    exists|i: int| 0 <= i < g.edges.len() && #[trigger] g.edges[i] == (x, y)
}

/// A route in the direction in which data flows: each key feeds the next
/// along a declared edge, and each key after the first declares inputs.
pub open spec fn follows_edges(g: GraphView, p: Seq<Seq<char>>) -> bool {
    forall|b: int|
        0 <= b < p.len() - 1 ==> #[trigger] has_edge(g, p[b], p[b + 1]) && is_consumer(g, p[b + 1])
}

/// A search path, from the sink outwards: every key on it declares inputs,
/// and each key is an input of the one before it.
pub open spec fn backward_chain(g: GraphView, path: Seq<Seq<char>>) -> bool {
    &&& forall|b: int| 0 <= b < path.len() ==> is_consumer(g, #[trigger] path[b])
    &&& forall|b: int| 0 <= b < path.len() - 1 ==> #[trigger] has_edge(g, path[b + 1], path[b])
}

/// Every route that a search yields follows declared edges.
pub proof fn lemma_search_follows_edges(g: GraphView, node: Seq<char>, path: Seq<Seq<char>>)
    requires
        backward_chain(g, path),
        path.len() > 0 ==> has_edge(g, node, path.last()),
    ensures
        search(g, node, path) is Ok ==> forall|p: Seq<Seq<char>>|
            #[trigger] search(g, node, path)->Ok_0.contains(p) ==> follows_edges(g, p),
    decreases unvisited(g, path), 1int, 0int,
{
    if path.contains(node) {
    } else if !is_consumer(g, node) {
        let q = path.push(node);
        let p = q.reverse();
        let l = q.len();
        assert forall|b: int| 0 <= b < p.len() - 1 implies #[trigger] has_edge(g, p[b], p[b + 1])
            && is_consumer(g, p[b + 1]) by {
            let m = l - 2 - b;
            assert(p[b] == q[m + 1]);
            assert(p[b + 1] == q[m]);
            assert(q[m] == path[m]);
            if m + 1 < l - 1 {
                assert(q[m + 1] == path[m + 1]);
                assert(has_edge(g, path[m + 1], path[m]));
            } else {
                assert(path.last() == path[m]);
            }
        }
        assert(search(g, node, path)->Ok_0 =~= seq![p]);
    } else if !targets(g).contains(node) {
    } else {
        lemma_unvisited_shrinks(g, path, node);
        let q = path.push(node);
        assert forall|b: int| 0 <= b < q.len() - 1 implies #[trigger] has_edge(g, q[b + 1], q[b]) by {
            if b < path.len() - 1 {
                assert(q[b] == path[b] && q[b + 1] == path[b + 1]);
            } else {
                assert(q[b] == path.last());
            }
        }
        assert forall|b: int| 0 <= b < q.len() implies is_consumer(g, #[trigger] q[b]) by {
            if b < path.len() {
                assert(q[b] == path[b]);
            }
        }
        lemma_search_inputs_follows_edges(g, node, q, 0);
    }
}

/// Every route that the search into the inputs of `node` yields follows
/// declared edges.
pub proof fn lemma_search_inputs_follows_edges(
    g: GraphView,
    node: Seq<char>,
    path: Seq<Seq<char>>,
    i: int,
)
    requires
        backward_chain(g, path),
        path.len() > 0,
        path.last() == node,
    ensures
        search_inputs(g, node, path, i) is Ok ==> forall|p: Seq<Seq<char>>|
            #[trigger] search_inputs(g, node, path, i)->Ok_0.contains(p) ==> follows_edges(g, p),
    decreases unvisited(g, path), 2int, g.edges.len() - i,
{
    if 0 <= i < g.edges.len() {
        lemma_search_inputs_follows_edges(g, node, path, i + 1);
        if g.edges[i].1 == node {
            assert(has_edge(g, g.edges[i].0, node)) by {
                assert(g.edges[i] == (g.edges[i].0, node));
            }
            lemma_search_follows_edges(g, g.edges[i].0, path);
            if search_inputs(g, node, path, i) is Ok {
                let ps = search(g, g.edges[i].0, path)->Ok_0;
                let rest = search_inputs(g, node, path, i + 1)->Ok_0;
                assert forall|p: Seq<Seq<char>>| #[trigger] (ps + rest).contains(p) implies follows_edges(
                    g,
                    p,
                ) by {
                    let t = choose|t: int| 0 <= t < (ps + rest).len() && (ps + rest)[t] == p;
                    if t < ps.len() {
                        assert(ps[t] == p);
                        assert(ps.contains(p));
                    } else {
                        assert(rest[t - ps.len()] == p);
                        assert(rest.contains(p));
                    }
                }
            }
        }
    }
}

/// `chain` is a loop of declared edges: each key feeds the next, and it ends
/// where it starts.
pub open spec fn is_cycle(g: GraphView, chain: Seq<Seq<char>>) -> bool {
    &&& chain.len() >= 2
    &&& chain[0] == chain.last()
    &&& forall|b: int| 0 <= b < chain.len() - 1 ==> #[trigger] has_edge(g, chain[b], chain[b + 1])
}

/// `m` is the diagnostic of a loop of declared edges.
pub open spec fn describes_cycle(g: GraphView, m: Seq<char>) -> bool {
    exists|chain: Seq<Seq<char>>| is_cycle(g, chain) && m == #[trigger] cycle_message(chain)
}

proof fn lemma_first_index_found(s: Seq<Seq<char>>, x: Seq<char>)
    requires
        s.contains(x),
    ensures
        0 <= first_index(s, x) < s.len(),
        s[first_index(s, x)] == x,
    decreases s.len(),
{
    if s[0] != x {
        let t = choose|t: int| 0 <= t < s.len() && s[t] == x;
        assert(s.drop_first()[t - 1] == x);
        lemma_first_index_found(s.drop_first(), x);
    }
}

/// A search that fails has found a loop of declared edges.
pub proof fn lemma_search_cycle_is_real(g: GraphView, node: Seq<char>, path: Seq<Seq<char>>)
    requires
        backward_chain(g, path),
        path.len() > 0 ==> has_edge(g, node, path.last()),
    ensures
        search(g, node, path) matches Err(m) ==> describes_cycle(g, m),
    decreases unvisited(g, path), 1int, 0int,
{
    if path.contains(node) {
        lemma_first_index_found(path, node);
        let fi = first_index(path, node);
        let l = path.len();
        let q = path.subrange(fi, l as int).push(node);
        let chain = q.reverse();
        let n = q.len();
        assert(chain == cycle_chain(path, node));
        assert(chain[0] == node);
        assert(chain.last() == q[0]);
        assert forall|b: int| 0 <= b < chain.len() - 1 implies #[trigger] has_edge(
            g,
            chain[b],
            chain[b + 1],
        ) by {
            let m = n - 2 - b;
            assert(chain[b] == q[m + 1]);
            assert(chain[b + 1] == q[m]);
            assert(q[m] == path[fi + m]);
            if m + 1 < n - 1 {
                assert(q[m + 1] == path[fi + m + 1]);
                assert(has_edge(g, path[fi + m + 1], path[fi + m]));
            } else {
                assert(path.last() == path[fi + m]);
            }
        }
        assert(is_cycle(g, chain));
    } else if !is_consumer(g, node) {
    } else if !targets(g).contains(node) {
    } else {
        lemma_unvisited_shrinks(g, path, node);
        let q = path.push(node);
        assert forall|b: int| 0 <= b < q.len() - 1 implies #[trigger] has_edge(g, q[b + 1], q[b]) by {
            if b < path.len() - 1 {
                assert(q[b] == path[b] && q[b + 1] == path[b + 1]);
            } else {
                assert(q[b] == path.last());
            }
        }
        assert forall|b: int| 0 <= b < q.len() implies is_consumer(g, #[trigger] q[b]) by {
            if b < path.len() {
                assert(q[b] == path[b]);
            }
        }
        lemma_search_inputs_cycle_is_real(g, node, q, 0);
    }
}

/// A search into the inputs of `node` that fails has found a loop of
/// declared edges.
pub proof fn lemma_search_inputs_cycle_is_real(
    g: GraphView,
    node: Seq<char>,
    path: Seq<Seq<char>>,
    i: int,
)
    requires
        backward_chain(g, path),
        path.len() > 0,
        path.last() == node,
    ensures
        search_inputs(g, node, path, i) matches Err(m) ==> describes_cycle(g, m),
    decreases unvisited(g, path), 2int, g.edges.len() - i,
{
    if 0 <= i < g.edges.len() {
        lemma_search_inputs_cycle_is_real(g, node, path, i + 1);
        if g.edges[i].1 == node {
            assert(has_edge(g, g.edges[i].0, node)) by {
                assert(g.edges[i] == (g.edges[i].0, node));
            }
            lemma_search_cycle_is_real(g, g.edges[i].0, path);
        }
    }
}

/// Every diagnostic that a search from some sink ends with.
pub open spec fn cycle_errors(g: GraphView) -> Set<Seq<char>> {
    Set::new(|m: Seq<char>| exists|k: Seq<char>| is_sink(g, k) && #[trigger] search(g, k, Seq::empty()) == Err::<Seq<Seq<Seq<char>>>, Seq<char>>(m))
}

/// Every route that the search from some sink yields.
pub open spec fn all_paths(g: GraphView) -> Set<Seq<Seq<char>>> {
    Set::new(
        |p: Seq<Seq<char>>|
            exists|k: Seq<char>|
                is_sink(g, k) && (#[trigger] search(g, k, Seq::empty())) is Ok && search(
                    g,
                    k,
                    Seq::empty(),
                )->Ok_0.contains(p),
    )
}

spec fn cycle_errors_upto(g: GraphView, keys: Seq<Seq<char>>, n: int) -> Set<Seq<char>> {
    Set::new(|m: Seq<char>| exists|t: int| 0 <= t < n && is_sink(g, keys[t]) && #[trigger] search(g, keys[t], Seq::empty()) == Err::<Seq<Seq<Seq<char>>>, Seq<char>>(m))
}

spec fn paths_upto(g: GraphView, keys: Seq<Seq<char>>, n: int) -> Set<Seq<Seq<char>>> {
    Set::new(
        |p: Seq<Seq<char>>|
            exists|t: int|
                0 <= t < n && is_sink(g, keys[t]) && (#[trigger] search(g, keys[t], Seq::empty())) is Ok
                    && search(g, keys[t], Seq::empty())->Ok_0.contains(p),
    )
}

proof fn lemma_concat_to_set(a: Seq<Seq<Seq<char>>>, b: Seq<Seq<Seq<char>>>)
    ensures
        (a + b).to_set() == a.to_set().union(b.to_set()),
{
    assert forall|p: Seq<Seq<char>>| (a + b).to_set().contains(p) <==> a.to_set().union(
        b.to_set(),
    ).contains(p) by {
        if (a + b).contains(p) {
            let t = choose|t: int| 0 <= t < (a + b).len() && (a + b)[t] == p;
            if t < a.len() {
                assert(a[t] == p);
            } else {
                assert(b[t - a.len()] == p);
            }
        }
        if a.contains(p) {
            let t = choose|t: int| 0 <= t < a.len() && a[t] == p;
            assert((a + b)[t] == p);
        }
        if b.contains(p) {
            let t = choose|t: int| 0 <= t < b.len() && b[t] == p;
            assert((a + b)[t + a.len()] == p);
        }
    }
    assert((a + b).to_set() =~= a.to_set().union(b.to_set()));
}

impl Graph {
    /// Every route from a source (or from a key that names no node) to each
    /// sink, in the direction in which data flows; or, where a search from
    /// any sink met a cycle, the diagnostics of all of them, sorted and
    /// without duplicates.
    pub fn paths(&self) -> (r: Result<Vec<Vec<String>>, Vec<String>>)
        requires
            self.wf(),
        ensures
            match r {
                Ok(v) => cycle_errors(self@).is_empty() && paths_view(v@).to_set() == all_paths(
                    self@,
                ),
                Err(e) => !cycle_errors(self@).is_empty() && strictly_sorted(strings_view(e@))
                    && strings_view(e@).to_set() == cycle_errors(self@),
            },
    {
        let ghost g = self@;
        let ghost keys = self.keys();
        let mut errors: Vec<String> = Vec::new();
        let mut found: Vec<Vec<String>> = Vec::new();
        let n = self.node_count();
        let mut i: usize = 0;
        proof {
            assert(strings_view(errors@).to_set() =~= cycle_errors_upto(g, keys, 0));
            assert(paths_view(found@).to_set() =~= paths_upto(g, keys, 0));
        }
        while i < n
            invariant
                self.wf(),
                g == self@,
                keys == self.keys(),
                n == keys.len(),
                i <= n,
                strings_view(errors@).to_set() == cycle_errors_upto(g, keys, i as int),
                paths_view(found@).to_set() == paths_upto(g, keys, i as int),
            decreases n - i,
        {
            let (key, node) = self.entry_at(i);
            let sink = match node {
                Node::Sink { .. } => true,
                _ => false,
            };
            let ghost old_errors = strings_view(errors@);
            let ghost old_found = paths_view(found@);
            if sink {
                match paths_rec(self, key, Vec::new()) {
                    Ok(ps) => {
                        let ghost got = paths_view(ps@);
                        let mut ps = ps;
                        found.append(&mut ps);
                        proof {
                            assert(paths_view(found@) =~= old_found + got);
                            lemma_concat_to_set(old_found, got);
                            assert(strings_view(Seq::<String>::empty()) =~= Seq::<Seq<char>>::empty());
                            assert forall|p: Seq<Seq<char>>| #[trigger] paths_upto(g, keys, i + 1).contains(p)
                                <==> paths_upto(g, keys, i as int).contains(p) || got.to_set().contains(
                                p,
                            ) by {
                                if paths_upto(g, keys, i + 1).contains(p) {
                                    let t = choose|t: int|
                                        0 <= t < i + 1 && is_sink(g, keys[t]) && (#[trigger] search(
                                            g,
                                            keys[t],
                                            Seq::empty(),
                                        )) is Ok && search(g, keys[t], Seq::empty())->Ok_0.contains(p);
                                    if t < i {
                                        assert(paths_upto(g, keys, i as int).contains(p));
                                    }
                                }
                                if got.to_set().contains(p) {
                                    assert(search(g, keys[i as int], Seq::empty()) is Ok);
                                }
                            }
                            assert(paths_view(found@).to_set() =~= paths_upto(g, keys, i + 1));
                            assert(cycle_errors_upto(g, keys, i + 1) =~= cycle_errors_upto(
                                g,
                                keys,
                                i as int,
                            ));
                        }
                    },
                    Err(e) => {
                        errors.push(e);
                        proof {
                            assert(strings_view(errors@) =~= old_errors.push(e@));
                            lemma_push_to_set(old_errors, e@);
                            assert(strings_view(Seq::<String>::empty()) =~= Seq::<Seq<char>>::empty());
                            assert(cycle_errors_upto(g, keys, i + 1) =~= cycle_errors_upto(
                                g,
                                keys,
                                i as int,
                            ).insert(e@));
                            assert(paths_upto(g, keys, i + 1) =~= paths_upto(g, keys, i as int));
                        }
                    },
                }
            } else {
                proof {
                    assert(cycle_errors_upto(g, keys, i + 1) =~= cycle_errors_upto(
                        g,
                        keys,
                        i as int,
                    ));
                    assert(paths_upto(g, keys, i + 1) =~= paths_upto(g, keys, i as int));
                }
            }
            i = i + 1;
        }
        proof {
            self.lemma_keys();
            assert forall|m: Seq<char>| #[trigger] cycle_errors(g).contains(m) <==> cycle_errors_upto(g, keys, n as int).contains(m) by {
                if cycle_errors(g).contains(m) {
                    let k = choose|k: Seq<char>| is_sink(g, k) && #[trigger] search(g, k, Seq::empty()) == Err::<Seq<Seq<Seq<char>>>, Seq<char>>(m);
                    assert(keys.contains(k));
                    let t = choose|t: int| 0 <= t < keys.len() && keys[t] == k;
                    assert(search(g, keys[t], Seq::empty()) == Err::<Seq<Seq<Seq<char>>>, Seq<char>>(m));
                }
                if cycle_errors_upto(g, keys, n as int).contains(m) {
                    let t = choose|t: int| 0 <= t < n && is_sink(g, keys[t]) && #[trigger] search(g, keys[t], Seq::empty()) == Err::<Seq<Seq<Seq<char>>>, Seq<char>>(m);
                    assert(search(g, keys[t], Seq::empty()) == Err::<Seq<Seq<Seq<char>>>, Seq<char>>(m));
                }
            }
            assert(cycle_errors(g) =~= cycle_errors_upto(g, keys, n as int));
            assert forall|p: Seq<Seq<char>>| #[trigger] all_paths(g).contains(p) <==> paths_upto(g, keys, n as int).contains(p) by {
                if all_paths(g).contains(p) {
                    let k = choose|k: Seq<char>|
                        is_sink(g, k) && (#[trigger] search(g, k, Seq::empty())) is Ok && search(
                            g,
                            k,
                            Seq::empty(),
                        )->Ok_0.contains(p);
                    assert(keys.contains(k));
                    let t = choose|t: int| 0 <= t < keys.len() && keys[t] == k;
                    assert(search(g, keys[t], Seq::empty()) is Ok);
                }
                if paths_upto(g, keys, n as int).contains(p) {
                    let t = choose|t: int|
                        0 <= t < n && is_sink(g, keys[t]) && (#[trigger] search(g, keys[t], Seq::empty()))
                            is Ok && search(g, keys[t], Seq::empty())->Ok_0.contains(p);
                    assert(search(g, keys[t], Seq::empty()) is Ok);
                }
            }
            assert(all_paths(g) =~= paths_upto(g, keys, n as int));
        }
        if errors.len() == 0 {
            proof {
                assert(strings_view(errors@).to_set() =~= Set::empty());
            }
            Ok(found)
        } else {
            proof {
                assert(strings_view(errors@).to_set().contains(strings_view(errors@)[0]));
            }
            Err(sort_dedup(errors))
        }
    }
}

} // verus!
