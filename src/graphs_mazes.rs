//! Shortest paths by Dijkstra's algorithm over any graph that lists the
//! weighted edges leaving a vertex, and a grid maze as such a graph.
use std::collections::HashMap;
use vstd::std_specs::hash::spec_hash_map_len;
use vstd::prelude::*;
use vstd::std_specs::iter::IteratorSpec;

use crate::search_proofs::{
    all_relaxed, lemma_exhausted_result, lemma_reached_result, lemma_relaxed_lowered, lemma_route_extend,
    lemma_run_step, lemma_run_stays, lemma_settle_state, relaxed, search_state, seeded,
};
use crate::frontier::{
    find_min_key_value_pair, first_min_index, frontier_position, frontier_view, key_index,
    lemma_frontier_absent, lemma_frontier_empty, lemma_frontier_entry, lemma_frontier_push,
    lemma_frontier_remove, lemma_frontier_update,
};

verus! {

broadcast use vstd::std_specs::hash::group_hash_axioms;

/// A graph given by the weighted edges that leave each vertex.
pub trait Neighbors {
    /// The `(neighbor, weight)` pairs of the edges leaving `vertex`.
    spec fn spec_neighbors(&self, vertex: u64) -> Seq<(u64, u64)>;

    /// Lists the `(neighbor, weight)` pairs of the edges leaving `vertex`.
    fn list_neighbors_and_distances(&self, vertex: &u64) -> (r: Vec<(u64, u64)>)
        ensures
            r@ == self.spec_neighbors(*vertex),
    ;
}

/// Sum of the weights of a walk's edges.
pub open spec fn walk_length(ws: Seq<u64>) -> int
    decreases ws.len(),
{
    if ws.len() == 0 {
        0
    } else {
        walk_length(ws.drop_last()) + ws.last()
    }
}

/// `vs` is a walk of `g` from one of `sources` to `x`, whose `i`-th edge goes
/// from `vs[i]` to `vs[i + 1]` with weight `ws[i]`.
pub open spec fn is_route<G: Neighbors>(
    g: &G,
    sources: Seq<u64>,
    vs: Seq<u64>,
    ws: Seq<u64>,
    x: u64,
) -> bool {
    &&& vs.len() == ws.len() + 1
    &&& sources.contains(vs[0])
    &&& vs.last() == x
    &&& forall|i: int|
        0 <= i < ws.len() ==> #[trigger] g.spec_neighbors(vs[i]).contains((vs[i + 1], ws[i]))
}

/// Some route from `sources` to `x` has length `d`.
pub open spec fn has_route_of_length<G: Neighbors>(
    g: &G,
    sources: Seq<u64>,
    x: u64,
    d: int,
) -> bool {
    exists|vs: Seq<u64>, ws: Seq<u64>| #[trigger] is_route(g, sources, vs, ws, x) && walk_length(ws) == d
}

/// No route from `sources` to `x` is shorter than `d`.
pub open spec fn no_shorter_route<G: Neighbors>(
    g: &G,
    sources: Seq<u64>,
    x: u64,
    d: int,
) -> bool {
    forall|vs: Seq<u64>, ws: Seq<u64>| #[trigger] is_route(g, sources, vs, ws, x) ==> d <= walk_length(ws)
}

/// `d` is the length of a shortest route from `sources` to `x`.
pub open spec fn is_shortest_distance<G: Neighbors>(
    g: &G,
    sources: Seq<u64>,
    x: u64,
    d: int,
) -> bool {
    has_route_of_length(g, sources, x, d) && no_shorter_route(g, sources, x, d)
}

/// What a search from `sources` towards `targets` returns: the settled
/// distances `dist`, the predecessors `pred` and the target reached, if any.
pub open spec fn is_search_result<G: Neighbors>(
    g: &G,
    sources: Seq<u64>,
    targets: Seq<u64>,
    dist: Map<u64, u64>,
    pred: Map<u64, u64>,
    reached: Option<u64>,
) -> bool {
    // each settled distance is the length of a shortest route from the sources
    &&& forall|x: u64| #[trigger]
        dist.contains_key(x) ==> is_shortest_distance(g, sources, x, dist[x] as int)
    // no edge followed from a settled vertex leads to a settled vertex farther than it allows
    &&& forall|u: u64, v: u64, w: u64|
        dist.contains_key(u) && reached != Some(u) && #[trigger] g.spec_neighbors(u).contains((v, w))
            && dist.contains_key(v) ==> dist[v] <= dist[u] + w
    // a predecessor is settled, and linked to its vertex by an edge that gives its distance
    &&& forall|v: u64| #[trigger]
        pred.contains_key(v) ==> {
            &&& dist.contains_key(pred[v])
            &&& reached != Some(pred[v])
            &&& exists|w: u64| #[trigger]
                g.spec_neighbors(pred[v]).contains((v, w)) && (dist.contains_key(v) ==> dist[v]
                    == dist[pred[v]] + w)
        }
    // the walk back along predecessors ends at a source: sources have no
    // predecessor, and every other settled vertex has one
    &&& forall|s: u64| #[trigger] sources.contains(s) ==> !pred.contains_key(s)
    &&& forall|x: u64|
        dist.contains_key(x) && !sources.contains(x) ==> #[trigger] pred.contains_key(x)
    &&& match reached {
        Some(t) => {
            &&& targets.contains(t)
            &&& dist.contains_key(t)
            &&& forall|x: u64| dist.contains_key(x) && x != t ==> !(#[trigger] targets.contains(x))
            &&& forall|y: u64, vs: Seq<u64>, ws: Seq<u64>|
                targets.contains(y) && #[trigger] is_route(g, sources, vs, ws, y) ==> dist[t]
                    <= walk_length(ws)
            // every vertex closer to the sources than the target reached is settled
            &&& forall|x: u64, vs: Seq<u64>, ws: Seq<u64>|
                #[trigger] is_route(g, sources, vs, ws, x) && walk_length(ws) < dist[t]
                    ==> dist.contains_key(x)
        },
        None => {
            &&& forall|x: u64| dist.contains_key(x) ==> !(#[trigger] targets.contains(x))
            &&& forall|x: u64, vs: Seq<u64>, ws: Seq<u64>|
                #[trigger] is_route(g, sources, vs, ws, x) && walk_length(ws) <= u64::MAX
                    ==> dist.contains_key(x)
        },
    }
}

/// Whether `vertex` is in `vertices`.
pub fn contains_vertex(vertices: &Vec<u64>, vertex: u64) -> (r: bool)
    ensures
        r == vertices@.contains(vertex),
{
    let mut i: usize = 0;
    while i < vertices.len()
        invariant
            i <= vertices@.len(),
            forall|j: int| 0 <= j < i ==> vertices@[j] != vertex,
        decreases vertices@.len() - i,
    {
        if vertices[i] == vertex {
            proof {
                assert(vertices@[i as int] == vertex);
            }
            return true;
        }
        i = i + 1;
    }
    false
}

/// A state of the search: the open entries in insertion order, the settled
/// distances, the predecessors, and the target reached, if any.
pub struct SearchState {
    pub frontier: Seq<(u64, u64)>,
    pub settled: Map<u64, u64>,
    pub preds: Map<u64, u64>,
    pub reached: Option<u64>,
}

/// The open entries after seeding: each source at distance zero, in order of
/// first appearance.
pub open spec fn seed_frontier(sources: Seq<u64>) -> Seq<(u64, u64)>
    decreases sources.len(),
{
    if sources.len() == 0 {
        Seq::empty()
    } else {
        let fr = seed_frontier(sources.drop_last());
        let s = sources.last();
        match key_index(fr, s) {
            Some(i) => fr.update(i, (s, 0u64)),
            None => fr.push((s, 0u64)),
        }
    }
}

/// The state in which the search starts.
pub open spec fn initial_state(sources: Seq<u64>) -> SearchState {
    SearchState {
        frontier: seed_frontier(sources),
        settled: Map::empty(),
        preds: Map::empty(),
        reached: None,
    }
}

/// Relaxing the edge from `u`, settled at `d`, to `v` with weight `w`: an
/// unsettled `v` is opened, or its open distance lowered, with `u` as its
/// predecessor, when `d + w` fits and improves on what was open.
pub open spec fn relax_edge(
    fr: Seq<(u64, u64)>,
    preds: Map<u64, u64>,
    settled: Map<u64, u64>,
    u: u64,
    d: u64,
    v: u64,
    w: u64,
) -> (Seq<(u64, u64)>, Map<u64, u64>) {
    if settled.contains_key(v) || d + w > u64::MAX {
        (fr, preds)
    } else {
        let nd = (d + w) as u64;
        match key_index(fr, v) {
            Some(i) => if nd < fr[i].1 {
                (fr.update(i, (v, nd)), preds.insert(v, u))
            } else {
                (fr, preds)
            },
            None => (fr.push((v, nd)), preds.insert(v, u)),
        }
    }
}

/// Relaxing the edges from `u` in their order.
pub open spec fn relax_edges(
    fr: Seq<(u64, u64)>,
    preds: Map<u64, u64>,
    settled: Map<u64, u64>,
    u: u64,
    d: u64,
    edges: Seq<(u64, u64)>,
) -> (Seq<(u64, u64)>, Map<u64, u64>)
    decreases edges.len(),
{
    if edges.len() == 0 {
        (fr, preds)
    } else {
        let (front1, preds1) = relax_edges(fr, preds, settled, u, d, edges.drop_last());
        relax_edge(front1, preds1, settled, u, d, edges.last().0, edges.last().1)
    }
}

/// The search has stopped: a target was reached or nothing is open.
pub open spec fn is_final(st: SearchState) -> bool {
    st.reached is Some || st.frontier.len() == 0
}

/// One settlement: the first open entry of least distance is settled; the
/// search stops there if it is a target, else its edges are relaxed.
pub open spec fn search_step<G: Neighbors>(g: &G, targets: Seq<u64>, st: SearchState) -> SearchState {
    if is_final(st) {
        st
    } else {
        let m = first_min_index(st.frontier);
        let v = st.frontier[m].0;
        let d = st.frontier[m].1;
        let fr = st.frontier.remove(m);
        let settled = st.settled.insert(v, d);
        if targets.contains(v) {
            SearchState { frontier: fr, settled, preds: st.preds, reached: Some(v) }
        } else {
            let (front2, preds2) = relax_edges(fr, st.preds, settled, v, d, g.spec_neighbors(v));
            SearchState { frontier: front2, settled, preds: preds2, reached: None }
        }
    }
}

/// The state after `k` steps.
pub open spec fn search_run<G: Neighbors>(g: &G, targets: Seq<u64>, st: SearchState, k: nat) -> SearchState
    decreases k,
{
    if k == 0 {
        st
    } else {
        search_run(g, targets, search_step(g, targets, st), (k - 1) as nat)
    }
}

/// `dist`, `pred` and `reached` are where the search from `sources` stops.
pub open spec fn is_search_outcome<G: Neighbors>(
    g: &G,
    sources: Seq<u64>,
    targets: Seq<u64>,
    dist: Map<u64, u64>,
    pred: Map<u64, u64>,
    reached: Option<u64>,
) -> bool {
    exists|k: nat|
        {
            let st = #[trigger] search_run(g, targets, initial_state(sources), k);
            &&& is_final(st)
            &&& st.settled == dist
            &&& st.preds == pred
            &&& st.reached == reached
        }
}

/// Computes shortest distances from `start_vertices`, settling vertices in
/// order of distance and stopping at the first of `end_vertices` settled.
/// Returns the settled distances, the predecessors and the target reached.
/// An edge whose end would lie beyond `u64::MAX` is not followed.
pub fn solve_dijkstra<G: Neighbors>(graph: &G, start_vertices: Vec<u64>, end_vertices: Vec<u64>) -> (r: (
    HashMap<u64, u64>,
    HashMap<u64, u64>,
    Option<u64>,
))
    ensures
        is_search_result(graph, start_vertices@, end_vertices@, r.0@, r.1@, r.2),
        is_search_outcome(graph, start_vertices@, end_vertices@, r.0@, r.1@, r.2),
{
    let ghost sources = start_vertices@;
    let ghost targets = end_vertices@;
    let mut processed: HashMap<u64, u64> = HashMap::new();
    let mut predecessors: HashMap<u64, u64> = HashMap::new();
    let mut frontier: Vec<(u64, u64)> = Vec::new();
    let ghost mut open: Map<u64, u64> = Map::empty();
    proof {
        lemma_frontier_empty();
    }

    // every start vertex is open at distance zero
    let mut i: usize = 0;
    while i < start_vertices.len()
        invariant
            sources == start_vertices@,
            i <= sources.len(),
            frontier_view(frontier@, open),
            forall|y: u64| #[trigger] open.contains_key(y) ==> open[y] == 0 && sources.contains(y),
            forall|j: int| 0 <= j < i ==> #[trigger] open.contains_key(sources[j]),
            frontier@ == seed_frontier(sources.subrange(0, i as int)),
        decreases sources.len() - i,
    {
        let s = start_vertices[i];
        proof {
            assert(sources.subrange(0, i + 1).drop_last() =~= sources.subrange(0, i as int));
        }
        match frontier_position(&frontier, s) {
            Some(p) => {
                proof {
                    lemma_frontier_update(frontier@, open, p as int, 0);
                    open = open.insert(s, 0);
                }
                frontier.set(p, (s, 0));
            },
            None => {
                proof {
                    lemma_frontier_absent(frontier@, open, s);
                    lemma_frontier_push(frontier@, open, s, 0);
                    open = open.insert(s, 0);
                }
                frontier.push((s, 0));
            },
        }
        proof {
            assert(sources.contains(sources[i as int]));
        }
        i = i + 1;
    }
    proof {
        assert(sources.subrange(0, sources.len() as int) =~= sources);
        assert forall|y: u64| #[trigger] open.contains_key(y) implies has_route_of_length(
            graph,
            sources,
            y,
            open[y] as int,
        ) by {
            let vs = seq![y];
            let ws = Seq::<u64>::empty();
            assert(is_route(graph, sources, vs, ws, y));
        }
        assert forall|s: u64| #[trigger] sources.contains(s) implies open.contains_key(s) && open[s]
            == 0 by {
            let j = choose|j: int| 0 <= j < sources.len() && sources[j] == s;
            assert(open.contains_key(sources[j]));
        }
    }

    let ghost mut floor: u64 = 0;
    let ghost mut steps: nat = 0;
    proof {
        assert(processed@ == Map::<u64, u64>::empty());
        assert(predecessors@ == Map::<u64, u64>::empty());
    }
    while frontier.len() > 0
        invariant
            sources == start_vertices@,
            targets == end_vertices@,
            search_run(graph, targets, initial_state(sources), steps) == (SearchState {
                frontier: frontier@,
                settled: processed@,
                preds: predecessors@,
                reached: None,
            }),
            frontier_view(frontier@, open),
            search_state(graph, sources, targets, processed@, open, predecessors@, floor),
            all_relaxed(graph, processed@, open),
            processed@.len() <= usize::MAX,
        decreases usize::MAX - processed@.len(),
    {
        let m = find_min_key_value_pair(&frontier);
        let (vertex, distance) = frontier[m];
        let ghost st = search_run(graph, targets, initial_state(sources), steps);
        proof {
            lemma_run_step(graph, targets, initial_state(sources), steps);
            assert forall|y: u64| #[trigger] open.contains_key(y) implies distance <= open[y] by {
                lemma_frontier_entry(frontier@, open, y);
                let j = choose|j: int| 0 <= j < frontier@.len() && #[trigger] frontier@[j] == (y, open[y]);
                assert(frontier@[j].1 == open[y]);
            }
        }
        if contains_vertex(&end_vertices, vertex) {
            proof {
                lemma_reached_result(graph, sources, targets, processed@, open, predecessors@, floor, vertex);
            }
            frontier.remove(m);
            processed.insert(vertex, distance);
            proof {
                let next = search_run(graph, targets, initial_state(sources), steps + 1);
                assert(next == search_step(graph, targets, st));
                assert(next.frontier == frontier@ && next.settled == processed@ && next.preds == predecessors@);
                assert(is_final(next));
            }
            return (processed, predecessors, Some(vertex));
        }
        proof {
            lemma_settle_state(graph, sources, targets, processed@, open, predecessors@, floor, vertex);
            lemma_frontier_remove(frontier@, open, m as int);
        }
        frontier.remove(m);
        processed.insert(vertex, distance);
        proof {
            open = open.remove(vertex);
            floor = distance;
            assert(processed@.len() == spec_hash_map_len(&processed));
        }
        let neighbors = graph.list_neighbors_and_distances(&vertex);
        let ghost fr1 = frontier@;
        let ghost preds0 = predecessors@;
        let mut j: usize = 0;
        proof {
            assert(neighbors@.subrange(0, 0) =~= Seq::<(u64, u64)>::empty());
        }
        while j < neighbors.len()
            invariant
                sources == start_vertices@,
                targets == end_vertices@,
                (frontier@, predecessors@) == relax_edges(
                    fr1,
                    preds0,
                    processed@,
                    vertex,
                    distance,
                    neighbors@.subrange(0, j as int),
                ),
                neighbors@ == graph.spec_neighbors(vertex),
                j <= neighbors@.len(),
                processed@.contains_key(vertex),
                processed@[vertex] == distance,
                distance == floor,
                frontier_view(frontier@, open),
                search_state(graph, sources, targets, processed@, open, predecessors@, floor),
                forall|u: u64, v: u64, w: u64|
                    processed@.contains_key(u) && u != vertex && #[trigger] graph.spec_neighbors(
                        u,
                    ).contains((v, w)) ==> relaxed(processed@, open, u, v, w),
                forall|i: int|
                    0 <= i < j ==> relaxed(
                        processed@,
                        open,
                        vertex,
                        #[trigger] neighbors@[i].0,
                        neighbors@[i].1,
                    ),
                processed@.len() <= usize::MAX,
            decreases neighbors@.len() - j,
        {
            let (neighbor, weight) = neighbors[j];
            let ghost open0 = open;
            let ghost pred0 = predecessors@;
            proof {
                assert(neighbors@.subrange(0, j + 1).drop_last() =~= neighbors@.subrange(0, j as int));
                assert(neighbors@.subrange(0, j + 1).last() == (neighbor, weight));
                assert(graph.spec_neighbors(vertex).contains((neighbor, weight))) by {
                    assert(neighbors@[j as int] == (neighbor, weight));
                }
            }
            if !processed.contains_key(&neighbor) {
                match distance.checked_add(weight) {
                    Some(new_distance) => {
                        proof {
                            let (vs, ws) = choose|vs: Seq<u64>, ws: Seq<u64>|
                                #[trigger] is_route(graph, sources, vs, ws, vertex) && walk_length(ws)
                                    == distance;
                            lemma_route_extend(graph, sources, vs, ws, vertex, neighbor, weight);
                            assert(is_route(graph, sources, vs.push(neighbor), ws.push(weight), neighbor));
                        }
                        match frontier_position(&frontier, neighbor) {
                            Some(p) => {
                                if new_distance < frontier[p].1 {
                                    proof {
                                        lemma_frontier_update(frontier@, open, p as int, new_distance);
                                        open = open.insert(neighbor, new_distance);
                                    }
                                    frontier.set(p, (neighbor, new_distance));
                                    predecessors.insert(neighbor, vertex);
                                }
                            },
                            None => {
                                proof {
                                    lemma_frontier_absent(frontier@, open, neighbor);
                                    lemma_frontier_push(frontier@, open, neighbor, new_distance);
                                    open = open.insert(neighbor, new_distance);
                                }
                                frontier.push((neighbor, new_distance));
                                predecessors.insert(neighbor, vertex);
                            },
                        }
                        proof {
                            lemma_relaxed_lowered(graph, processed@, open0, open);
                            assert forall|v: u64| #[trigger] predecessors@.contains_key(v) implies {
                                &&& processed@.contains_key(predecessors@[v])
                                &&& exists|w: u64| #[trigger]
                                    graph.spec_neighbors(predecessors@[v]).contains((v, w)) && (
                                    processed@.contains_key(v) ==> processed@[v]
                                        == processed@[predecessors@[v]] + w) && (open.contains_key(v)
                                        ==> open[v] == processed@[predecessors@[v]] + w)
                            } by {
                                if v == neighbor && open != open0 {
                                    assert(graph.spec_neighbors(predecessors@[v]).contains((v, weight)));
                                } else {
                                    assert(pred0.contains_key(v));
                                    let w = choose|w: u64| #[trigger]
                                        graph.spec_neighbors(pred0[v]).contains((v, w)) && (
                                        processed@.contains_key(v) ==> processed@[v] == processed@[pred0[v]]
                                            + w) && (open0.contains_key(v) ==> open0[v]
                                            == processed@[pred0[v]] + w);
                                    assert(graph.spec_neighbors(predecessors@[v]).contains((v, w)));
                                }
                            }
                            assert(seeded(sources, processed@, open)) by {
                                assert forall|s: u64| #[trigger] sources.contains(s) implies (
                                processed@.contains_key(s) && processed@[s] == 0) || (open.contains_key(s)
                                    && open[s] == 0) by {
                                    assert(sources.contains(s));
                                }
                            }
                            assert(relaxed(processed@, open, vertex, neighbor, weight));
                        }
                    },
                    None => {},
                }
            }
            proof {
                assert(relaxed(processed@, open, vertex, neighbor, weight));
            }
            j = j + 1;
        }
        proof {
            assert(neighbors@.subrange(0, neighbors@.len() as int) =~= neighbors@);
            assert(search_step(graph, targets, st) == (SearchState {
                frontier: frontier@,
                settled: processed@,
                preds: predecessors@,
                reached: None,
            }));
            steps = steps + 1;
            assert forall|u: u64, v: u64, w: u64|
                processed@.contains_key(u) && #[trigger] graph.spec_neighbors(u).contains((v, w)) implies relaxed(
                processed@,
                open,
                u,
                v,
                w,
            ) by {
                if u == vertex {
                    let i = choose|i: int| 0 <= i < neighbors@.len() && neighbors@[i] == (v, w);
                    assert(relaxed(processed@, open, vertex, neighbors@[i].0, neighbors@[i].1));
                }
            }
        }
    }
    proof {
        assert(open =~= Map::<u64, u64>::empty()) by {
            assert forall|y: u64| !open.contains_key(y) by {
                if open.contains_key(y) {
                    lemma_frontier_entry(frontier@, open, y);
                }
            }
        }
        lemma_exhausted_result(graph, sources, targets, processed@, open, predecessors@, floor);
        assert(is_final(search_run(graph, targets, initial_state(sources), steps)));
    }
    (processed, predecessors, None)
}


/// The characters of a string, one by one.
pub fn line_chars(line: &str) -> (r: Vec<char>)
    ensures
        r@ == line@,
{
    broadcast use vstd::string::group_string_axioms;

    let mut chars = line.chars();
    let mut out: Vec<char> = Vec::new();
    loop
        invariant
            out@ + chars.remaining() == line@,
            chars.obeys_prophetic_iter_laws(),
        decreases line@.len() - out@.len(),
    {
        let ghost before = chars.remaining();
        match chars.next() {
            Some(c) => {
                proof {
                    assert(out@.push(c) + chars.remaining() =~= out@ + before);
                }
                out.push(c);
            },
            None => {
                proof {
                    assert(out@ + chars.remaining() =~= out@);
                }
                return out;
            },
        }
    }
}


/// The packed vertex of the cell at row `height`, column `width`: the row in
/// the high 32 bits, the column in the low 32 bits.
pub open spec fn position_of(height: int, width: int) -> int {
    height * 4294967296 + width
}

/// The row and column that a packed vertex stands for.
pub open spec fn coordinates_of(pos: int) -> (int, int) {
    (pos / 4294967296, pos % 4294967296)
}

/// Whether a maze cell holding `c` can be walked through.
pub open spec fn passable(c: char, start_char: char, end_char: char) -> bool {
    c == ' ' || c == start_char || c == end_char
}

/// The edge of weight 1 to the cell at row `y`, column `x`, if that cell is in
/// the grid and passable.
pub open spec fn step_to(cells: Seq<Seq<char>>, start_char: char, end_char: char, y: int, x: int) -> Seq<
    (u64, u64),
> {
    if 0 <= y < cells.len() && 0 <= x < cells[y].len() && passable(cells[y][x], start_char, end_char) {
        seq![(position_of(y, x) as u64, 1u64)]
    } else {
        Seq::empty()
    }
}

/// The edges leaving a cell: up, down, left, right, to the passable cells
/// of the grid.
pub open spec fn maze_neighbors(cells: Seq<Seq<char>>, start_char: char, end_char: char, pos: u64) -> Seq<
    (u64, u64),
> {
    let (y, x) = coordinates_of(pos as int);
    step_to(cells, start_char, end_char, y - 1, x) + step_to(cells, start_char, end_char, y + 1, x)
        + step_to(cells, start_char, end_char, y, x - 1) + step_to(
        cells,
        start_char,
        end_char,
        y,
        x + 1,
    )
}

/// In row-major order, the positions of the cells that hold `c` among the
/// rows before `y` and the first `x` cells of row `y`.
pub open spec fn positions_before(cells: Seq<Seq<char>>, c: char, y: nat, x: nat) -> Seq<u64>
    decreases y, x,
{
    if x == 0 {
        if y == 0 {
            Seq::empty()
        } else {
            positions_before(cells, c, (y - 1) as nat, cells[y - 1].len())
        }
    } else {
        let prev = positions_before(cells, c, y, (x - 1) as nat);
        if cells[y as int][x - 1] == c {
            prev.push(position_of(y as int, x - 1) as u64)
        } else {
            prev
        }
    }
}

/// The top-left `height` by `width` block of a grid.
pub open spec fn grid_block(cells: Seq<Seq<char>>, height: int, width: int) -> Seq<Seq<char>> {
    Seq::new(height as nat, |y: int| cells[y].subrange(0, width))
}

/// In row-major order, the positions of the cells that hold `c`.
pub open spec fn positions_of(cells: Seq<Seq<char>>, c: char) -> Seq<u64> {
    positions_before(cells, c, cells.len(), 0)
}

/// Why a list of lines makes no maze.
#[derive(Debug, Clone, Copy, PartialEq, Eq, Structural)]
pub enum MazeError {
    /// There are no lines.
    EmptyLayout,
    /// Some line is not as long as the first.
    UnequalLineLengths,
    /// There are more lines, or longer ones, than a `u32` counts.
    TooLarge,
}

/// What is wrong with these lines as a maze, if anything.
pub open spec fn layout_error(lines: Seq<Seq<char>>) -> Option<MazeError> {
    if lines.len() == 0 {
        Some(MazeError::EmptyLayout)
    } else if exists|i: int| 0 <= i < lines.len() && #[trigger] lines[i].len() != lines[0].len() {
        Some(MazeError::UnequalLineLengths)
    } else if lines.len() > u32::MAX || lines[0].len() > u32::MAX {
        Some(MazeError::TooLarge)
    } else {
        None
    }
}

/// The characters of each line.
pub open spec fn lines_view(lines: Seq<String>) -> Seq<Seq<char>> {
    lines.map_values(|l: String| l@)
}

/// A rectangular grid of characters, with its start and end cells.
#[derive(Debug)]
pub struct Maze {
    layout: Vec<Vec<char>>,
    height: u32,
    width: u32,
    start_positions: Vec<u64>,
    end_positions: Vec<u64>,
    start_char: char,
    end_char: char,
}

impl Maze {
    /// The grid, row by row.
    pub closed spec fn cells(&self) -> Seq<Seq<char>> {
        self.layout@.map_values(|row: Vec<char>| row@)
    }

    /// The character that marks a start cell.
    pub closed spec fn spec_start_char(&self) -> char {
        self.start_char
    }

    /// The character that marks an end cell.
    pub closed spec fn spec_end_char(&self) -> char {
        self.end_char
    }

    #[verifier::type_invariant]
    spec fn well_formed(&self) -> bool {
        &&& self.layout@.len() == self.height
        &&& self.height >= 1
        &&& forall|i: int| 0 <= i < self.layout@.len() ==> #[trigger] self.layout@[i]@.len() == self.width
        &&& self.start_positions@ == positions_of(self.cells(), self.start_char)
        &&& self.end_positions@ == positions_of(self.cells(), self.end_char)
    }

    /// Splits a vertex into its row and column.
    pub fn position_to_coordinates(pos: u64) -> (r: (u32, u32))
        ensures
            (r.0 as int, r.1 as int) == coordinates_of(pos as int),
    {
        proof {
            assert(pos / 4294967296 < 4294967296) by (nonlinear_arith)
                requires
                    pos <= u64::MAX,
            ;
        }
        ((pos / 4294967296) as u32, (pos % 4294967296) as u32)
    }

    /// Packs a row and a column into a vertex.
    pub fn coordinates_to_position(height: u32, width: u32) -> (r: u64)
        ensures
            r as int == position_of(height as int, width as int),
    {
        proof {
            assert(height * 4294967296 + width <= u64::MAX) by (nonlinear_arith)
                requires
                    height <= u32::MAX,
                    width <= u32::MAX,
            ;
        }
        (height as u64) * 4294967296 + (width as u64)
    }

    /// The positions of the cells that hold `char_to_find`, in row-major order.
    fn find_character_in_layout(layout: &Vec<Vec<char>>, width: u32, height: u32, char_to_find: char) -> (r:
        Vec<u64>)
        requires
            layout@.len() >= height,
            forall|i: int| 0 <= i < height ==> #[trigger] layout@[i]@.len() >= width,
        ensures
            r@ == positions_of(
                grid_block(layout@.map_values(|row: Vec<char>| row@), height as int, width as int),
                char_to_find,
            ),
    {
        let ghost cells = grid_block(layout@.map_values(|row: Vec<char>| row@), height as int, width as int);
        let mut positions: Vec<u64> = Vec::new();
        let mut y: u32 = 0;
        while y < height
            invariant
                cells == grid_block(layout@.map_values(|row: Vec<char>| row@), height as int, width as int),
                layout@.len() >= height,
                forall|i: int| 0 <= i < height ==> #[trigger] layout@[i]@.len() >= width,
                y <= height,
                positions@ == positions_before(cells, char_to_find, y as nat, 0),
            decreases height - y,
        {
            let line = &layout[y as usize];
            proof {
                assert(line@.len() >= width);
            }
            let mut x: u32 = 0;
            while x < width
                invariant
                    cells == grid_block(layout@.map_values(|row: Vec<char>| row@), height as int, width as int),
                    y < height,
                    line@ == layout@[y as int]@,
                    line@.len() >= width,
                    cells[y as int] == line@.subrange(0, width as int),
                    x <= width,
                    positions@ == positions_before(cells, char_to_find, y as nat, x as nat),
                decreases width - x,
            {
                proof {
                    assert(cells[y as int][x as int] == line@[x as int]);
                }
                if line[x as usize] == char_to_find {
                    let pos = Self::coordinates_to_position(y, x);
                    positions.push(pos);
                }
                x = x + 1;
            }
            proof {
                assert(cells[y as int].len() == width);
                assert(positions_before(cells, char_to_find, (y + 1) as nat, 0) == positions_before(
                    cells,
                    char_to_find,
                    y as nat,
                    width as nat,
                ));
            }
            y = y + 1;
        }
        proof {
            assert(cells.len() == height);
        }
        positions
    }

    /// Builds a maze from its lines: `@` marks a start cell, `$` an end cell,
    /// a space a free cell, and any other character a wall.
    pub fn new(layout: &[String]) -> (r: Result<Maze, MazeError>)
        ensures
            match layout_error(lines_view(layout@)) {
                Some(e) => r == Err::<Maze, MazeError>(e),
                None => r is Ok && r->Ok_0.cells() == lines_view(layout@)
                    && r->Ok_0.spec_start_char() == '@' && r->Ok_0.spec_end_char() == '$',
            },
    {
        let ghost lines = lines_view(layout@);
        if layout.len() == 0 {
            return Err(MazeError::EmptyLayout);
        }
        let mut rows: Vec<Vec<char>> = Vec::new();
        let first = line_chars(layout[0].as_str());
        let maze_width = first.len();
        let mut i: usize = 0;
        while i < layout.len()
            invariant
                lines == lines_view(layout@),
                layout@.len() > 0,
                maze_width == lines[0].len(),
                i <= layout@.len(),
                rows@.len() == i,
                forall|j: int| 0 <= j < i ==> #[trigger] rows@[j]@ == lines[j],
                forall|j: int| 0 <= j < i ==> #[trigger] lines[j].len() == lines[0].len(),
            decreases layout@.len() - i,
        {
            let row = line_chars(layout[i].as_str());
            if row.len() != maze_width {
                proof {
                    assert(lines[i as int].len() != lines[0].len());
                }
                return Err(MazeError::UnequalLineLengths);
            }
            rows.push(row);
            i = i + 1;
        }
        if layout.len() > 4294967295 || maze_width > 4294967295 {
            return Err(MazeError::TooLarge);
        }
        let maze_height = layout.len() as u32;
        let maze_width = maze_width as u32;
        proof {
            assert(rows@.map_values(|row: Vec<char>| row@) =~= lines);
            assert(grid_block(lines, maze_height as int, maze_width as int) =~= lines) by {
                assert forall|y: int| 0 <= y < maze_height implies #[trigger] lines[y].subrange(
                    0,
                    maze_width as int,
                ) =~= lines[y] by {
                    assert(lines[y].len() == lines[0].len());
                }
            }
        }
        let start_char = '@';
        let end_char = '$';
        let start_positions = Self::find_character_in_layout(&rows, maze_width, maze_height, start_char);
        let end_positions = Self::find_character_in_layout(&rows, maze_width, maze_height, end_char);
        Ok(
            Maze {
                layout: rows,
                height: maze_height,
                width: maze_width,
                start_positions,
                end_positions,
                start_char,
                end_char,
            },
        )
    }

    /// The start cells, in row-major order.
    pub fn start_positions(&self) -> (r: Vec<u64>)
        ensures
            r@ == positions_of(self.cells(), self.spec_start_char()),
    {
        proof {
            use_type_invariant(self);
        }
        self.start_positions.clone()
    }

    /// The end cells, in row-major order.
    pub fn end_positions(&self) -> (r: Vec<u64>)
        ensures
            r@ == positions_of(self.cells(), self.spec_end_char()),
    {
        proof {
            use_type_invariant(self);
        }
        self.end_positions.clone()
    }

    /// The character that marks a start cell.
    pub fn start_char(&self) -> (r: char)
        ensures
            r == self.spec_start_char(),
    {
        self.start_char
    }

    /// The character that marks an end cell.
    pub fn end_char(&self) -> (r: char)
        ensures
            r == self.spec_end_char(),
    {
        self.end_char
    }
}


impl Maze {
    /// Appends the edge to the cell at row `y`, column `x`, if that cell is in
    /// the grid and passable.
    fn push_step(&self, neighbors: &mut Vec<(u64, u64)>, y: u32, x: u32)
        ensures
            final(neighbors)@ == old(neighbors)@ + step_to(
                self.cells(),
                self.spec_start_char(),
                self.spec_end_char(),
                y as int,
                x as int,
            ),
    {
        proof {
            use_type_invariant(self);
        }
        let ghost cells = self.cells();
        if y < self.height && x < self.width {
            let c = self.layout[y as usize][x as usize];
            proof {
                assert(cells[y as int] == self.layout@[y as int]@);
            }
            if c == ' ' || c == self.start_char || c == self.end_char {
                let pos = Self::coordinates_to_position(y, x);
                neighbors.push((pos, 1));
                proof {
                    assert(final(neighbors)@ =~= old(neighbors)@ + step_to(
                        cells,
                        self.start_char,
                        self.end_char,
                        y as int,
                        x as int,
                    ));
                }
            } else {
                proof {
                    assert(final(neighbors)@ =~= old(neighbors)@ + step_to(
                        cells,
                        self.start_char,
                        self.end_char,
                        y as int,
                        x as int,
                    ));
                }
            }
        } else {
            proof {
                assert(final(neighbors)@ =~= old(neighbors)@ + step_to(
                    cells,
                    self.start_char,
                    self.end_char,
                    y as int,
                    x as int,
                ));
            }
        }
    }
}

impl Neighbors for Maze {
    open spec fn spec_neighbors(&self, vertex: u64) -> Seq<(u64, u64)> {
        maze_neighbors(self.cells(), self.spec_start_char(), self.spec_end_char(), vertex)
    }

    fn list_neighbors_and_distances(&self, pos: &u64) -> (r: Vec<(u64, u64)>) {
        proof {
            use_type_invariant(self);
        }
        let ghost cells = self.cells();
        let ghost (s, e) = (self.spec_start_char(), self.spec_end_char());
        let (height, width) = Self::position_to_coordinates(*pos);
        let ghost (y, x) = (height as int, width as int);
        let mut neighbors: Vec<(u64, u64)> = Vec::new();
        if height > 0 {
            self.push_step(&mut neighbors, height - 1, width);
        }
        assert(neighbors@ =~= step_to(cells, s, e, y - 1, x));
        if height < self.height {
            self.push_step(&mut neighbors, height + 1, width);
        }
        assert(neighbors@ =~= step_to(cells, s, e, y - 1, x) + step_to(cells, s, e, y + 1, x));
        if width > 0 {
            self.push_step(&mut neighbors, height, width - 1);
        }
        assert(neighbors@ =~= step_to(cells, s, e, y - 1, x) + step_to(cells, s, e, y + 1, x) + step_to(
            cells,
            s,
            e,
            y,
            x - 1,
        ));
        if width < self.width {
            self.push_step(&mut neighbors, height, width + 1);
        }
        assert(neighbors@ =~= maze_neighbors(cells, s, e, *pos));
        neighbors
    }
}


/// The vertices met by following predecessors from `v`, at most `fuel` of
/// them, leaving out those among `starts`.
pub open spec fn path_before(pred: Map<u64, u64>, starts: Seq<u64>, v: u64, fuel: nat) -> Seq<u64>
    decreases fuel,
{
    if fuel == 0 || !pred.contains_key(v) {
        Seq::empty()
    } else {
        let p = pred[v];
        let rest = path_before(pred, starts, p, (fuel - 1) as nat);
        if starts.contains(p) {
            rest
        } else {
            seq![p] + rest
        }
    }
}

/// Follows the predecessors from `final_vertex` until a vertex without one,
/// and returns the vertices met, `final_vertex` and the start vertices left
/// out. The walk stops after as many steps as there are predecessors.
pub fn solution_path(predecessors: &HashMap<u64, u64>, final_vertex: u64, start_positions: &Vec<u64>) -> (r:
    Vec<u64>)
    ensures
        r@ == path_before(
            predecessors@,
            start_positions@,
            final_vertex,
            predecessors@.len(),
        ),
{
    let ghost pred = predecessors@;
    let ghost starts = start_positions@;
    let n = predecessors.len();
    let mut fuel: usize = n;
    let mut current = final_vertex;
    let mut path: Vec<u64> = Vec::new();
    while fuel > 0 && predecessors.contains_key(&current)
        invariant
            pred == predecessors@,
            starts == start_positions@,
            n == pred.len(),
            path@ + path_before(pred, starts, current, fuel as nat) == path_before(
                pred,
                starts,
                final_vertex,
                n as nat,
            ),
        decreases fuel,
    {
        let previous = *predecessors.get(&current).unwrap();
        let ghost old_path = path@;
        let ghost rest = path_before(pred, starts, previous, (fuel - 1) as nat);
        if !contains_vertex(start_positions, previous) {
            path.push(previous);
            proof {
                assert(path@ + rest =~= old_path + (seq![previous] + rest));
            }
        }
        current = previous;
        fuel = fuel - 1;
    }
    proof {
        assert(path@ + path_before(pred, starts, current, fuel as nat) =~= path@);
    }
    path
}

/// The character shown for a cell holding `c`: a path cell is `x`; a visited
/// cell that is neither a start nor an end is `o`; any other keeps `c`.
pub open spec fn overlay_char(c: char, visited: bool, on_path: bool, start_char: char, end_char: char) -> char {
    if on_path {
        'x'
    } else if visited && c != start_char && c != end_char {
        'o'
    } else {
        c
    }
}

impl Maze {
    /// The grid with the cells of `distances` marked visited and those of
    /// `path` marked as the path.
    pub fn solution_grid(&self, distances: &HashMap<u64, u64>, path: &Vec<u64>) -> (r: Vec<Vec<char>>)
        ensures
            r@.len() == self.cells().len(),
            forall|y: int| 0 <= y < r@.len() ==> (#[trigger] r@[y])@.len() == self.cells()[y].len(),
            forall|y: int, x: int|
                0 <= y < r@.len() && 0 <= x < self.cells()[y].len() ==> (#[trigger] r@[y]@[x])
                    == overlay_char(
                    self.cells()[y][x],
                    distances@.contains_key(position_of(y, x) as u64),
                    path@.contains(position_of(y, x) as u64),
                    self.spec_start_char(),
                    self.spec_end_char(),
                ),
    {
        proof {
            use_type_invariant(self);
        }
        let ghost cells = self.cells();
        let mut grid: Vec<Vec<char>> = Vec::new();
        let mut y: u32 = 0;
        while y < self.height
            invariant
                cells == self.cells(),
                self.layout@.len() == self.height,
                forall|i: int| 0 <= i < self.layout@.len() ==> #[trigger] self.layout@[i]@.len() == self.width,
                y <= self.height,
                grid@.len() == y,
                forall|i: int| 0 <= i < y ==> (#[trigger] grid@[i])@.len() == cells[i].len(),
                forall|i: int, x: int|
                    0 <= i < y && 0 <= x < cells[i].len() ==> (#[trigger] grid@[i]@[x]) == overlay_char(
                        cells[i][x],
                        distances@.contains_key(position_of(i, x) as u64),
                        path@.contains(position_of(i, x) as u64),
                        self.start_char,
                        self.end_char,
                    ),
            decreases self.height - y,
        {
            let line = &self.layout[y as usize];
            let mut row: Vec<char> = Vec::new();
            let mut x: u32 = 0;
            while x < self.width
                invariant
                    cells == self.cells(),
                    self.layout@.len() == self.height,
                    y < self.height,
                    line@ == cells[y as int],
                    line@.len() == self.width,
                    x <= self.width,
                    row@.len() == x,
                    forall|j: int|
                        0 <= j < x ==> (#[trigger] row@[j]) == overlay_char(
                            cells[y as int][j],
                            distances@.contains_key(position_of(y as int, j) as u64),
                            path@.contains(position_of(y as int, j) as u64),
                            self.start_char,
                            self.end_char,
                        ),
                decreases self.width - x,
            {
                let c = line[x as usize];
                let pos = Self::coordinates_to_position(y, x);
                let shown = if contains_vertex(path, pos) {
                    'x'
                } else if distances.contains_key(&pos) && c != self.start_char && c != self.end_char {
                    'o'
                } else {
                    c
                };
                row.push(shown);
                x = x + 1;
            }
            grid.push(row);
            y = y + 1;
        }
        grid
    }
}


/// Packing a row and a column into a vertex and splitting it again gives
/// them back, and every vertex is the packing of its row and column.
pub proof fn lemma_position_round_trip(height: u32, width: u32, pos: u64)
    ensures
        coordinates_of(position_of(height as int, width as int)) == (height as int, width as int),
        position_of(coordinates_of(pos as int).0, coordinates_of(pos as int).1) == pos,
{
    let p = position_of(height as int, width as int);
    assert(p / 4294967296 == height as int && p % 4294967296 == width as int) by {
        vstd::arithmetic::div_mod::lemma_fundamental_div_mod_converse(
            p,
            4294967296,
            height as int,
            width as int,
        );
    }
    vstd::arithmetic::div_mod::lemma_fundamental_div_mod(pos as int, 4294967296);
}

/// When the only target can be reached by a route of length `l` and by no
/// shorter one, the search reaches it, at distance `l`.
pub proof fn lemma_single_target_distance<G: Neighbors>(
    g: &G,
    sources: Seq<u64>,
    target: u64,
    dist: Map<u64, u64>,
    pred: Map<u64, u64>,
    reached: Option<u64>,
    vs: Seq<u64>,
    ws: Seq<u64>,
)
    requires
        is_search_result(g, sources, seq![target], dist, pred, reached),
        is_route(g, sources, vs, ws, target),
        walk_length(ws) <= u64::MAX,
        no_shorter_route(g, sources, target, walk_length(ws)),
    ensures
        reached == Some(target),
        dist.contains_key(target),
        dist[target] == walk_length(ws),
{
    let targets = seq![target];
    assert(targets.contains(target)) by {
        assert(targets[0] == target);
    }
    match reached {
        Some(t) => {
            assert(targets.contains(t));
            assert(t == target);
            assert(is_shortest_distance(g, sources, t, dist[t] as int));
            let (vs2, ws2) = choose|vs2: Seq<u64>, ws2: Seq<u64>|
                #[trigger] is_route(g, sources, vs2, ws2, t) && walk_length(ws2) == dist[t];
            assert(walk_length(ws) <= walk_length(ws2));
        },
        None => {
            assert(dist.contains_key(target));
        },
    }
}

/// When no route leads from the sources to a target, no target is reached,
/// and every settled vertex can be reached from the sources.
pub proof fn lemma_unreachable_targets<G: Neighbors>(
    g: &G,
    sources: Seq<u64>,
    targets: Seq<u64>,
    dist: Map<u64, u64>,
    pred: Map<u64, u64>,
    reached: Option<u64>,
)
    requires
        is_search_result(g, sources, targets, dist, pred, reached),
        forall|t: u64, vs: Seq<u64>, ws: Seq<u64>|
            targets.contains(t) ==> !(#[trigger] is_route(g, sources, vs, ws, t)),
    ensures
        reached == None::<u64>,
        forall|x: u64| #[trigger]
            dist.contains_key(x) ==> exists|vs: Seq<u64>, ws: Seq<u64>|
                #[trigger] is_route(g, sources, vs, ws, x),
{
    if let Some(t) = reached {
        assert(is_shortest_distance(g, sources, t, dist[t] as int));
        let (vs, ws) = choose|vs: Seq<u64>, ws: Seq<u64>|
            #[trigger] is_route(g, sources, vs, ws, t) && walk_length(ws) == dist[t];
        assert(is_route(g, sources, vs, ws, t));
    }
    assert forall|x: u64| #[trigger] dist.contains_key(x) implies exists|vs: Seq<u64>, ws: Seq<u64>|
        #[trigger] is_route(g, sources, vs, ws, x) by {
        assert(is_shortest_distance(g, sources, x, dist[x] as int));
    }
}

/// Running the search twice with the same graph, sources and targets gives
/// the same distances, the same predecessors and the same target reached.
pub proof fn lemma_search_repeatable<G: Neighbors>(
    g: &G,
    sources: Seq<u64>,
    targets: Seq<u64>,
    dist1: Map<u64, u64>,
    pred1: Map<u64, u64>,
    reached1: Option<u64>,
    dist2: Map<u64, u64>,
    pred2: Map<u64, u64>,
    reached2: Option<u64>,
)
    requires
        is_search_outcome(g, sources, targets, dist1, pred1, reached1),
        is_search_outcome(g, sources, targets, dist2, pred2, reached2),
    ensures
        dist1 == dist2,
        pred1 == pred2,
        reached1 == reached2,
{
    let init = initial_state(sources);
    let k1 = choose|k: nat|
        {
            let st = #[trigger] search_run(g, targets, init, k);
            &&& is_final(st)
            &&& st.settled == dist1
            &&& st.preds == pred1
            &&& st.reached == reached1
        };
    let k2 = choose|k: nat|
        {
            let st = #[trigger] search_run(g, targets, init, k);
            &&& is_final(st)
            &&& st.settled == dist2
            &&& st.preds == pred2
            &&& st.reached == reached2
        };
    if k1 <= k2 {
        lemma_run_stays(g, targets, init, k1, (k2 - k1) as nat);
    } else {
        lemma_run_stays(g, targets, init, k2, (k1 - k2) as nat);
    }
}

/// A search from no source settles nothing and reaches no target.
pub proof fn lemma_no_sources<G: Neighbors>(
    g: &G,
    targets: Seq<u64>,
    dist: Map<u64, u64>,
    pred: Map<u64, u64>,
    reached: Option<u64>,
)
    requires
        is_search_result(g, Seq::empty(), targets, dist, pred, reached),
    ensures
        dist == Map::<u64, u64>::empty(),
        reached == None::<u64>,
{
    assert forall|x: u64| !dist.contains_key(x) by {
        if dist.contains_key(x) {
            assert(is_shortest_distance(g, Seq::empty(), x, dist[x] as int));
            let (vs, ws) = choose|vs: Seq<u64>, ws: Seq<u64>|
                #[trigger] is_route(g, Seq::empty(), vs, ws, x) && walk_length(ws) == dist[x];
            assert(Seq::<u64>::empty().contains(vs[0]));
        }
    }
    assert(dist =~= Map::<u64, u64>::empty());
}

} // verus!
