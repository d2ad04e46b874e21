//! The invariants of the shortest-path search between two settlements, and
//! the lemmas that carry them from one settlement to the next.
use vstd::prelude::*;

use crate::graphs_mazes::{
    has_route_of_length, is_final, is_route, is_search_result, is_shortest_distance, no_shorter_route,
    search_run, search_step, walk_length, Neighbors, SearchState,
};

verus! {

/// The edge from settled `u` to `v` has been relaxed: unless its end lies
/// beyond `u64::MAX`, `v` is settled or open at a distance no greater.
pub open spec fn relaxed(settled: Map<u64, u64>, open: Map<u64, u64>, u: u64, v: u64, w: u64) -> bool {
    settled[u] + w <= u64::MAX ==> {
        ||| settled.contains_key(v) && settled[v] <= settled[u] + w
        ||| open.contains_key(v) && open[v] <= settled[u] + w
    }
}

/// Each source is settled or open, at distance zero.
pub open spec fn seeded(sources: Seq<u64>, settled: Map<u64, u64>, open: Map<u64, u64>) -> bool {
    forall|s: u64|
        #[trigger] sources.contains(s) ==> (settled.contains_key(s) && settled[s] == 0) || (
        open.contains_key(s) && open[s] == 0)
}

/// Every edge leaving a settled vertex has been relaxed.
pub open spec fn all_relaxed<G: Neighbors>(g: &G, settled: Map<u64, u64>, open: Map<u64, u64>) -> bool {
    forall|u: u64, v: u64, w: u64|
        settled.contains_key(u) && #[trigger] g.spec_neighbors(u).contains((v, w)) ==> relaxed(
            settled,
            open,
            u,
            v,
            w,
        )
}

pub proof fn lemma_route_extend<G: Neighbors>(
    g: &G,
    sources: Seq<u64>,
    vs: Seq<u64>,
    ws: Seq<u64>,
    u: u64,
    v: u64,
    w: u64,
)
    requires
        is_route(g, sources, vs, ws, u),
        g.spec_neighbors(u).contains((v, w)),
    ensures
        is_route(g, sources, vs.push(v), ws.push(w), v),
        walk_length(ws.push(w)) == walk_length(ws) + w,
{
    assert(ws.push(w).drop_last() =~= ws);
    let vs2 = vs.push(v);
    let ws2 = ws.push(w);
    assert forall|i: int| 0 <= i < ws2.len() implies #[trigger] g.spec_neighbors(vs2[i]).contains(
        (vs2[i + 1], ws2[i]),
    ) by {
        if i < ws.len() {
            assert(g.spec_neighbors(vs[i]).contains((vs[i + 1], ws[i])));
        }
    }
}

/// Along a route of length at most `u64::MAX`, either some open vertex is at
/// a distance no greater than the route's length, or the route's end is
/// settled at a distance no greater.
pub proof fn lemma_route_bound<G: Neighbors>(
    g: &G,
    sources: Seq<u64>,
    settled: Map<u64, u64>,
    open: Map<u64, u64>,
    vs: Seq<u64>,
    ws: Seq<u64>,
    x: u64,
)
    requires
        is_route(g, sources, vs, ws, x),
        walk_length(ws) <= u64::MAX,
        seeded(sources, settled, open),
        all_relaxed(g, settled, open),
    ensures
        (exists|y: u64| open.contains_key(y) && open[y] <= walk_length(ws)) || (settled.contains_key(
            x,
        ) && settled[x] <= walk_length(ws)),
    decreases ws.len(),
{
    if ws.len() == 0 {
        assert(vs[0] == x);
        assert(sources.contains(x));
    } else {
        let n = ws.len() - 1;
        let u = vs[n];
        let w = ws[n];
        let vs1 = vs.drop_last();
        let ws1 = ws.drop_last();
        assert(g.spec_neighbors(vs[n]).contains((vs[n + 1], ws[n])));
        assert(is_route(g, sources, vs1, ws1, u)) by {
            assert forall|i: int| 0 <= i < ws1.len() implies #[trigger] g.spec_neighbors(
                vs1[i],
            ).contains((vs1[i + 1], ws1[i])) by {
                assert(g.spec_neighbors(vs[i]).contains((vs[i + 1], ws[i])));
            }
        }
        lemma_route_bound(g, sources, settled, open, vs1, ws1, u);
        if settled.contains_key(u) && settled[u] <= walk_length(ws1) {
            assert(relaxed(settled, open, u, x, w));
            if open.contains_key(x) && open[x] <= settled[u] + w {
                assert(open[x] <= walk_length(ws));
            }
        }
    }
}

/// The least open distance is the length of no route longer than some route to
/// the vertex that holds it, nor to any target when no target is settled.
pub proof fn lemma_settle<G: Neighbors>(
    g: &G,
    sources: Seq<u64>,
    targets: Seq<u64>,
    settled: Map<u64, u64>,
    open: Map<u64, u64>,
    k: u64,
)
    requires
        seeded(sources, settled, open),
        all_relaxed(g, settled, open),
        open.contains_key(k),
        !settled.contains_key(k),
        forall|y: u64| #[trigger] open.contains_key(y) ==> open[k] <= open[y],
    ensures
        no_shorter_route(g, sources, k, open[k] as int),
        (forall|x: u64| settled.contains_key(x) ==> !(#[trigger] targets.contains(x))) ==> (forall|
            y: u64,
            vs: Seq<u64>,
            ws: Seq<u64>,
        | targets.contains(y) && #[trigger] is_route(g, sources, vs, ws, y) ==> open[k] <= walk_length(
            ws,
        )),
{
    assert forall|vs: Seq<u64>, ws: Seq<u64>| #[trigger] is_route(g, sources, vs, ws, k) implies open[k]
        <= walk_length(ws) by {
        if walk_length(ws) <= u64::MAX {
            lemma_route_bound(g, sources, settled, open, vs, ws, k);
        }
    }
    if forall|x: u64| settled.contains_key(x) ==> !(#[trigger] targets.contains(x)) {
        assert forall|y: u64, vs: Seq<u64>, ws: Seq<u64>|
            targets.contains(y) && #[trigger] is_route(g, sources, vs, ws, y) implies open[k]
            <= walk_length(ws) by {
            if walk_length(ws) <= u64::MAX {
                lemma_route_bound(g, sources, settled, open, vs, ws, y);
            }
        }
    }
}

/// Relaxing edges only lowers open distances and adds open vertices; what
/// was relaxed stays relaxed.
pub proof fn lemma_relaxed_lowered<G: Neighbors>(
    g: &G,
    settled: Map<u64, u64>,
    open: Map<u64, u64>,
    open2: Map<u64, u64>,
)
    requires
        forall|y: u64| #[trigger] open.contains_key(y) ==> open2.contains_key(y) && open2[y] <= open[y],
    ensures
        forall|u: u64, v: u64, w: u64| #[trigger]
            relaxed(settled, open, u, v, w) ==> relaxed(settled, open2, u, v, w),
{
}

/// Every predecessor is settled and linked to its vertex by an edge whose
/// weight accounts for the vertex's distance.
pub open spec fn preds_linked<G: Neighbors>(
    g: &G,
    settled: Map<u64, u64>,
    open: Map<u64, u64>,
    pred: Map<u64, u64>,
) -> bool {
    forall|v: u64| #[trigger]
        pred.contains_key(v) ==> {
            &&& settled.contains_key(pred[v])
            &&& exists|w: u64| #[trigger]
                g.spec_neighbors(pred[v]).contains((v, w)) && (settled.contains_key(v)
                    ==> settled[v] == settled[pred[v]] + w) && (open.contains_key(v) ==> open[v]
                    == settled[pred[v]] + w)
        }
}

/// The state of the search between two settlements.
pub open spec fn search_state<G: Neighbors>(
    g: &G,
    sources: Seq<u64>,
    targets: Seq<u64>,
    settled: Map<u64, u64>,
    open: Map<u64, u64>,
    pred: Map<u64, u64>,
    floor: u64,
) -> bool {
    &&& forall|x: u64| #[trigger] settled.contains_key(x) ==> !open.contains_key(x)
    &&& forall|x: u64| #[trigger] settled.contains_key(x) ==> settled[x] <= floor
    &&& forall|y: u64| #[trigger] open.contains_key(y) ==> floor <= open[y]
    &&& seeded(sources, settled, open)
    &&& forall|x: u64| #[trigger]
        settled.contains_key(x) ==> is_shortest_distance(g, sources, x, settled[x] as int)
    &&& forall|y: u64| #[trigger]
        open.contains_key(y) ==> has_route_of_length(g, sources, y, open[y] as int)
    &&& forall|x: u64| settled.contains_key(x) ==> !(#[trigger] targets.contains(x))
    &&& preds_linked(g, settled, open, pred)
    &&& forall|s: u64| #[trigger] sources.contains(s) ==> !pred.contains_key(s)
    &&& forall|x: u64|
        (settled.contains_key(x) || open.contains_key(x)) && !sources.contains(x) ==> #[trigger] pred.contains_key(x)
}

/// Settling the open vertex `k` of least distance keeps the state, but for
/// the edges leaving `k`, which are not relaxed yet.
pub proof fn lemma_settle_state<G: Neighbors>(
    g: &G,
    sources: Seq<u64>,
    targets: Seq<u64>,
    settled: Map<u64, u64>,
    open: Map<u64, u64>,
    pred: Map<u64, u64>,
    floor: u64,
    k: u64,
)
    requires
        search_state(g, sources, targets, settled, open, pred, floor),
        all_relaxed(g, settled, open),
        open.contains_key(k),
        forall|y: u64| #[trigger] open.contains_key(y) ==> open[k] <= open[y],
        !targets.contains(k),
    ensures
        search_state(
            g,
            sources,
            targets,
            settled.insert(k, open[k]),
            open.remove(k),
            pred,
            open[k],
        ),
        forall|u: u64, v: u64, w: u64|
            settled.insert(k, open[k]).contains_key(u) && u != k && #[trigger] g.spec_neighbors(
                u,
            ).contains((v, w)) ==> relaxed(settled.insert(k, open[k]), open.remove(k), u, v, w),
{
    let d = open[k];
    let s2 = settled.insert(k, d);
    let o2 = open.remove(k);
    lemma_settle(g, sources, targets, settled, open, k);
    assert forall|u: u64, v: u64, w: u64|
        s2.contains_key(u) && u != k && #[trigger] g.spec_neighbors(u).contains((v, w)) implies relaxed(
        s2,
        o2,
        u,
        v,
        w,
    ) by {
        assert(relaxed(settled, open, u, v, w));
    }
    assert forall|x: u64| #[trigger] s2.contains_key(x) implies is_shortest_distance(
        g,
        sources,
        x,
        s2[x] as int,
    ) by {
        if x == k {
            assert(has_route_of_length(g, sources, k, open[k] as int));
        }
    }
    assert forall|v: u64| #[trigger] pred.contains_key(v) implies {
        &&& s2.contains_key(pred[v])
        &&& exists|w: u64| #[trigger]
            g.spec_neighbors(pred[v]).contains((v, w)) && (s2.contains_key(v) ==> s2[v]
                == s2[pred[v]] + w) && (o2.contains_key(v) ==> o2[v] == s2[pred[v]] + w)
    } by {
        let w = choose|w: u64| #[trigger]
            g.spec_neighbors(pred[v]).contains((v, w)) && (settled.contains_key(v) ==> settled[v]
                == settled[pred[v]] + w) && (open.contains_key(v) ==> open[v] == settled[pred[v]] + w);
        assert(g.spec_neighbors(pred[v]).contains((v, w)));
    }
    assert(seeded(sources, s2, o2)) by {
        assert forall|s: u64| #[trigger] sources.contains(s) implies (s2.contains_key(s) && s2[s] == 0)
            || (o2.contains_key(s) && o2[s] == 0) by {
            assert(sources.contains(s));
        }
    }
}

/// Settling a target of least open distance ends the search with its result.
pub proof fn lemma_reached_result<G: Neighbors>(
    g: &G,
    sources: Seq<u64>,
    targets: Seq<u64>,
    settled: Map<u64, u64>,
    open: Map<u64, u64>,
    pred: Map<u64, u64>,
    floor: u64,
    k: u64,
)
    requires
        search_state(g, sources, targets, settled, open, pred, floor),
        all_relaxed(g, settled, open),
        open.contains_key(k),
        forall|y: u64| #[trigger] open.contains_key(y) ==> open[k] <= open[y],
        targets.contains(k),
    ensures
        is_search_result(g, sources, targets, settled.insert(k, open[k]), pred, Some(k)),
{
    let d = open[k];
    let s2 = settled.insert(k, d);
    lemma_settle(g, sources, targets, settled, open, k);
    assert forall|x: u64| #[trigger] s2.contains_key(x) implies is_shortest_distance(
        g,
        sources,
        x,
        s2[x] as int,
    ) by {
        if x == k {
            assert(has_route_of_length(g, sources, k, open[k] as int));
        }
    }
    assert forall|u: u64, v: u64, w: u64|
        s2.contains_key(u) && Some(k) != Some(u) && #[trigger] g.spec_neighbors(u).contains((v, w))
            && s2.contains_key(v) implies s2[v] <= s2[u] + w by {
        assert(relaxed(settled, open, u, v, w));
    }
    assert forall|v: u64| #[trigger] pred.contains_key(v) implies {
        &&& s2.contains_key(pred[v])
        &&& Some(k) != Some(pred[v])
        &&& exists|w: u64| #[trigger]
            g.spec_neighbors(pred[v]).contains((v, w)) && (s2.contains_key(v) ==> s2[v]
                == s2[pred[v]] + w)
    } by {
        let w = choose|w: u64| #[trigger]
            g.spec_neighbors(pred[v]).contains((v, w)) && (settled.contains_key(v) ==> settled[v]
                == settled[pred[v]] + w) && (open.contains_key(v) ==> open[v] == settled[pred[v]] + w);
        assert(g.spec_neighbors(pred[v]).contains((v, w)));
    }
    assert forall|x: u64, vs: Seq<u64>, ws: Seq<u64>|
        #[trigger] is_route(g, sources, vs, ws, x) && walk_length(ws) < s2[k] implies s2.contains_key(x) by {
        lemma_route_bound(g, sources, settled, open, vs, ws, x);
        if !settled.contains_key(x) || settled[x] > walk_length(ws) {
            let y = choose|y: u64| open.contains_key(y) && open[y] <= walk_length(ws);
            assert(open[k] <= open[y]);
        }
    }
    assert forall|x: u64| s2.contains_key(x) && x != k implies !(#[trigger] targets.contains(x)) by {
        assert(settled.contains_key(x));
    }
}

/// An empty open set ends the search with its result.
pub proof fn lemma_exhausted_result<G: Neighbors>(
    g: &G,
    sources: Seq<u64>,
    targets: Seq<u64>,
    settled: Map<u64, u64>,
    open: Map<u64, u64>,
    pred: Map<u64, u64>,
    floor: u64,
)
    requires
        search_state(g, sources, targets, settled, open, pred, floor),
        all_relaxed(g, settled, open),
        open == Map::<u64, u64>::empty(),
    ensures
        is_search_result(g, sources, targets, settled, pred, None),
{
    assert forall|u: u64, v: u64, w: u64|
        settled.contains_key(u) && None::<u64> != Some(u) && #[trigger] g.spec_neighbors(u).contains(
            (v, w),
        ) && settled.contains_key(v) implies settled[v] <= settled[u] + w by {
        assert(relaxed(settled, open, u, v, w));
    }
    assert forall|v: u64| #[trigger] pred.contains_key(v) implies {
        &&& settled.contains_key(pred[v])
        &&& None::<u64> != Some(pred[v])
        &&& exists|w: u64| #[trigger]
            g.spec_neighbors(pred[v]).contains((v, w)) && (settled.contains_key(v) ==> settled[v]
                == settled[pred[v]] + w)
    } by {
        let w = choose|w: u64| #[trigger]
            g.spec_neighbors(pred[v]).contains((v, w)) && (settled.contains_key(v) ==> settled[v]
                == settled[pred[v]] + w) && (open.contains_key(v) ==> open[v] == settled[pred[v]] + w);
        assert(g.spec_neighbors(pred[v]).contains((v, w)));
    }
    assert forall|x: u64, vs: Seq<u64>, ws: Seq<u64>|
        #[trigger] is_route(g, sources, vs, ws, x) && walk_length(ws) <= u64::MAX implies settled.contains_key(
        x,
    ) by {
        lemma_route_bound(g, sources, settled, open, vs, ws, x);
    }
}

pub proof fn lemma_run_step<G: Neighbors>(g: &G, targets: Seq<u64>, st: SearchState, k: nat)
    ensures
        search_run(g, targets, st, k + 1) == search_step(g, targets, search_run(g, targets, st, k)),
    decreases k,
{
    if k > 0 {
        lemma_run_step(g, targets, search_step(g, targets, st), (k - 1) as nat);
        assert(search_run(g, targets, st, k) == search_run(g, targets, search_step(g, targets, st), (k - 1) as nat));
        assert(search_run(g, targets, st, k + 1) == search_run(g, targets, search_step(g, targets, st), k));
    } else {
        assert(search_run(g, targets, search_step(g, targets, st), 0) == search_step(g, targets, st));
        assert(search_run(g, targets, st, 1) == search_run(g, targets, search_step(g, targets, st), 0));
    }
}

pub proof fn lemma_run_stays<G: Neighbors>(g: &G, targets: Seq<u64>, st: SearchState, k: nat, n: nat)
    requires
        is_final(search_run(g, targets, st, k)),
    ensures
        search_run(g, targets, st, k + n) == search_run(g, targets, st, k),
    decreases n,
{
    if n > 0 {
        lemma_run_stays(g, targets, st, k, (n - 1) as nat);
        lemma_run_step(g, targets, st, (k + n - 1) as nat);
    }
}

} // verus!
