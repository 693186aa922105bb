//! Breadth-first search for a shortest ladder between two words of a graph.
use vstd::prelude::*;
use crate::graph::{in_bounds, NeighborGraph};

verus! {

/// `v` can be reached from `s` in at most `k` hops along `g`.
pub open spec fn within(g: Seq<Seq<usize>>, s: usize, v: usize, k: nat) -> bool
    decreases k, 0nat,
{
    if k == 0 {
        v == s
    } else {
        within(g, s, v, (k - 1) as nat) || one_more(g, s, v, (k - 1) as nat)
    }
}

/// `v` is a neighbor of a word within `k` hops of `s`.
pub open spec fn one_more(g: Seq<Seq<usize>>, s: usize, v: usize, k: nat) -> bool
    decreases k, 1nat,
{
    exists|u: usize| u < g.len() && within(g, s, u, k) && #[trigger] g[u as int].contains(v)
}

/// The shortest ladder from `s` to `v` has exactly `k` hops.
pub open spec fn exactly(g: Seq<Seq<usize>>, s: usize, v: usize, k: nat) -> bool {
    within(g, s, v, k) && (k == 0 || !within(g, s, v, (k - 1) as nat))
}

/// `p` is a ladder along `g` from `s` to `e`: each word is a neighbor of the
/// one before it.
pub open spec fn is_path(g: Seq<Seq<usize>>, p: Seq<usize>, s: usize, e: usize) -> bool {
    &&& p.len() >= 1
    &&& p[0] == s
    &&& p.last() == e
    &&& forall|i: int| 0 <= i < p.len() ==> #[trigger] p[i] < g.len()
    &&& forall|i: int| 0 <= i < p.len() - 1 ==> g[p[i] as int].contains(#[trigger] p[i + 1])
}

/// The number of `false` entries.
pub open spec fn unvisited(s: Seq<bool>) -> int
    decreases s.len(),
{
    if s.len() == 0 {
        0
    } else {
        unvisited(s.drop_last()) + if s.last() {
            0int
        } else {
            1int
        }
    }
}

pub proof fn lemma_unvisited_bounds(s: Seq<bool>)
    ensures
        0 <= unvisited(s) <= s.len(),
    decreases s.len(),
{
    if s.len() > 0 {
        lemma_unvisited_bounds(s.drop_last());
    }
}

pub proof fn lemma_unvisited_all(s: Seq<bool>)
    requires
        forall|i: int| 0 <= i < s.len() ==> !s[i],
    ensures
        unvisited(s) == s.len(),
    decreases s.len(),
{
    if s.len() > 0 {
        lemma_unvisited_all(s.drop_last());
    }
}

pub proof fn lemma_unvisited_mark(s: Seq<bool>, i: int)
    requires
        0 <= i < s.len(),
        !s[i],
    ensures
        unvisited(s.update(i, true)) == unvisited(s) - 1,
    decreases s.len(),
{
    let t = s.update(i, true);
    if i == s.len() - 1 {
        assert(t.drop_last() =~= s.drop_last());
    } else {
        assert(t.drop_last() =~= s.drop_last().update(i, true));
        lemma_unvisited_mark(s.drop_last(), i);
    }
}

pub proof fn lemma_within_mono(g: Seq<Seq<usize>>, s: usize, v: usize, a: nat, b: nat)
    requires
        a <= b,
        within(g, s, v, a),
    ensures
        within(g, s, v, b),
    decreases b - a,
{
    if a < b {
        lemma_within_mono(g, s, v, a, (b - 1) as nat);
    }
}

pub proof fn lemma_within_step(g: Seq<Seq<usize>>, s: usize, u: usize, v: usize, k: nat)
    requires
        u < g.len(),
        within(g, s, u, k),
        g[u as int].contains(v),
    ensures
        within(g, s, v, k + 1),
{
    assert(one_more(g, s, v, k));
}

pub proof fn lemma_exactly_unique(g: Seq<Seq<usize>>, s: usize, v: usize, a: nat, b: nat)
    requires
        exactly(g, s, v, a),
        exactly(g, s, v, b),
    ensures
        a == b,
{
    if a < b {
        lemma_within_mono(g, s, v, a, (b - 1) as nat);
    }
    if b < a {
        lemma_within_mono(g, s, v, b, (a - 1) as nat);
    }
}

/// The last word of a ladder of `m` hops is within `m` hops of the first.
pub proof fn lemma_path_within(g: Seq<Seq<usize>>, p: Seq<usize>, s: usize, e: usize)
    requires
        is_path(g, p, s, e),
    ensures
        within(g, s, e, (p.len() - 1) as nat),
    decreases p.len(),
{
    if p.len() > 1 {
        let q = p.drop_last();
        let u = q.last();
        assert(is_path(g, q, s, u)) by {
            assert forall|i: int| 0 <= i < q.len() - 1 implies g[q[i] as int].contains(#[trigger] q[i + 1]) by {
                assert(g[p[i] as int].contains(p[i + 1]));
            }
            assert(forall|i: int| 0 <= i < q.len() ==> q[i] == p[i]);
        }
        lemma_path_within(g, q, s, u);
        assert(g[p[p.len() - 2] as int].contains(p[p.len() - 2 + 1]));
        lemma_within_step(g, s, u, e, (q.len() - 1) as nat);
    }
}

/// Once no word is first reached at hop `k + 1`, no word is ever first reached
/// later.
pub proof fn lemma_closed(g: Seq<Seq<usize>>, s: usize, k: nat, m: nat, v: usize)
    requires
        k <= m,
        forall|x: usize| within(g, s, x, k + 1) ==> #[trigger] within(g, s, x, k),
        within(g, s, v, m),
    ensures
        within(g, s, v, k),
    decreases m,
{
    if m > k {
        assert(m > 0);
        if within(g, s, v, (m - 1) as nat) {
            lemma_closed(g, s, k, (m - 1) as nat, v);
        } else {
            assert(one_more(g, s, v, (m - 1) as nat));
            let u = choose|u: usize|
                u < g.len() && within(g, s, u, (m - 1) as nat) && #[trigger] g[u as int].contains(v);
            lemma_closed(g, s, k, (m - 1) as nat, u);
            lemma_within_step(g, s, u, v, k);
        }
    }
}

/// The facts that the search keeps about each visited word: how many hops it
/// lies from the start, and the visited word it was first reached from.
pub open spec fn records_ok(
    g: Seq<Seq<usize>>,
    s: usize,
    visited: Seq<bool>,
    dist: Seq<usize>,
    pred: Seq<usize>,
    level: nat,
) -> bool {
    forall|v: int|
        0 <= v < visited.len() && #[trigger] visited[v] ==> {
            &&& dist[v] <= level
            &&& exactly(g, s, v as usize, dist[v] as nat)
            &&& dist[v] > 0 ==> {
                &&& pred[v] < visited.len()
                &&& visited[pred[v] as int]
                &&& dist[pred[v] as int] + 1 == dist[v]
                &&& g[pred[v] as int].contains(v as usize)
            }
        }
}

/// Marks the unvisited neighbors of `u`, a word first reached at hop `level`,
/// as first reached at hop `level + 1` from `u`, and appends them to `next`.
fn visit_neighbors(
    g: &NeighborGraph,
    u: usize,
    level: usize,
    base: Ghost<Seq<bool>>,
    visited: &mut Vec<bool>,
    dist: &mut Vec<usize>,
    pred: &mut Vec<usize>,
    next: &mut Vec<usize>,
)
    requires
        in_bounds(g@),
        u < g@.len(),
        level + 1 <= g@.len(),
        old(visited)@.len() == g@.len(),
        old(dist)@.len() == g@.len(),
        old(pred)@.len() == g@.len(),
        base@.len() == g@.len(),
        forall|v: int| 0 <= v < g@.len() ==> (#[trigger] old(visited)@[v] <==> (base@[v] || old(next)@.contains(v as usize))),
    ensures
        final(visited)@.len() == g@.len(),
        final(dist)@.len() == g@.len(),
        final(pred)@.len() == g@.len(),
        forall|v: int| 0 <= v < g@.len() ==> (#[trigger] final(visited)@[v] <==> (base@[v] || final(next)@.contains(v as usize))),
        forall|v: int| 0 <= v < g@.len() && #[trigger] old(visited)@[v] ==> final(visited)@[v],
        forall|y: int| 0 <= y < g@[u as int].len() ==> final(visited)@[#[trigger] g@[u as int][y] as int],
        unvisited(final(visited)@) + final(next)@.len() == unvisited(old(visited)@) + old(next)@.len(),
        forall|v: usize| #[trigger] final(next)@.contains(v) ==> old(next)@.contains(v) || (!old(visited)@[v as int] && v < g@.len() && g@[u as int].contains(v)),
        forall|v: int| 0 <= v < g@.len() && #[trigger] final(visited)@[v] && !old(visited)@[v] ==> final(dist)@[v] == level + 1 && final(pred)@[v] == u,
        forall|v: int| 0 <= v < g@.len() && #[trigger] old(visited)@[v] ==> final(dist)@[v] == old(dist)@[v] && final(pred)@[v] == old(pred)@[v],
{
    let ghost gv = g@;
    let n = g.neighbors.len();
    let nbs = &g.neighbors[u];
    assert(nbs@ == gv[u as int]);
    let mut b: usize = 0;
    while b < nbs.len()
        invariant
            gv == g@,
            n == gv.len(),
            in_bounds(gv),
            u < n,
            level + 1 <= n,
            nbs@ == gv[u as int],
            b <= nbs@.len(),
            visited@.len() == n,
            dist@.len() == n,
            pred@.len() == n,
            base@.len() == n,
            forall|v: int| 0 <= v < n ==> (#[trigger] visited@[v] <==> (base@[v] || next@.contains(v as usize))),
            forall|v: int| 0 <= v < n && #[trigger] old(visited)@[v] ==> visited@[v],
            forall|y: int| 0 <= y < b ==> visited@[#[trigger] gv[u as int][y] as int],
            unvisited(visited@) + next@.len() == unvisited(old(visited)@) + old(next)@.len(),
            forall|v: usize| #[trigger] next@.contains(v) ==> old(next)@.contains(v) || (!old(visited)@[v as int] && v < n && gv[u as int].contains(v)),
            forall|v: int| 0 <= v < n && #[trigger] visited@[v] && !old(visited)@[v] ==> dist@[v] == level + 1 && pred@[v] == u,
            forall|v: int| 0 <= v < n && #[trigger] old(visited)@[v] ==> dist@[v] == old(dist)@[v] && pred@[v] == old(pred)@[v],
        decreases nbs@.len() - b,
    {
        let v = nbs[b];
        assert(gv[u as int][b as int] == v);
        assert(gv[u as int].contains(v));
        if !visited[v] {
            let ghost vis_before = visited@;
            let ghost next_before = next@;
            proof {
                lemma_unvisited_mark(visited@, v as int);
            }
            visited.set(v, true);
            dist.set(v, level + 1);
            pred.set(v, u);
            next.push(v);
            assert(next@.contains(v)) by {
                assert(next@[next_before.len() as int] == v);
            }
            assert forall|w: usize| #[trigger] next@.contains(w) implies old(next)@.contains(w) || (!old(visited)@[w as int] && w < n && gv[u as int].contains(w)) by {
                if w != v {
                    let t = choose|t: int| 0 <= t < next@.len() && next@[t] == w;
                    assert(next_before[t] == w);
                    assert(next_before.contains(w));
                }
            }
            assert forall|w: int| 0 <= w < n implies (#[trigger] visited@[w] <==> (base@[w] || next@.contains(w as usize))) by {
                if w != v as int {
                    assert(visited@[w] == vis_before[w]);
                    if next@.contains(w as usize) {
                        let t = choose|t: int| 0 <= t < next@.len() && next@[t] == w as usize;
                        assert(next_before[t] == w as usize);
                    }
                    if next_before.contains(w as usize) {
                        let t = choose|t: int| 0 <= t < next_before.len() && next_before[t] == w as usize;
                        assert(next@[t] == w as usize);
                    }
                }
            }
            assert forall|y: int| 0 <= y < b + 1 implies visited@[#[trigger] gv[u as int][y] as int] by {
                if y < b {
                    assert(vis_before[gv[u as int][y] as int]);
                }
            }
        }
        b = b + 1;
    }
}

/// Expands the search by one hop: every unvisited neighbor of a word of
/// `frontier`, the words first reached at hop `level`, is visited and returned.
fn expand(
    g: &NeighborGraph,
    start: usize,
    frontier: &Vec<usize>,
    level: usize,
    visited: &mut Vec<bool>,
    dist: &mut Vec<usize>,
    pred: &mut Vec<usize>,
) -> (next: Vec<usize>)
    requires
        in_bounds(g@),
        start < g@.len(),
        level + 1 <= g@.len(),
        old(visited)@.len() == g@.len(),
        old(dist)@.len() == g@.len(),
        old(pred)@.len() == g@.len(),
        forall|v: int| 0 <= v < g@.len() ==> (#[trigger] old(visited)@[v] <==> within(g@, start, v as usize, level as nat)),
        forall|v: usize| #[trigger] frontier@.contains(v) <==> (v < g@.len() && exactly(g@, start, v, level as nat)),
        records_ok(g@, start, old(visited)@, old(dist)@, old(pred)@, level as nat),
    ensures
        final(visited)@.len() == g@.len(),
        final(dist)@.len() == g@.len(),
        final(pred)@.len() == g@.len(),
        forall|v: int| 0 <= v < g@.len() ==> (#[trigger] final(visited)@[v] <==> within(g@, start, v as usize, (level + 1) as nat)),
        forall|v: usize| #[trigger] next@.contains(v) <==> (v < g@.len() && exactly(g@, start, v, (level + 1) as nat)),
        records_ok(g@, start, final(visited)@, final(dist)@, final(pred)@, (level + 1) as nat),
        unvisited(final(visited)@) + next@.len() == unvisited(old(visited)@),
{
    let ghost gv = g@;
    let ghost base = old(visited)@;
    let ghost dist0 = old(dist)@;
    let ghost pred0 = old(pred)@;
    let n = g.neighbors.len();
    let mut next: Vec<usize> = Vec::new();
    let mut a: usize = 0;
    while a < frontier.len()
        invariant
            gv == g@,
            n == gv.len(),
            in_bounds(gv),
            start < n,
            level + 1 <= n,
            a <= frontier@.len(),
            visited@.len() == n,
            dist@.len() == n,
            pred@.len() == n,
            base.len() == n,
            forall|v: usize| #[trigger] frontier@.contains(v) <==> (v < n && exactly(gv, start, v, level as nat)),
            forall|v: int| 0 <= v < n ==> (#[trigger] base[v] <==> within(gv, start, v as usize, level as nat)),
            forall|v: int| 0 <= v < n ==> (#[trigger] visited@[v] <==> (base[v] || next@.contains(v as usize))),
            forall|x: int, y: int| 0 <= x < a && 0 <= y < gv[frontier@[x] as int].len() ==> visited@[#[trigger] gv[frontier@[x] as int][y] as int],
            forall|v: usize| #[trigger] next@.contains(v) ==> v < n && !base[v as int] && exists|x: int| 0 <= x < a && #[trigger] gv[frontier@[x] as int].contains(v),
            forall|v: int| 0 <= v < n && #[trigger] visited@[v] && !base[v] ==> dist@[v] == level + 1 && pred@[v] < n && exists|x: int| 0 <= x < a && #[trigger] frontier@[x] == pred@[v] && gv[pred@[v] as int].contains(v as usize),
            forall|v: int| 0 <= v < n && #[trigger] base[v] ==> dist@[v] == dist0[v] && pred@[v] == pred0[v],
            records_ok(gv, start, base, dist0, pred0, level as nat),
            unvisited(visited@) + next@.len() == unvisited(base),
        decreases frontier@.len() - a,
    {
        let u = frontier[a];
        assert(frontier@.contains(u));
        let ghost vis1 = visited@;
        let ghost next1 = next@;
        let ghost dist1 = dist@;
        let ghost pred1 = pred@;
        visit_neighbors(g, u, level, Ghost(base), visited, dist, pred, &mut next);
        assert forall|x: int, y: int| 0 <= x < a + 1 && 0 <= y < gv[frontier@[x] as int].len() implies visited@[#[trigger] gv[frontier@[x] as int][y] as int] by {
            let w = gv[frontier@[x] as int][y] as int;
            assert(0 <= w < n) by {
                assert(frontier@.contains(frontier@[x]));
            }
            if x < a {
                assert(vis1[w]);
            } else {
                assert(frontier@[x] == u);
                assert(visited@[gv[u as int][y] as int]);
            }
        }
        assert forall|v: int| 0 <= v < n && #[trigger] base[v] implies dist@[v] == dist0[v] && pred@[v] == pred0[v] by {
            assert(vis1[v]);
        }
        assert forall|v: usize| #[trigger] next@.contains(v) implies v < n && !base[v as int] && exists|x: int| 0 <= x < a + 1 && #[trigger] gv[frontier@[x] as int].contains(v) by {
            if next1.contains(v) {
            } else {
                assert(gv[frontier@[a as int] as int].contains(v));
            }
        }
        assert forall|v: int| 0 <= v < n && #[trigger] visited@[v] && !base[v] implies dist@[v] == level + 1 && pred@[v] < n && exists|x: int| 0 <= x < a + 1 && #[trigger] frontier@[x] == pred@[v] && gv[pred@[v] as int].contains(v as usize) by {
            if vis1[v] {
            } else {
                assert(next@.contains(v as usize));
                assert(!next1.contains(v as usize));
                assert(frontier@[a as int] == pred@[v]);
            }
        }
        a = a + 1;
    }
    proof {
        assert forall|v: int| 0 <= v < n implies (#[trigger] visited@[v] <==> within(gv, start, v as usize, (level + 1) as nat)) by {
            let vu = v as usize;
            if visited@[v] {
                if base[v] {
                    lemma_within_mono(gv, start, vu, level as nat, (level + 1) as nat);
                } else {
                    assert(next@.contains(vu));
                    let x = choose|x: int| 0 <= x < frontier@.len() && #[trigger] gv[frontier@[x] as int].contains(vu);
                    assert(frontier@.contains(frontier@[x]));
                    lemma_within_step(gv, start, frontier@[x], vu, level as nat);
                }
            }
            if within(gv, start, vu, (level + 1) as nat) && !within(gv, start, vu, level as nat) {
                assert(one_more(gv, start, vu, level as nat));
                let u = choose|u: usize| u < gv.len() && within(gv, start, u, level as nat) && #[trigger] gv[u as int].contains(vu);
                if level > 0 && within(gv, start, u, (level - 1) as nat) {
                    lemma_within_step(gv, start, u, vu, (level - 1) as nat);
                    assert(false);
                }
                assert(frontier@.contains(u));
                let x = choose|x: int| 0 <= x < frontier@.len() && frontier@[x] == u;
                let y = choose|y: int| 0 <= y < gv[u as int].len() && gv[u as int][y] == vu;
                assert(visited@[gv[frontier@[x] as int][y] as int]);
            }
        }
        assert forall|v: usize| #[trigger] next@.contains(v) <==> (v < n && exactly(gv, start, v, (level + 1) as nat)) by {
            if next@.contains(v) {
                assert(visited@[v as int]);
                assert(!base[v as int]);
            }
            if v < n && exactly(gv, start, v, (level + 1) as nat) {
                assert(visited@[v as int]);
                assert(!base[v as int]);
            }
        }
        assert forall|v: int| 0 <= v < visited@.len() && #[trigger] visited@[v] implies {
            &&& dist@[v] <= level + 1
            &&& exactly(gv, start, v as usize, dist@[v] as nat)
            &&& dist@[v] > 0 ==> {
                &&& pred@[v] < visited@.len()
                &&& visited@[pred@[v] as int]
                &&& dist@[pred@[v] as int] + 1 == dist@[v]
                &&& gv[pred@[v] as int].contains(v as usize)
            }
        } by {
            if base[v] {
                if dist@[v] > 0 {
                    assert(base[pred0[v] as int]);
                }
            } else {
                assert(next@.contains(v as usize));
                let x = choose|x: int| 0 <= x < frontier@.len() && #[trigger] frontier@[x] == pred@[v] && gv[pred@[v] as int].contains(v as usize);
                let u = pred@[v];
                assert(frontier@.contains(u));
                assert(base[u as int]);
                lemma_exactly_unique(gv, start, u, dist0[u as int] as nat, level as nat);
            }
        }
    }
    next
}

/// Searches `g` breadth-first from `start` and returns a ladder from `start`
/// to `end` with as few hops as any, or `None` when there is none.
pub fn find_path(g: &NeighborGraph, start: usize, end: usize) -> (r: Option<Vec<usize>>)
    requires
        in_bounds(g@),
        start < g@.len(),
        end < g@.len(),
    ensures
        match r {
            Some(p) => is_path(g@, p@, start, end) && forall|q: Seq<usize>|
                #[trigger] is_path(g@, q, start, end) ==> p@.len() <= q.len(),
            None => forall|q: Seq<usize>| !#[trigger] is_path(g@, q, start, end),
        },
{
    let ghost gv = g@;
    let n = g.neighbors.len();
    let mut visited: Vec<bool> = Vec::new();
    let mut dist: Vec<usize> = Vec::new();
    let mut pred: Vec<usize> = Vec::new();
    for i in 0..n
        invariant
            visited@.len() == i,
            dist@.len() == i,
            pred@.len() == i,
            forall|j: int| 0 <= j < i ==> !visited@[j],
            forall|j: int| 0 <= j < i ==> dist@[j] == 0,
    {
        visited.push(false);
        dist.push(0);
        pred.push(0);
    }
    proof {
        lemma_unvisited_all(visited@);
        lemma_unvisited_mark(visited@, start as int);
    }
    visited.set(start, true);
    let mut frontier: Vec<usize> = Vec::new();
    frontier.push(start);
    let mut level: usize = 0;
    assert(frontier@.contains(start)) by {
        assert(frontier@[0] == start);
    }
    assert forall|v: usize| #[trigger] frontier@.contains(v) <==> (v < n && exactly(gv, start, v, 0)) by {
        if frontier@.contains(v) {
            let t = choose|t: int| 0 <= t < frontier@.len() && frontier@[t] == v;
        }
    }
    assert(records_ok(gv, start, visited@, dist@, pred@, 0)) by {
        assert forall|v: int| 0 <= v < visited@.len() && #[trigger] visited@[v] implies v == start as int by {}
    }
    while frontier.len() > 0
        invariant
            gv == g@,
            n == gv.len(),
            in_bounds(gv),
            start < n,
            end < n,
            visited@.len() == n,
            dist@.len() == n,
            pred@.len() == n,
            forall|v: int| 0 <= v < n ==> (#[trigger] visited@[v] <==> within(gv, start, v as usize, level as nat)),
            forall|v: usize| #[trigger] frontier@.contains(v) <==> (v < n && exactly(gv, start, v, level as nat)),
            records_ok(gv, start, visited@, dist@, pred@, level as nat),
            frontier@.len() > 0 ==> level + unvisited(visited@) < n,
            level + unvisited(visited@) <= n,
        decreases unvisited(visited@) + if frontier@.len() > 0 { 1int } else { 0int },
    {
        proof {
            lemma_unvisited_bounds(visited@);
        }
        let next = expand(g, start, &frontier, level, &mut visited, &mut dist, &mut pred);
        proof {
            lemma_unvisited_bounds(visited@);
        }
        frontier = next;
        level = level + 1;
    }
    proof {
        assert forall|x: usize| within(gv, start, x, (level + 1) as nat) implies #[trigger] within(gv, start, x, level as nat) by {
            if !within(gv, start, x, level as nat) {
                assert(one_more(gv, start, x, level as nat));
                let u = choose|u: usize| u < gv.len() && within(gv, start, u, level as nat) && #[trigger] gv[u as int].contains(x);
                if level > 0 && within(gv, start, u, (level - 1) as nat) {
                    lemma_within_step(gv, start, u, x, (level - 1) as nat);
                }
                assert(frontier@.contains(u));
            }
        }
    }
    if !visited[end] {
        proof {
            assert forall|q: Seq<usize>| !#[trigger] is_path(gv, q, start, end) by {
                if is_path(gv, q, start, end) {
                    lemma_path_within(gv, q, start, end);
                    let m = (q.len() - 1) as nat;
                    if m >= level {
                        lemma_closed(gv, start, level as nat, m, end);
                    } else {
                        lemma_within_mono(gv, start, end, m, level as nat);
                    }
                }
            }
        }
        return None;
    }
    let path = trace_back(g, start, end, &visited, &dist, &pred, Ghost(level as nat));
    Some(path)
}

/// Follows the recorded predecessors back from `end` to `start`.
#[verifier::rlimit(40)]
fn trace_back(
    g: &NeighborGraph,
    start: usize,
    end: usize,
    visited: &Vec<bool>,
    dist: &Vec<usize>,
    pred: &Vec<usize>,
    level: Ghost<nat>,
) -> (path: Vec<usize>)
    requires
        start < g@.len(),
        end < g@.len(),
        visited@.len() == g@.len(),
        dist@.len() == g@.len(),
        pred@.len() == g@.len(),
        visited@[end as int],
        records_ok(g@, start, visited@, dist@, pred@, level@),
    ensures
        is_path(g@, path@, start, end),
        forall|q: Seq<usize>| #[trigger] is_path(g@, q, start, end) ==> path@.len() <= q.len(),
{
    let ghost gv = g@;
    let n = g.neighbors.len();
    let d = dist[end];
    let mut path: Vec<usize> = Vec::new();
    let mut i: usize = 0;
    while i < d
        invariant
            path@.len() == i,
            i <= d,
            forall|k: int| 0 <= k < i ==> path@[k] == end,
        decreases d - i,
    {
        path.push(end);
        i = i + 1;
    }
    path.push(end);
    let mut cur = end;
    while dist[cur] > 0
        invariant
            gv == g@,
            n == gv.len(),
            visited@.len() == n,
            dist@.len() == n,
            pred@.len() == n,
            records_ok(gv, start, visited@, dist@, pred@, level@),
            cur < n,
            visited@[cur as int],
            d == dist@[end as int],
            dist@[cur as int] <= d,
            path@.len() == d + 1,
            path@[dist@[cur as int] as int] == cur,
            path@[d as int] == end,
            forall|k: int| dist@[cur as int] <= k <= d ==> #[trigger] path@[k] < n,
            forall|k: int| dist@[cur as int] <= k < d ==> gv[path@[k] as int].contains(#[trigger] path@[k + 1]),
        decreases dist@[cur as int],
    {
        let p = pred[cur];
        let k = dist[cur] - 1;
        let ghost old_path = path@;
        let ghost dc = dist@[cur as int];
        assert(visited@[cur as int]);
        assert(p < n && visited@[p as int] && dist@[p as int] + 1 == dc && gv[p as int].contains(cur));
        path.set(k, p);
        assert(path@[k as int + 1] == cur);
        assert forall|j: int| dist@[p as int] <= j <= d implies #[trigger] path@[j] < n by {
            if j > k {
                assert(path@[j] == old_path[j]);
            }
        }
        assert forall|j: int| dist@[p as int] <= j < d implies gv[path@[j] as int].contains(#[trigger] path@[j + 1]) by {
            if j > k {
                assert(path@[j] == old_path[j]);
                assert(path@[j + 1] == old_path[j + 1]);
            }
        }
        cur = p;
    }
    proof {
        assert(exactly(gv, start, cur, 0));
        assert(path@.last() == end);
        assert(exactly(gv, start, end, d as nat));
        assert forall|q: Seq<usize>| #[trigger] is_path(gv, q, start, end) implies path@.len() <= q.len() by {
            lemma_path_within(gv, q, start, end);
            let m = (q.len() - 1) as nat;
            if m < d {
                lemma_within_mono(gv, start, end, m, (d - 1) as nat);
            }
        }
    }
    path
}

} // verus!
