//! The neighbor graph: which words are one letter apart.
use vstd::prelude::*;
use crate::words::{in_alphabet, index_contents, WordSet};

verus! {

/// `b` is `a` with exactly one letter replaced by a different one.
pub open spec fn one_apart(a: Seq<u8>, b: Seq<u8>) -> bool {
    &&& a.len() == b.len()
    &&& exists|p: int| 0 <= p < a.len() && a[p] != b[p] && b == #[trigger] a.update(p, b[p])
}

/// `g` lists, for each word of `words` by position, the positions of exactly
/// the words one letter apart from it, each once.
pub open spec fn is_graph_of(g: Seq<Seq<usize>>, words: Seq<Seq<u8>>) -> bool {
    &&& g.len() == words.len()
    &&& forall|i: int, j: usize|
        0 <= i < g.len() ==> (#[trigger] g[i].contains(j) <==> j < words.len() && one_apart(
            words[i],
            words[j as int],
        ))
    &&& forall|i: int| 0 <= i < g.len() ==> (#[trigger] g[i]).no_duplicates()
}

/// Every listed neighbor is the position of a word.
pub open spec fn in_bounds(g: Seq<Seq<usize>>) -> bool {
    forall|i: int, k: int| 0 <= i < g.len() && 0 <= k < g[i].len() ==> #[trigger] g[i][k] < g.len()
}

/// The neighbor lists of a word set, by word position.
pub struct NeighborGraph {
    pub neighbors: Vec<Vec<usize>>,
}

impl NeighborGraph {
    pub open spec fn view(&self) -> Seq<Seq<usize>> {
        self.neighbors@.map_values(|v: Vec<usize>| v@)
    }

    /// The number of words in the graph.
    pub fn len(&self) -> (r: usize)
        ensures
            r == self@.len(),
    {
        self.neighbors.len()
    }

    /// The neighbors of the word at position `i`.
    pub fn neighbors_of(&self, i: usize) -> (r: &Vec<usize>)
        requires
            i < self@.len(),
        ensures
            r@ == self@[i as int],
    {
        &self.neighbors[i]
    }
}

pub proof fn lemma_one_apart_symmetric(a: Seq<u8>, b: Seq<u8>)
    requires
        one_apart(a, b),
    ensures
        one_apart(b, a),
{
    let p = choose|p: int| 0 <= p < a.len() && a[p] != b[p] && b == #[trigger] a.update(p, b[p]);
    assert(a =~= b.update(p, a[p]));
}

/// One-letter-apartness holds both ways.
pub proof fn lemma_neighbors_symmetric(g: Seq<Seq<usize>>, words: Seq<Seq<u8>>, i: usize, j: usize)
    requires
        is_graph_of(g, words),
        i < words.len(),
        j < words.len(),
    ensures
        g[i as int].contains(j) <==> g[j as int].contains(i),
{
    if g[i as int].contains(j) {
        lemma_one_apart_symmetric(words[i as int], words[j as int]);
    }
    if g[j as int].contains(i) {
        lemma_one_apart_symmetric(words[j as int], words[i as int]);
    }
}

/// No word is its own neighbor.
pub proof fn lemma_neighbors_irreflexive(g: Seq<Seq<usize>>, words: Seq<Seq<u8>>, i: usize)
    requires
        is_graph_of(g, words),
        i < words.len(),
    ensures
        !g[i as int].contains(i),
{
}

/// Every neighbor list of a graph of a word set points into it.
pub proof fn lemma_graph_in_bounds(g: Seq<Seq<usize>>, words: Seq<Seq<u8>>)
    requires
        is_graph_of(g, words),
    ensures
        in_bounds(g),
{
    assert forall|i: int, k: int| 0 <= i < g.len() && 0 <= k < g[i].len() implies #[trigger] g[i][k]
        < g.len() by {
        assert(g[i].contains(g[i][k]));
    }
}

/// `x` is `w` with the letter at `q` replaced by letter `k` of the alphabet,
/// which differs from it.
pub open spec fn substitution(w: Seq<u8>, alphabet: Seq<u8>, q: int, k: int, x: Seq<u8>) -> bool {
    &&& 0 <= q < w.len()
    &&& 0 <= k < alphabet.len()
    &&& alphabet[k] != w[q]
    &&& x == w.update(q, alphabet[k])
}

/// Whether `x` is listed in `v`.
pub(crate) fn holds(v: &Vec<usize>, x: usize) -> (r: bool)
    ensures
        r == v@.contains(x),
{
    for i in 0..v.len()
        invariant
            forall|k: int| 0 <= k < i ==> v@[k] != x,
    {
        if v[i] == x {
            return true;
        }
    }
    false
}

/// The positions of the words of `ws` one letter apart from word `i`, found by
/// trying every letter of the alphabet at every position.
pub fn compute_neighbors(ws: &WordSet, i: usize) -> (r: Vec<usize>)
    requires
        ws.wf(),
        i < ws@.len(),
    ensures
        forall|j: usize| #[trigger]
            r@.contains(j) <==> j < ws@.len() && one_apart(ws@[i as int], ws@[j as int]),
        r@.no_duplicates(),
{
    let ghost w = ws@[i as int];
    let ghost alpha = ws.alphabet@;
    let ghost n = ws@.len();
    let mut buf = crate::words::copy_bytes(ws.words[i].as_slice());
    let mut nb: Vec<usize> = Vec::new();
    let width = buf.len();
    for p in 0..width
        invariant
            ws.wf(),
            w == ws@[i as int],
            alpha == ws.alphabet@,
            n == ws@.len(),
            width == w.len(),
            buf@ == w,
            nb@.no_duplicates(),
            forall|j: usize| #[trigger]
                nb@.contains(j) <==> j < n && exists|q: int, k: int|
                    0 <= q < p && #[trigger] substitution(w, alpha, q, k, ws@[j as int]),
    {
        for k in 0..ws.alphabet.len()
            invariant
                ws.wf(),
                w == ws@[i as int],
                alpha == ws.alphabet@,
                n == ws@.len(),
                width == w.len(),
                p < width,
                buf@ == w,
                nb@.no_duplicates(),
                forall|j: usize| #[trigger]
                    nb@.contains(j) <==> j < n && exists|q: int, kk: int|
                        (0 <= q < p || (q == p && 0 <= kk < k)) && #[trigger] substitution(
                            w,
                            alpha,
                            q,
                            kk,
                            ws@[j as int],
                        ),
        {
            let c = ws.alphabet[k];
            let orig = buf[p];
            let ghost before = nb@;
            if orig != c {
                buf.set(p, c);
                assert(buf@ == w.update(p as int, alpha[k as int]));
                match ws.find(buf.as_slice()) {
                    Some(j) => {
                        assert(substitution(w, alpha, p as int, k as int, ws@[j as int]));
                        if !holds(&nb, j) {
                            nb.push(j);
                            assert(nb@[before.len() as int] == j);
                            assert forall|x: usize| before.contains(x) implies #[trigger] nb@.contains(
                                x,
                            ) by {
                                let t = choose|t: int| 0 <= t < before.len() && before[t] == x;
                                assert(nb@[t] == x);
                            }
                            assert(nb@.no_duplicates()) by {
                                assert forall|a: int, b: int|
                                    0 <= a < nb@.len() && 0 <= b < nb@.len() && a != b implies nb@[a]
                                    != nb@[b] by {
                                    if a < before.len() && b < before.len() {
                                        assert(nb@[a] == before[a] && nb@[b] == before[b]);
                                    } else if a < before.len() {
                                        assert(before.contains(nb@[a]));
                                    } else if b < before.len() {
                                        assert(before.contains(nb@[b]));
                                    }
                                }
                            }
                        }
                        assert(nb@.contains(j));
                        assert(forall|x: usize| #[trigger]
                            nb@.contains(x) ==> before.contains(x) || x == j);
                        assert(forall|x: usize| before.contains(x) ==> #[trigger] nb@.contains(x));
                        assert forall|jj: usize| #[trigger]
                            nb@.contains(jj) <==> jj < n && exists|q: int, kk: int|
                                (0 <= q < p || (q == p && 0 <= kk < k + 1))
                                    && #[trigger] substitution(w, alpha, q, kk, ws@[jj as int]) by {
                            if nb@.contains(jj) && !before.contains(jj) {
                                assert(jj == j);
                                assert(substitution(w, alpha, p as int, k as int, ws@[jj as int]));
                            }
                            if jj < n && exists|q: int, kk: int|
                                (0 <= q < p || (q == p && 0 <= kk < k + 1))
                                    && #[trigger] substitution(w, alpha, q, kk, ws@[jj as int]) {
                                let (q, kk) = choose|q: int, kk: int|
                                    (0 <= q < p || (q == p && 0 <= kk < k + 1))
                                        && #[trigger] substitution(w, alpha, q, kk, ws@[jj as int]);
                                if q == p && kk == k {
                                    assert(ws@[jj as int] == ws@[j as int]);
                                    assert(index_contents(ws.index).contains_key(ws@[jj as int]));
                                    assert(index_contents(ws.index).contains_key(ws@[j as int]));
                                    assert(index_contents(ws.index)[ws@[jj as int]] == jj);
                                    assert(index_contents(ws.index)[ws@[j as int]] == j);
                                } else {
                                    assert(before.contains(jj));
                                }
                            }
                        }
                    },
                    None => {
                        assert forall|jj: usize| #[trigger]
                            nb@.contains(jj) <==> jj < n && exists|q: int, kk: int|
                                (0 <= q < p || (q == p && 0 <= kk < k + 1))
                                    && #[trigger] substitution(w, alpha, q, kk, ws@[jj as int]) by {
                            if jj < n && substitution(w, alpha, p as int, k as int, ws@[jj as int]) {
                                assert(ws@.contains(ws@[jj as int]));
                            }
                        }
                    },
                }
                buf.set(p, orig);
                assert(buf@ =~= w);
            } else {
                assert forall|jj: usize| #[trigger]
                    nb@.contains(jj) <==> jj < n && exists|q: int, kk: int|
                        (0 <= q < p || (q == p && 0 <= kk < k + 1)) && #[trigger] substitution(
                            w,
                            alpha,
                            q,
                            kk,
                            ws@[jj as int],
                        ) by {
                    if jj < n && substitution(w, alpha, p as int, k as int, ws@[jj as int]) {
                        assert(false);
                    }
                }
            }
        }
    }
    proof {
        assert forall|j: usize| #[trigger]
            nb@.contains(j) <==> j < n && one_apart(w, ws@[j as int]) by {
            let x = ws@[j as int];
            if j < n && one_apart(w, x) {
                let q = choose|q: int| 0 <= q < w.len() && w[q] != x[q] && x == #[trigger] w.update(q, x[q]);
                assert(in_alphabet(x, alpha));
                assert(alpha.contains(x[q]));
                let k = choose|k: int| 0 <= k < alpha.len() && alpha[k] == x[q];
                assert(substitution(w, alpha, q, k, x));
            }
            if nb@.contains(j) {
                let (q, k) = choose|q: int, k: int| 0 <= q < width && #[trigger] substitution(w, alpha, q, k, x);
                assert(x[q] == alpha[k]);
                assert(x.len() == w.len());
            }
        }
    }
    nb
}

/// The neighbor graph of a word set: for each word, the words one letter apart.
pub fn build_graph(ws: &WordSet) -> (g: NeighborGraph)
    requires
        ws.wf(),
    ensures
        is_graph_of(g@, ws@),
        in_bounds(g@),
{
    let mut neighbors: Vec<Vec<usize>> = Vec::new();
    for i in 0..ws.words.len()
        invariant
            ws.wf(),
            neighbors@.len() == i,
            forall|a: int, j: usize|
                0 <= a < i ==> (#[trigger] neighbors@[a]@.contains(j) <==> j < ws@.len() && one_apart(
                    ws@[a],
                    ws@[j as int],
                )),
            forall|a: int| 0 <= a < i ==> (#[trigger] neighbors@[a]@).no_duplicates(),
    {
        let nb = compute_neighbors(ws, i);
        neighbors.push(nb);
        assert(neighbors@[i as int]@ == nb@);
    }
    let g = NeighborGraph { neighbors };
    assert forall|a: int, j: usize|
        0 <= a < g@.len() implies (#[trigger] g@[a].contains(j) <==> j < ws@.len() && one_apart(
        ws@[a],
        ws@[j as int],
    )) by {
        assert(g@[a] == g.neighbors@[a]@);
    }
    assert forall|a: int| 0 <= a < g@.len() implies (#[trigger] g@[a]).no_duplicates() by {
        assert(g@[a] == g.neighbors@[a]@);
    }
    proof {
        lemma_graph_in_bounds(g@, ws@);
    }
    g
}

} // verus!
