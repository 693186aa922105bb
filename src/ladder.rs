//! Word ladders: shortest chains of one-letter substitutions inside a word set.
use vstd::prelude::*;
use crate::graph::{in_bounds, is_graph_of, lemma_graph_in_bounds, one_apart, NeighborGraph};
use crate::search::{find_path, is_path};
use crate::text::views;
use crate::words::{copy_bytes, index_contents, WordSet};

verus! {

/// `l` is a ladder over `words` from `start` to `end`: every rung is a word of
/// the set, and each is one letter apart from the one before.
pub open spec fn is_ladder(words: Seq<Seq<u8>>, l: Seq<Seq<u8>>, start: Seq<u8>, end: Seq<u8>) -> bool {
    &&& l.len() >= 1
    &&& l[0] == start
    &&& l.last() == end
    &&& forall|i: int| 0 <= i < l.len() ==> words.contains(#[trigger] l[i])
    &&& forall|i: int| 0 <= i < l.len() - 1 ==> one_apart(l[i], #[trigger] l[i + 1])
}

/// The graph `g` over `words` lists `b` as a neighbor of `a`.
pub open spec fn linked(words: Seq<Seq<u8>>, g: Seq<Seq<usize>>, a: Seq<u8>, b: Seq<u8>) -> bool {
    exists|i: int, j: usize|
        0 <= i < words.len() && j < words.len() && words[i] == a && words[j as int] == b
            && #[trigger] g[i].contains(j)
}

/// `l` is a walk along `g` over `words` from `start` to `end`: every rung is a
/// word of the set, and each is listed as a neighbor of the one before.
pub open spec fn is_walk(
    words: Seq<Seq<u8>>,
    g: Seq<Seq<usize>>,
    l: Seq<Seq<u8>>,
    start: Seq<u8>,
    end: Seq<u8>,
) -> bool {
    &&& l.len() >= 1
    &&& l[0] == start
    &&& l.last() == end
    &&& forall|i: int| 0 <= i < l.len() ==> words.contains(#[trigger] l[i])
    &&& forall|i: int| 0 <= i < l.len() - 1 ==> linked(words, g, l[i], #[trigger] l[i + 1])
}

/// Why no search was made.
#[derive(Debug)]
pub enum LadderError {
    /// The named word is not in the set.
    WordNotFound { word: Vec<u8> },
}

/// The positions of the rungs of a walk form a path of the same length.
proof fn lemma_walk_to_path(ws: &WordSet, g: Seq<Seq<usize>>, l: Seq<Seq<u8>>, start: Seq<u8>, end: Seq<u8>)
    requires
        ws.wf(),
        g.len() == ws@.len(),
        is_walk(ws@, g, l, start, end),
    ensures
        is_path(
            g,
            l.map_values(|w: Seq<u8>| index_contents(ws.index)[w] as usize),
            index_contents(ws.index)[start] as usize,
            index_contents(ws.index)[end] as usize,
        ),
{
    let q = l.map_values(|w: Seq<u8>| index_contents(ws.index)[w] as usize);
    assert forall|i: int| 0 <= i < l.len() implies index_contents(ws.index).contains_key(#[trigger] l[i])
        && index_contents(ws.index)[l[i]] < ws@.len() && ws@[index_contents(ws.index)[l[i]] as int] == l[i] by {
        assert(ws@.contains(l[i]));
        let t = choose|t: int| 0 <= t < ws@.len() && ws@[t] == l[i];
        assert(index_contents(ws.index).contains_key(ws@[t]));
    }
    assert forall|i: int| 0 <= i < q.len() implies #[trigger] q[i] < g.len() by {
        assert(index_contents(ws.index).contains_key(l[i]));
    }
    assert forall|i: int| 0 <= i < q.len() - 1 implies g[q[i] as int].contains(#[trigger] q[i + 1]) by {
        assert(linked(ws@, g, l[i], l[i + 1]));
        let (a, b) = choose|a: int, b: usize|
            0 <= a < ws@.len() && b < ws@.len() && ws@[a] == l[i] && ws@[b as int] == l[i + 1]
                && #[trigger] g[a].contains(b);
        assert(index_contents(ws.index).contains_key(ws@[a]));
        assert(index_contents(ws.index).contains_key(ws@[b as int]));
        assert(index_contents(ws.index).contains_key(l[i]));
        assert(index_contents(ws.index).contains_key(l[i + 1]));
    }
    assert(q[0] == index_contents(ws.index)[start] as usize);
    assert(q.last() == q[q.len() - 1]);
}

/// On the neighbor graph of a word set, walks are exactly the ladders.
pub proof fn lemma_walks_are_ladders(
    words: Seq<Seq<u8>>,
    g: Seq<Seq<usize>>,
    l: Seq<Seq<u8>>,
    start: Seq<u8>,
    end: Seq<u8>,
)
    requires
        is_graph_of(g, words),
        words.len() <= usize::MAX,
    ensures
        is_walk(words, g, l, start, end) <==> is_ladder(words, l, start, end),
{
    if is_walk(words, g, l, start, end) {
        assert forall|i: int| 0 <= i < l.len() - 1 implies one_apart(l[i], #[trigger] l[i + 1]) by {
            assert(linked(words, g, l[i], l[i + 1]));
        }
    }
    if is_ladder(words, l, start, end) {
        assert forall|i: int| 0 <= i < l.len() - 1 implies linked(words, g, l[i], #[trigger] l[i + 1]) by {
            assert(words.contains(l[i]));
            assert(words.contains(l[i + 1]));
            let a = choose|a: int| 0 <= a < words.len() && words[a] == l[i];
            let b = choose|b: int| 0 <= b < words.len() && words[b] == l[i + 1];
            let bu = b as usize;
            assert(g[a].contains(bu));
            assert(words[bu as int] == l[i + 1]);
        }
    }
}

/// Finds a shortest walk from `start` to `end` along `g`, any graph over the
/// words of `ws`. It fails with `WordNotFound` naming `start` when `start` is
/// not in the set, else naming `end` when `end` is not. Otherwise it returns
/// `None` when no walk exists, and else a walk with as few rungs as any.
pub fn find_listed_ladder(ws: &WordSet, g: &NeighborGraph, start: &[u8], end: &[u8]) -> (r: Result<
    Option<Vec<Vec<u8>>>,
    LadderError,
>)
    requires
        ws.wf(),
        g@.len() == ws@.len(),
        in_bounds(g@),
    ensures
        !ws@.contains(start@) ==> (r matches Err(LadderError::WordNotFound { word }) && word@
            == start@),
        ws@.contains(start@) && !ws@.contains(end@) ==> (r matches Err(
            LadderError::WordNotFound { word },
        ) && word@ == end@),
        r is Err ==> !ws@.contains(start@) || !ws@.contains(end@),
        r matches Ok(Some(l)) ==> is_walk(ws@, g@, views(l@), start@, end@) && forall|m: Seq<Seq<u8>>|
            #[trigger] is_walk(ws@, g@, m, start@, end@) ==> l@.len() <= m.len(),
        r matches Ok(None) ==> forall|m: Seq<Seq<u8>>| !#[trigger] is_walk(ws@, g@, m, start@, end@),
{
    let si = match ws.find(start) {
        Some(i) => i,
        None => {
            return Err(LadderError::WordNotFound { word: copy_bytes(start) });
        },
    };
    let ei = match ws.find(end) {
        Some(i) => i,
        None => {
            return Err(LadderError::WordNotFound { word: copy_bytes(end) });
        },
    };
    proof {
        assert(index_contents(ws.index).contains_key(ws@[si as int]));
        assert(index_contents(ws.index).contains_key(ws@[ei as int]));
    }
    match find_path(g, si, ei) {
        None => {
            proof {
                assert forall|m: Seq<Seq<u8>>| !#[trigger] is_walk(ws@, g@, m, start@, end@) by {
                    if is_walk(ws@, g@, m, start@, end@) {
                        lemma_walk_to_path(ws, g@, m, start@, end@);
                        let q = m.map_values(|w: Seq<u8>| index_contents(ws.index)[w] as usize);
                        assert(is_path(g@, q, si, ei));
                    }
                }
            }
            Ok(None)
        },
        Some(p) => {
            let mut l: Vec<Vec<u8>> = Vec::new();
            for i in 0..p.len()
                invariant
                    ws.wf(),
                    is_path(g@, p@, si, ei),
                    g@.len() == ws@.len(),
                    l@.len() == i,
                    forall|k: int| 0 <= k < i ==> (#[trigger] l@[k])@ == ws@[p@[k] as int],
            {
                assert(p@[i as int] < g@.len());
                let w = copy_bytes(ws.words[p[i]].as_slice());
                l.push(w);
            }
            proof {
                let lv = views(l@);
                assert forall|k: int| 0 <= k < lv.len() implies ws@.contains(#[trigger] lv[k]) by {
                    assert(lv[k] == ws@[p@[k] as int]);
                }
                assert forall|k: int| 0 <= k < lv.len() - 1 implies linked(ws@, g@, lv[k], #[trigger] lv[k + 1]) by {
                    assert(g@[p@[k] as int].contains(p@[k + 1]));
                    assert(lv[k] == ws@[p@[k] as int]);
                    assert(lv[k + 1] == ws@[p@[k + 1] as int]);
                }
                assert(lv[0] == ws@[si as int]);
                assert(lv.last() == lv[lv.len() - 1]);
                assert(p@.last() == p@[p@.len() - 1]);
                assert forall|m: Seq<Seq<u8>>| #[trigger] is_walk(ws@, g@, m, start@, end@) implies l@.len() <= m.len() by {
                    lemma_walk_to_path(ws, g@, m, start@, end@);
                    let q = m.map_values(|w: Seq<u8>| index_contents(ws.index)[w] as usize);
                    assert(is_path(g@, q, si, ei));
                }
            }
            Ok(Some(l))
        },
    }
}

/// Finds a shortest ladder from `start` to `end` over the words of `ws`, whose
/// neighbor graph is `g`. It fails with `WordNotFound` naming `start` when
/// `start` is not in the set, else naming `end` when `end` is not. Otherwise
/// it returns `None` when no ladder exists, and else a ladder with as few
/// rungs as any.
pub fn find_ladder(ws: &WordSet, g: &NeighborGraph, start: &[u8], end: &[u8]) -> (r: Result<
    Option<Vec<Vec<u8>>>,
    LadderError,
>)
    requires
        ws.wf(),
        is_graph_of(g@, ws@),
    ensures
        !ws@.contains(start@) ==> (r matches Err(LadderError::WordNotFound { word }) && word@
            == start@),
        ws@.contains(start@) && !ws@.contains(end@) ==> (r matches Err(
            LadderError::WordNotFound { word },
        ) && word@ == end@),
        r is Err ==> !ws@.contains(start@) || !ws@.contains(end@),
        r matches Ok(Some(l)) ==> is_ladder(ws@, views(l@), start@, end@) && forall|m: Seq<Seq<u8>>|
            #[trigger] is_ladder(ws@, m, start@, end@) ==> l@.len() <= m.len(),
        r matches Ok(None) ==> forall|m: Seq<Seq<u8>>| !#[trigger] is_ladder(ws@, m, start@, end@),
{
    proof {
        lemma_graph_in_bounds(g@, ws@);
    }
    let r = find_listed_ladder(ws, g, start, end);
    proof {
        assert(ws@.len() == ws.words.len());
        assert forall|m: Seq<Seq<u8>>| #[trigger] is_ladder(ws@, m, start@, end@) <==> is_walk(ws@, g@, m, start@, end@) by {
            lemma_walks_are_ladders(ws@, g@, m, start@, end@);
        }
        if r is Ok && r->Ok_0 is Some {
            lemma_walks_are_ladders(ws@, g@, views(r->Ok_0->Some_0@), start@, end@);
        }
    }
    r
}

} // verus!
