//! The dictionary text format: one line per word, the word followed by its
//! neighbors, separated by single spaces.
use vstd::prelude::*;
use crate::graph::{holds, in_bounds, NeighborGraph};
use crate::text::{
    free_of, fragments, join_lines, joined, lemma_fragments_joined, lemma_lines_of_terminated,
    lines_of, split_lines, split_on, terminated, views, NEWLINE, SPACE,
};
use crate::words::{
    all_in_alphabet, copy_bytes, same_length, word_set_of, LoadError, WordSet,
};

verus! {

/// The names of the neighbors listed in `nbs`.
pub open spec fn names(words: Seq<Seq<u8>>, nbs: Seq<usize>) -> Seq<Seq<u8>> {
    nbs.map_values(|j: usize| words[j as int])
}

/// The dictionary line of word `i`.
pub open spec fn dict_line(words: Seq<Seq<u8>>, g: Seq<Seq<usize>>, i: int) -> Seq<u8> {
    joined(words[i], names(words, g[i]), SPACE)
}

/// The dictionary text of a graph over `words`.
pub open spec fn dict_text(words: Seq<Seq<u8>>, g: Seq<Seq<usize>>) -> Seq<u8> {
    terminated(Seq::new(g.len(), |i: int| dict_line(words, g, i)))
}

/// Each entry of a graph as a token list: the word, then its neighbors.
pub open spec fn graph_entries(words: Seq<Seq<u8>>, g: Seq<Seq<usize>>) -> Seq<Seq<Seq<u8>>> {
    Seq::new(g.len(), |i: int| seq![words[i]] + names(words, g[i]))
}

/// The token lists of the lines of a dictionary text.
pub open spec fn decoded(s: Seq<u8>) -> Seq<Seq<Seq<u8>>> {
    lines_of(s).map_values(|l: Seq<u8>| fragments(l, SPACE))
}

/// A token list with an empty token: an empty line, or a doubled, leading or
/// trailing space.
pub open spec fn malformed(toks: Seq<Seq<u8>>) -> bool {
    exists|t: int| 0 <= t < toks.len() && (#[trigger] toks[t]).len() == 0
}

/// Line `k` is the first malformed line.
pub open spec fn first_malformed(d: Seq<Seq<Seq<u8>>>, k: int) -> bool {
    &&& 0 <= k < d.len()
    &&& malformed(d[k])
    &&& forall|j: int| 0 <= j < k ==> !malformed(#[trigger] d[j])
}

/// One dictionary entry: a word and the words listed as its neighbors.
#[derive(Debug)]
pub struct DictEntry {
    pub word: Vec<u8>,
    pub neighbors: Vec<Vec<u8>>,
}

impl DictEntry {
    /// The entry as a token list.
    pub open spec fn view(&self) -> Seq<Seq<u8>> {
        seq![self.word@] + views(self.neighbors@)
    }
}

/// The entries as token lists.
pub open spec fn entry_views(es: Seq<DictEntry>) -> Seq<Seq<Seq<u8>>> {
    es.map_values(|e: DictEntry| e@)
}

/// Why a dictionary text could not be read.
#[derive(Debug)]
pub enum CodecError {
    /// The line at this position (counted from zero) has an empty token.
    MalformedLine { line: usize },
}

proof fn lemma_joined_free(first: Seq<u8>, rest: Seq<Seq<u8>>, sep: u8, b: u8)
    requires
        sep != b,
        !first.contains(b),
        free_of(rest, b),
    ensures
        !joined(first, rest, sep).contains(b),
    decreases rest.len(),
{
    if rest.len() > 0 {
        let r0 = rest.drop_last();
        assert(free_of(r0, b)) by {
            assert forall|i: int| 0 <= i < r0.len() implies !(#[trigger] r0[i]).contains(b) by {
                assert(r0[i] == rest[i]);
            }
        }
        lemma_joined_free(first, r0, sep, b);
        let j0 = joined(first, r0, sep);
        let last = rest.last();
        assert(!last.contains(b)) by {
            assert(rest[rest.len() - 1] == last);
        }
        let j = j0 + seq![sep] + last;
        if j.contains(b) {
            let t = choose|t: int| 0 <= t < j.len() && j[t] == b;
            if t < j0.len() {
                assert(j0[t] == b);
            } else if t > j0.len() {
                assert(last[t - j0.len() - 1] == b);
            }
        }
    }
}

/// Reading back the dictionary text of a graph gives each word followed by
/// exactly its neighbors, in the order in which they were written, and no
/// line of it is malformed, for non-empty words that hold no space and no
/// newline.
pub proof fn lemma_round_trip(words: Seq<Seq<u8>>, g: Seq<Seq<usize>>)
    requires
        g.len() == words.len(),
        in_bounds(g),
        forall|i: int| 0 <= i < words.len() ==> (#[trigger] words[i]).len() > 0,
        free_of(words, SPACE),
        free_of(words, NEWLINE),
    ensures
        decoded(dict_text(words, g)) == graph_entries(words, g),
        forall|k: int| 0 <= k < g.len() ==> !malformed(#[trigger] decoded(dict_text(words, g))[k]),
{
    let lines = Seq::new(g.len(), |i: int| dict_line(words, g, i));
    assert forall|i: int| 0 <= i < g.len() implies fragments(#[trigger] lines[i], SPACE) == seq![words[i]]
        + names(words, g[i]) && !lines[i].contains(NEWLINE) by {
        let nm = names(words, g[i]);
        assert(!words[i].contains(SPACE));
        assert(!words[i].contains(NEWLINE));
        assert(free_of(nm, SPACE) && free_of(nm, NEWLINE)) by {
            assert forall|k: int| 0 <= k < nm.len() implies !(#[trigger] nm[k]).contains(SPACE) && !nm[k].contains(NEWLINE) by {
                assert(g[i].len() == nm.len());
                assert(g[i][k] < g.len());
                assert(nm[k] == words[g[i][k] as int]);
            }
        }
        lemma_fragments_joined(words[i], nm, SPACE);
        lemma_joined_free(words[i], nm, SPACE, NEWLINE);
    }
    assert(free_of(lines, NEWLINE));
    lemma_lines_of_terminated(lines);
    assert(decoded(dict_text(words, g)) =~= graph_entries(words, g));
    assert forall|k: int| 0 <= k < g.len() implies !malformed(#[trigger] decoded(dict_text(words, g))[k]) by {
        let e = graph_entries(words, g)[k];
        assert forall|t: int| 0 <= t < e.len() implies (#[trigger] e[t]).len() > 0 by {
            if t > 0 {
                assert(g[k][t - 1] < g.len());
                assert(e[t] == words[g[k][t - 1] as int]);
            }
        }
    }
}

/// The dictionary line of word `i`.
fn encode_line(ws: &WordSet, g: &NeighborGraph, i: usize) -> (r: Vec<u8>)
    requires
        g@.len() == ws@.len(),
        in_bounds(g@),
        i < g@.len(),
    ensures
        r@ == dict_line(ws@, g@, i as int),
{
    let mut line = copy_bytes(ws.words[i].as_slice());
    let nbs = &g.neighbors[i];
    let ghost nm = names(ws@, g@[i as int]);
    assert(nbs@ == g@[i as int]);
    assert(nm.subrange(0, 0) =~= Seq::<Seq<u8>>::empty());
    for k in 0..nbs.len()
        invariant
            g@.len() == ws@.len(),
            in_bounds(g@),
            i < g@.len(),
            nbs@ == g@[i as int],
            nm == names(ws@, g@[i as int]),
            line@ == joined(ws@[i as int], nm.subrange(0, k as int), SPACE),
    {
        assert(nbs@[k as int] < g@.len());
        let w = &ws.words[nbs[k]];
        let ghost before = line@;
        line.push(SPACE);
        for t in 0..w.len()
            invariant
                line@ == before + seq![SPACE] + w@.subrange(0, t as int),
        {
            line.push(w[t]);
            assert(line@ =~= before + seq![SPACE] + w@.subrange(0, t + 1));
        }
        assert(w@.subrange(0, w@.len() as int) =~= w@);
        assert(nm.subrange(0, k + 1).drop_last() =~= nm.subrange(0, k as int));
        assert(nm[k as int] == w@);
    }
    assert(nm.subrange(0, nm.len() as int) =~= nm);
    line
}

/// Writes a graph as dictionary text: for each word a line with the word and
/// then its neighbors, separated by single spaces.
pub fn encode_dict(ws: &WordSet, g: &NeighborGraph) -> (r: Vec<u8>)
    requires
        g@.len() == ws@.len(),
        in_bounds(g@),
    ensures
        r@ == dict_text(ws@, g@),
{
    let mut lines: Vec<Vec<u8>> = Vec::new();
    for i in 0..g.neighbors.len()
        invariant
            g@.len() == ws@.len(),
            in_bounds(g@),
            lines@.len() == i,
            forall|k: int| 0 <= k < i ==> (#[trigger] lines@[k])@ == dict_line(ws@, g@, k),
    {
        let line = encode_line(ws, g, i);
        lines.push(line);
    }
    let r = join_lines(&lines);
    assert(views(lines@) =~= Seq::new(g@.len(), |i: int| dict_line(ws@, g@, i)));
    r
}

/// Whether a line has an empty token.
fn has_empty_token(toks: &Vec<Vec<u8>>) -> (r: bool)
    ensures
        r == malformed(views(toks@)),
{
    for t in 0..toks.len()
        invariant
            forall|k: int| 0 <= k < t ==> toks@[k]@.len() > 0,
    {
        if toks[t].len() == 0 {
            assert(views(toks@)[t as int].len() == 0);
            return true;
        }
    }
    false
}

/// Reads dictionary text: one entry per line, its first token the word and
/// the others its neighbors. It fails with `MalformedLine` naming the first
/// line that has an empty token.
pub fn decode_dict(src: &[u8]) -> (r: Result<Vec<DictEntry>, CodecError>)
    ensures
        match r {
            Ok(es) => entry_views(es@) == decoded(src@) && forall|k: int| 0 <= k < decoded(src@).len()
                ==> !malformed(#[trigger] decoded(src@)[k]),
            Err(CodecError::MalformedLine { line }) => first_malformed(decoded(src@), line as int),
        },
{
    let lines = split_lines(src);
    let ghost d = decoded(src@);
    let mut es: Vec<DictEntry> = Vec::new();
    for i in 0..lines.len()
        invariant
            views(lines@) == lines_of(src@),
            d == decoded(src@),
            d.len() == lines@.len(),
            es@.len() == i,
            forall|k: int| 0 <= k < i ==> (#[trigger] es@[k])@ == d[k],
            forall|k: int| 0 <= k < i ==> !malformed(#[trigger] d[k]),
    {
        let toks = split_on(lines[i].as_slice(), SPACE);
        assert(views(toks@) == d[i as int]) by {
            assert(lines@[i as int]@ == lines_of(src@)[i as int]);
        }
        if has_empty_token(&toks) {
            return Err(CodecError::MalformedLine { line: i });
        }
        proof {
            crate::text::lemma_fragments_nonempty(lines@[i as int]@, SPACE);
        }
        let mut toks = toks;
        let ghost all = views(toks@);
        let word = toks.remove(0);
        let e = DictEntry { word, neighbors: toks };
        assert(e@ =~= all);
        es.push(e);
    }
    assert(entry_views(es@) =~= d);
    Ok(es)
}

/// The words that the lines of a decoded dictionary define.
pub open spec fn dict_words(d: Seq<Seq<Seq<u8>>>) -> Seq<Seq<u8>> {
    d.map_values(|e: Seq<Seq<u8>>| e[0])
}

/// Some line of `d` defines `a` and lists `b` among its neighbors.
pub open spec fn lists(d: Seq<Seq<Seq<u8>>>, a: Seq<u8>, b: Seq<u8>) -> bool {
    exists|k: int| 0 <= k < d.len() && (#[trigger] d[k])[0] == a && d[k].drop_first().contains(b)
}

/// Line `k` of `d` lists a neighbor that no line defines.
pub open spec fn unknown_in(d: Seq<Seq<Seq<u8>>>, k: int) -> bool {
    exists|t: int| 1 <= t < d[k].len() && !dict_words(d).contains(#[trigger] d[k][t])
}

/// Why a dictionary text could not be loaded as a graph.
#[derive(Debug)]
pub enum DictError {
    /// The line at this position (counted from zero) has an empty token.
    MalformedLine { line: usize },
    /// The words that the lines define do not form a word set.
    Words { error: LoadError },
    /// The line at this position lists a neighbor that no line defines.
    UnknownNeighbor { line: usize },
}

/// A copy of a list of positions.
fn copy_positions(v: &Vec<usize>) -> (r: Vec<usize>)
    ensures
        r@ == v@,
{
    let mut r: Vec<usize> = Vec::new();
    for i in 0..v.len()
        invariant
            r@ == v@.subrange(0, i as int),
    {
        r.push(v[i]);
        assert(r@ =~= v@.subrange(0, i + 1));
    }
    assert(v@.subrange(0, v@.len() as int) =~= v@);
    r
}

/// Loads dictionary text as a word set over `alphabet` and its graph, in which
/// a word's neighbors are the words that its lines list. It fails with
/// `MalformedLine` as `decode_dict` does, else with `Words` when the defined
/// words do not form a word set, else with `UnknownNeighbor` naming the first
/// line that lists an undefined word.
pub fn load_dict(src: &[u8], alphabet: &[u8]) -> (r: Result<(WordSet, NeighborGraph), DictError>)
    ensures
        ({
            let d = decoded(src@);
            let ws = dict_words(d);
            let words_ok = all_in_alphabet(ws, alphabet@) && ws.len() > 0 && same_length(ws);
            let parsed = forall|k: int| 0 <= k < d.len() ==> !malformed(#[trigger] d[k]);
            &&& (r matches Err(DictError::MalformedLine { .. })) <==> !parsed
            &&& r matches Err(DictError::MalformedLine { line }) ==> first_malformed(d, line as int)
            &&& (r matches Err(DictError::Words { .. })) <==> parsed && !words_ok
            &&& r matches Err(DictError::Words { error }) ==> ((error matches LoadError::InvalidEncoding)
                <==> !all_in_alphabet(ws, alphabet@))
            &&& r matches Err(DictError::UnknownNeighbor { line }) ==> parsed && words_ok
                && unknown_in(d, line as int) && forall|k: int| 0 <= k < line ==> !unknown_in(d, k)
            &&& r is Ok <==> parsed && words_ok && forall|k: int| 0 <= k < d.len() ==> !unknown_in(d, k)
            &&& r matches Ok((set, g)) ==> {
                &&& set.wf()
                &&& set.alphabet@ == alphabet@
                &&& set@.to_set() == ws.to_set()
                &&& g@.len() == set@.len()
                &&& in_bounds(g@)
                &&& forall|i: int, j: usize| 0 <= i < g@.len() ==> (#[trigger] g@[i].contains(j)
                    <==> j < set@.len() && lists(d, set@[i], set@[j as int]))
                &&& forall|i: int| 0 <= i < g@.len() ==> (#[trigger] g@[i]).no_duplicates()
            }
        }),
{
    let es = match decode_dict(src) {
        Ok(es) => es,
        Err(CodecError::MalformedLine { line }) => {
            return Err(DictError::MalformedLine { line });
        },
    };
    let ghost d = decoded(src@);
    assert forall|k: int| 0 <= k < es@.len() implies (#[trigger] es@[k]).word@ == d[k][0] && views(
        es@[k].neighbors@,
    ) == d[k].drop_first() by {
        assert(entry_views(es@)[k] == d[k]);
        assert(d[k].drop_first() =~= views(es@[k].neighbors@));
    }
    let mut words: Vec<Vec<u8>> = Vec::new();
    for k in 0..es.len()
        invariant
            d == decoded(src@),
            entry_views(es@) == d,
            forall|k: int| 0 <= k < d.len() ==> !malformed(#[trigger] d[k]),
            forall|k: int| 0 <= k < es@.len() ==> (#[trigger] es@[k]).word@ == d[k][0],
            words@.len() == k,
            forall|t: int| 0 <= t < k ==> (#[trigger] words@[t])@ == d[t][0],
    {
        let w = copy_bytes(es[k].word.as_slice());
        words.push(w);
    }
    let ghost ws = dict_words(d);
    assert(views(words@) =~= ws);
    assert forall|k: int| 0 <= k < words@.len() implies (#[trigger] words@[k])@.len() > 0 by {
        assert(!malformed(d[k]));
        assert(d[k].len() > 0) by {
            crate::text::lemma_fragments_nonempty(lines_of(src@)[k], SPACE);
        }
        assert(d[k][0].len() > 0);
    }
    let set = match word_set_of(&words, alphabet) {
        Ok(set) => set,
        Err(error) => {
            return Err(DictError::Words { error });
        },
    };
    let n = set.len();
    let mut g: Vec<Vec<usize>> = Vec::new();
    for i in 0..n
        invariant
            g@.len() == i,
            forall|a: int| 0 <= a < i ==> (#[trigger] g@[a])@.len() == 0,
    {
        g.push(Vec::new());
    }
    assert forall|a: int, j: usize| 0 <= a < n implies (#[trigger] g@[a]@.contains(j) <==> j < n
        && exists|k: int| 0 <= k < 0 && (#[trigger] d[k])[0] == set@[a] && d[k].drop_first().contains(
        set@[j as int],
    )) by {
        assert(g@[a]@.len() == 0);
    }
    for k in 0..es.len()
        invariant
            d == decoded(src@),
            ws == dict_words(d),
            set.wf(),
            set@.to_set() == ws.to_set(),
            n == set@.len(),
            g@.len() == n,
            forall|k: int| 0 <= k < es@.len() ==> (#[trigger] es@[k]).word@ == d[k][0] && views(
                es@[k].neighbors@,
            ) == d[k].drop_first(),
            es@.len() == d.len(),
            entry_views(es@) == d,
            forall|a: int, j: usize| 0 <= a < n ==> (#[trigger] g@[a]@.contains(j) <==> j < n
                && exists|kk: int| 0 <= kk < k && (#[trigger] d[kk])[0] == set@[a]
                && d[kk].drop_first().contains(set@[j as int])),
            forall|a: int| 0 <= a < n ==> (#[trigger] g@[a]@).no_duplicates(),
            forall|kk: int| 0 <= kk < k ==> !unknown_in(d, kk),
            forall|kk: int| 0 <= kk < d.len() ==> !malformed(#[trigger] d[kk]),
            all_in_alphabet(ws, alphabet@) && ws.len() > 0 && same_length(ws),
    {
        let e = &es[k];
        assert(ws[k as int] == d[k as int][0]);
        assert(set@.to_set().contains(e.word@));
        let i = match set.find(e.word.as_slice()) {
            Some(i) => i,
            None => {
                // Never taken: every defined word is in the set.
                proof {
                    assert(false);
                }
                return Err(DictError::UnknownNeighbor { line: k });
            },
        };
        let ghost before = g@;
        assert(e@ == d[k as int]) by {
            assert(entry_views(es@)[k as int] == e@);
        }
        let mut row = copy_positions(&g[i]);
        let ghost nm = views(e.neighbors@);
        for t in 0..e.neighbors.len()
            invariant
                set.wf(),
                set@.to_set() == ws.to_set(),
                n == set@.len(),
                i < n,
                k < d.len(),
                d[k as int].len() >= 1,
                forall|kk: int| 0 <= kk < k ==> !unknown_in(d, kk),
                forall|kk: int| 0 <= kk < d.len() ==> !malformed(#[trigger] d[kk]),
                all_in_alphabet(ws, alphabet@) && ws.len() > 0 && same_length(ws),
                before.len() == n,
                nm == views(e.neighbors@),
                nm == d[k as int].drop_first(),
                d == decoded(src@),
                ws == dict_words(d),
                row@.no_duplicates(),
                forall|j: usize| #[trigger] row@.contains(j) <==> (before[i as int]@.contains(j) || (j < n
                    && nm.subrange(0, t as int).contains(set@[j as int]))),
                forall|tt: int| 0 <= tt < t ==> ws.contains(#[trigger] nm[tt]),
        {
            let name = &e.neighbors[t];
            assert(name@ == nm[t as int]);
            match set.find(name.as_slice()) {
                None => {
                    proof {
                        assert(!ws.to_set().contains(nm[t as int]));
                        assert(nm.len() == e.neighbors@.len());
                        assert(d[k as int].drop_first()[t as int] == d[k as int][t + 1]);
                        assert(d[k as int][t + 1] == nm[t as int]);
                        assert(!dict_words(d).contains(d[k as int][t + 1]));
                        assert(unknown_in(d, k as int));
                    }
                    return Err(DictError::UnknownNeighbor { line: k });
                },
                Some(j) => {
                    let ghost row_before = row@;
                    if !holds(&row, j) {
                        row.push(j);
                        assert(row@.no_duplicates()) by {
                            assert forall|a: int, b: int| 0 <= a < row@.len() && 0 <= b < row@.len() && a != b implies row@[a] != row@[b] by {
                                if a < row_before.len() && b < row_before.len() {
                                    assert(row@[a] == row_before[a] && row@[b] == row_before[b]);
                                } else if a < row_before.len() {
                                    assert(row_before.contains(row@[a]));
                                } else if b < row_before.len() {
                                    assert(row_before.contains(row@[b]));
                                }
                            }
                        }
                        assert(row@[row_before.len() as int] == j);
                        assert forall|x: usize| row_before.contains(x) implies #[trigger] row@.contains(x) by {
                            let q = choose|q: int| 0 <= q < row_before.len() && row_before[q] == x;
                            assert(row@[q] == x);
                        }
                    }
                    assert(row@.contains(j));
                    assert forall|x: usize| #[trigger] row@.contains(x) <==> (before[i as int]@.contains(x) || (x < n
                        && nm.subrange(0, t + 1).contains(set@[x as int]))) by {
                        assert(nm.subrange(0, t + 1)[t as int] == nm[t as int]);
                        if x < n && nm.subrange(0, t + 1).contains(set@[x as int]) {
                            let q = choose|q: int| 0 <= q < t + 1 && #[trigger] nm.subrange(0, t + 1)[q] == set@[x as int];
                            if q < t {
                                assert(nm.subrange(0, t as int)[q] == set@[x as int]);
                            } else {
                                assert(set@[x as int] == set@[j as int]);
                                assert(crate::words::index_contents(set.index).contains_key(set@[x as int]));
                                assert(crate::words::index_contents(set.index).contains_key(set@[j as int]));
                            }
                        }
                        if row@.contains(x) && !row_before.contains(x) {
                            assert(x == j);
                        }
                        if row_before.contains(x) && !before[i as int]@.contains(x) {
                            let q = choose|q: int| 0 <= q < t && #[trigger] nm.subrange(0, t as int)[q] == set@[x as int];
                            assert(nm.subrange(0, t + 1)[q] == set@[x as int]);
                        }
                    }
                    assert(ws.to_set().contains(nm[t as int]));
                },
            }
        }
        assert(nm.subrange(0, nm.len() as int) =~= nm);
        g.set(i, row);
        proof {
            assert forall|tt: int| 1 <= tt < d[k as int].len() implies dict_words(d).contains(#[trigger] d[k as int][tt]) by {
                assert(d[k as int][tt] == nm[tt - 1]);
            }
            assert forall|a: int, j: usize| 0 <= a < n implies (#[trigger] g@[a]@.contains(j) <==> j < n
                && exists|kk: int| 0 <= kk < k + 1 && (#[trigger] d[kk])[0] == set@[a]
                && d[kk].drop_first().contains(set@[j as int])) by {
                if a == i as int {
                    if j < n && d[k as int][0] == set@[a] && d[k as int].drop_first().contains(set@[j as int]) {
                        assert(nm.contains(set@[j as int]));
                    }
                } else {
                    assert(g@[a] == before[a]);
                    if exists|kk: int| 0 <= kk < k + 1 && (#[trigger] d[kk])[0] == set@[a] && d[kk].drop_first().contains(set@[j as int]) {
                        let kk = choose|kk: int| 0 <= kk < k + 1 && (#[trigger] d[kk])[0] == set@[a] && d[kk].drop_first().contains(set@[j as int]);
                        if kk == k as int {
                            assert(set@[a] == set@[i as int]);
                            assert(crate::words::index_contents(set.index).contains_key(set@[a]));
                            assert(crate::words::index_contents(set.index).contains_key(set@[i as int]));
                        }
                    }
                }
            }
            assert forall|a: int| 0 <= a < n implies (#[trigger] g@[a]@).no_duplicates() by {
                if a != i as int {
                    assert(g@[a] == before[a]);
                }
            }
        }
    }
    let graph = NeighborGraph { neighbors: g };
    proof {
        assert forall|a: int| 0 <= a < graph@.len() implies #[trigger] graph@[a] == graph.neighbors@[a]@ by {}
        assert forall|a: int, b: int| 0 <= a < graph@.len() && 0 <= b < graph@[a].len() implies #[trigger] graph@[a][b] < graph@.len() by {
            assert(graph@[a].contains(graph@[a][b]));
        }
        assert forall|a: int, j: usize| 0 <= a < graph@.len() implies (#[trigger] graph@[a].contains(j)
            <==> j < set@.len() && lists(d, set@[a], set@[j as int])) by {
            assert(graph@[a] == g@[a]@);
        }
    }
    Ok((set, graph))
}

/// Reading back the dictionary text of a graph over distinct non-empty words
/// that hold no space and no newline defines the same words, in order, and
/// lists exactly the graph's neighbors of each.
pub proof fn lemma_dict_round_trip(words: Seq<Seq<u8>>, g: Seq<Seq<usize>>)
    requires
        g.len() == words.len(),
        in_bounds(g),
        words.no_duplicates(),
        forall|i: int| 0 <= i < words.len() ==> (#[trigger] words[i]).len() > 0,
        free_of(words, SPACE),
        free_of(words, NEWLINE),
    ensures
        dict_words(decoded(dict_text(words, g))) == words,
        forall|k: int| 0 <= k < g.len() ==> !malformed(#[trigger] decoded(dict_text(words, g))[k]),
        forall|i: int, j: usize| 0 <= i < g.len() && j < g.len() ==> (lists(
            decoded(dict_text(words, g)),
            words[i],
            words[j as int],
        ) <==> #[trigger] g[i].contains(j)),
{
    lemma_round_trip(words, g);
    let d = decoded(dict_text(words, g));
    assert(d == graph_entries(words, g));
    assert(dict_words(d) =~= words);
    assert forall|i: int, j: usize| 0 <= i < g.len() && j < g.len() implies (lists(d, words[i], words[j as int])
        <==> #[trigger] g[i].contains(j)) by {
        let nm = names(words, g[i]);
        assert(d[i].drop_first() =~= nm);
        if lists(d, words[i], words[j as int]) {
            let k = choose|k: int| 0 <= k < d.len() && (#[trigger] d[k])[0] == words[i] && d[k].drop_first().contains(words[j as int]);
            assert(d[k][0] == words[k]);
            assert(k == i);
            let t = choose|t: int| 0 <= t < nm.len() && nm[t] == words[j as int];
            assert(g[i][t] < g.len());
            assert(words[g[i][t] as int] == words[j as int]);
            assert(g[i][t] == j);
        }
        if g[i].contains(j) {
            let t = choose|t: int| 0 <= t < g[i].len() && g[i][t] == j;
            assert(nm[t] == words[j as int]);
            assert(d[i][0] == words[i]);
            assert(d[i].drop_first().contains(words[j as int]));
        }
    }
}

/// Whether a text is dictionary text rather than a word list: only dictionary
/// lines hold spaces.
pub fn is_dict_text(src: &[u8]) -> (r: bool)
    ensures
        r == src@.contains(SPACE),
{
    for i in 0..src.len()
        invariant
            forall|k: int| 0 <= k < i ==> src@[k] != SPACE,
    {
        if src[i] == SPACE {
            return true;
        }
    }
    false
}

} // verus!
