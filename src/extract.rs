//! Keeping the lines of a text that have a given length.
use vstd::prelude::*;
use crate::text::{
    free_of, fragments, join_lines, lemma_lines_of_terminated, lines_of, split_lines, terminated,
    views, NEWLINE,
};

verus! {

/// The elements of `ls` of length `n`, in order.
pub open spec fn of_length(ls: Seq<Seq<u8>>, n: nat) -> Seq<Seq<u8>>
    decreases ls.len(),
{
    if ls.len() == 0 {
        ls
    } else if ls.last().len() == n {
        of_length(ls.drop_last(), n).push(ls.last())
    } else {
        of_length(ls.drop_last(), n)
    }
}

/// The text that keeps the lines of `s` of length `n`, each ended by a newline.
pub open spec fn extracted(s: Seq<u8>, n: nat) -> Seq<u8> {
    terminated(of_length(lines_of(s), n))
}

pub proof fn lemma_fragments_free(s: Seq<u8>, sep: u8)
    ensures
        free_of(fragments(s, sep), sep),
    decreases s.len(),
{
    if s.len() > 0 {
        lemma_fragments_free(s.drop_last(), sep);
        crate::text::lemma_fragments_nonempty(s.drop_last(), sep);
        let f = fragments(s.drop_last(), sep);
        let h = fragments(s, sep);
        assert forall|i: int| 0 <= i < h.len() implies !(#[trigger] h[i]).contains(sep) by {
            if i < f.len() - 1 {
                assert(h[i] == f[i]);
            } else if s.last() != sep && i == f.len() - 1 {
                assert(!f[i].contains(sep));
                if h[i].contains(sep) {
                    let t = choose|t: int| 0 <= t < h[i].len() && h[i][t] == sep;
                    if t < f[i].len() {
                        assert(f[i][t] == sep);
                    }
                }
            } else if s.last() == sep && i == f.len() - 1 {
                assert(h[i] == f[i]);
            }
        }
    }
}

pub proof fn lemma_of_length(ls: Seq<Seq<u8>>, n: nat)
    requires
        free_of(ls, NEWLINE),
    ensures
        free_of(of_length(ls, n), NEWLINE),
        of_length(of_length(ls, n), n) == of_length(ls, n),
        forall|i: int| 0 <= i < of_length(ls, n).len() ==> (#[trigger] of_length(ls, n)[i]).len() == n,
    decreases ls.len(),
{
    if ls.len() > 0 {
        let l0 = ls.drop_last();
        assert(free_of(l0, NEWLINE)) by {
            assert forall|i: int| 0 <= i < l0.len() implies !(#[trigger] l0[i]).contains(NEWLINE) by {
                assert(l0[i] == ls[i]);
            }
        }
        lemma_of_length(l0, n);
        let f = of_length(l0, n);
        if ls.last().len() == n {
            let h = f.push(ls.last());
            assert(h.drop_last() =~= f);
            assert(ls[ls.len() - 1] == ls.last());
            assert forall|i: int| 0 <= i < h.len() implies !(#[trigger] h[i]).contains(NEWLINE) by {
                if i < f.len() {
                    assert(h[i] == f[i]);
                }
            }
        }
    }
}

/// Lines hold no newline.
pub proof fn lemma_lines_free(s: Seq<u8>)
    ensures
        free_of(lines_of(s), NEWLINE),
{
    lemma_fragments_free(s, NEWLINE);
    crate::text::lemma_fragments_nonempty(s, NEWLINE);
    let f = fragments(s, NEWLINE);
    let l = lines_of(s);
    assert forall|i: int| 0 <= i < l.len() implies !(#[trigger] l[i]).contains(NEWLINE) by {
        assert(l[i] == f[i]);
    }
}

/// Filtering the filtered text again by the same length leaves it unchanged.
pub proof fn lemma_extract_idempotent(s: Seq<u8>, n: nat)
    ensures
        extracted(extracted(s, n), n) == extracted(s, n),
{
    lemma_lines_free(s);
    lemma_of_length(lines_of(s), n);
    lemma_lines_of_terminated(of_length(lines_of(s), n));
}

/// Keeps the lines of `src` whose length is `len`, each followed by a newline.
pub fn extract_words(src: &[u8], len: usize) -> (r: Vec<u8>)
    ensures
        r@ == extracted(src@, len as nat),
{
    let lines = split_lines(src);
    let mut kept: Vec<Vec<u8>> = Vec::new();
    let mut i: usize = 0;
    while i < lines.len()
        invariant
            i <= lines@.len(),
            views(lines@) == lines_of(src@),
            views(kept@) == of_length(views(lines@.subrange(0, i as int)), len as nat),
        decreases lines@.len() - i,
    {
        let ghost sub = views(lines@.subrange(0, i + 1));
        assert(sub.drop_last() =~= views(lines@.subrange(0, i as int)));
        assert(sub.last() == lines@[i as int]@);
        if lines[i].len() == len {
            let w = crate::words::copy_bytes(lines[i].as_slice());
            kept.push(w);
            assert(views(kept@) =~= of_length(sub, len as nat));
        }
        i = i + 1;
    }
    assert(lines@.subrange(0, lines@.len() as int) =~= lines@);
    join_lines(&kept)
}

} // verus!
