//! Byte-level text handling: splitting on a separator byte and joining back.
use vstd::prelude::*;

verus! {

/// The newline byte that ends each line of a text.
pub const NEWLINE: u8 = 10;

/// The space byte that separates the tokens of a line.
pub const SPACE: u8 = 32;

/// The plain byte contents of a sequence of byte vectors.
pub open spec fn views(v: Seq<Vec<u8>>) -> Seq<Seq<u8>> {
    v.map_values(|x: Vec<u8>| x@)
}

/// The fragments of `s` between occurrences of `sep`, empty ones included:
/// a text with `k` separators has `k + 1` fragments.
pub open spec fn fragments(s: Seq<u8>, sep: u8) -> Seq<Seq<u8>>
    decreases s.len(),
{
    if s.len() == 0 {
        seq![Seq::<u8>::empty()]
    } else {
        let f = fragments(s.drop_last(), sep);
        if s.last() == sep {
            f.push(Seq::<u8>::empty())
        } else {
            f.update(f.len() - 1, f.last().push(s.last()))
        }
    }
}

/// The lines of a text: its newline-separated fragments, without the empty
/// fragment that follows a final newline.
pub open spec fn lines_of(s: Seq<u8>) -> Seq<Seq<u8>> {
    let f = fragments(s, NEWLINE);
    if f.last().len() == 0 {
        f.drop_last()
    } else {
        f
    }
}

/// Each line followed by a newline, concatenated.
pub open spec fn terminated(ls: Seq<Seq<u8>>) -> Seq<u8>
    decreases ls.len(),
{
    if ls.len() == 0 {
        Seq::<u8>::empty()
    } else {
        terminated(ls.drop_last()) + ls.last() + seq![NEWLINE]
    }
}

/// A first token followed by the others, each of them preceded by `sep`.
pub open spec fn joined(first: Seq<u8>, rest: Seq<Seq<u8>>, sep: u8) -> Seq<u8>
    decreases rest.len(),
{
    if rest.len() == 0 {
        first
    } else {
        joined(first, rest.drop_last(), sep) + seq![sep] + rest.last()
    }
}

/// No element of `ls` holds the byte `b`.
pub open spec fn free_of(ls: Seq<Seq<u8>>, b: u8) -> bool {
    forall|i: int| 0 <= i < ls.len() ==> !(#[trigger] ls[i]).contains(b)
}

pub proof fn lemma_fragments_nonempty(s: Seq<u8>, sep: u8)
    ensures
        fragments(s, sep).len() >= 1,
    decreases s.len(),
{
    if s.len() > 0 {
        lemma_fragments_nonempty(s.drop_last(), sep);
    }
}

/// Appending bytes that hold no separator extends the last fragment.
pub proof fn lemma_fragments_extend(x: Seq<u8>, b: Seq<u8>, sep: u8)
    requires
        !b.contains(sep),
    ensures
        fragments(x + b, sep) == fragments(x, sep).update(
            fragments(x, sep).len() - 1,
            fragments(x, sep).last() + b,
        ),
    decreases b.len(),
{
    lemma_fragments_nonempty(x, sep);
    if b.len() == 0 {
        assert(x + b =~= x);
        assert(fragments(x, sep).last() + b =~= fragments(x, sep).last());
        assert(fragments(x, sep).update(fragments(x, sep).len() - 1, fragments(x, sep).last())
            =~= fragments(x, sep));
    } else {
        let b0 = b.drop_last();
        assert(!b0.contains(sep)) by {
            if b0.contains(sep) {
                let k = choose|k: int| 0 <= k < b0.len() && b0[k] == sep;
                assert(b[k] == sep);
            }
        }
        lemma_fragments_extend(x, b0, sep);
        assert((x + b).drop_last() =~= x + b0);
        assert(b.last() != sep) by {
            assert(b[b.len() - 1] == b.last());
        }
        assert(fragments(x, sep).last() + b0 + seq![b.last()] =~= fragments(x, sep).last() + b);
        let f = fragments(x, sep);
        let g = fragments(x + b0, sep);
        assert(g.last() == f.last() + b0);
        assert(g.last().push(b.last()) =~= f.last() + b);
        assert(g.update(g.len() - 1, g.last().push(b.last())) =~= f.update(
            f.len() - 1,
            f.last() + b,
        ));
    }
}

/// Splitting the newline-terminated concatenation of lines that hold no
/// newline gives back those lines.
pub proof fn lemma_lines_of_terminated(ls: Seq<Seq<u8>>)
    requires
        free_of(ls, NEWLINE),
    ensures
        fragments(terminated(ls), NEWLINE) == ls.push(Seq::<u8>::empty()),
        lines_of(terminated(ls)) == ls,
    decreases ls.len(),
{
    if ls.len() == 0 {
        assert(ls.push(Seq::<u8>::empty()) =~= seq![Seq::<u8>::empty()]);
    } else {
        let l0 = ls.drop_last();
        assert(free_of(l0, NEWLINE)) by {
            assert forall|i: int| 0 <= i < l0.len() implies !(#[trigger] l0[i]).contains(
                NEWLINE,
            ) by {
                assert(l0[i] == ls[i]);
            }
        }
        lemma_lines_of_terminated(l0);
        let t0 = terminated(l0);
        assert(!ls.last().contains(NEWLINE)) by {
            assert(ls[ls.len() - 1] == ls.last());
        }
        lemma_fragments_extend(t0, ls.last(), NEWLINE);
        let t1 = t0 + ls.last();
        assert(terminated(ls) == t1 + seq![NEWLINE]);
        assert((t1 + seq![NEWLINE]).drop_last() =~= t1);
        assert(Seq::<u8>::empty() + ls.last() =~= ls.last());
        assert(l0.push(Seq::<u8>::empty()).update(l0.len() as int, ls.last()) =~= ls);
    }
    assert(ls.push(Seq::<u8>::empty()).drop_last() =~= ls);
}

/// Splitting a line of tokens that hold no separator gives back the tokens.
pub proof fn lemma_fragments_joined(first: Seq<u8>, rest: Seq<Seq<u8>>, sep: u8)
    requires
        !first.contains(sep),
        free_of(rest, sep),
    ensures
        fragments(joined(first, rest, sep), sep) == seq![first] + rest,
    decreases rest.len(),
{
    if rest.len() == 0 {
        lemma_fragments_extend(Seq::<u8>::empty(), first, sep);
        assert(Seq::<u8>::empty() + first =~= first);
        assert(seq![first] + rest =~= seq![first]);
    } else {
        let r0 = rest.drop_last();
        assert(free_of(r0, sep)) by {
            assert forall|i: int| 0 <= i < r0.len() implies !(#[trigger] r0[i]).contains(sep) by {
                assert(r0[i] == rest[i]);
            }
        }
        lemma_fragments_joined(first, r0, sep);
        let j0 = joined(first, r0, sep);
        assert(!rest.last().contains(sep)) by {
            assert(rest[rest.len() - 1] == rest.last());
        }
        lemma_fragments_extend(j0 + seq![sep], rest.last(), sep);
        assert((j0 + seq![sep]).drop_last() =~= j0);
        assert(Seq::<u8>::empty() + rest.last() =~= rest.last());
        assert((seq![first] + r0).push(Seq::<u8>::empty()).update(
            rest.len() as int,
            rest.last(),
        ) =~= seq![first] + rest);
    }
}

/// Splits `s` at every occurrence of `sep`.
pub fn split_on(s: &[u8], sep: u8) -> (r: Vec<Vec<u8>>)
    ensures
        views(r@) == fragments(s@, sep),
{
    let mut out: Vec<Vec<u8>> = Vec::new();
    let mut cur: Vec<u8> = Vec::new();
    for i in 0..s.len()
        invariant
            views(out@).push(cur@) == fragments(s@.subrange(0, i as int), sep),
    {
        assert(s@.subrange(0, i + 1).drop_last() =~= s@.subrange(0, i as int));
        assert(s@.subrange(0, i + 1).last() == s@[i as int]);
        if s[i] == sep {
            assert(views(out@.push(cur)) =~= views(out@).push(cur@));
            out.push(cur);
            cur = Vec::new();
            assert(views(out@).push(cur@) =~= fragments(s@.subrange(0, i + 1), sep));
        } else {
            cur.push(s[i]);
            assert(views(out@).push(cur@) =~= fragments(s@.subrange(0, i + 1), sep));
        }
    }
    assert(s@.subrange(0, s@.len() as int) =~= s@);
    assert(views(out@.push(cur)) =~= views(out@).push(cur@));
    out.push(cur);
    out
}

/// Splits a text into its lines.
pub fn split_lines(s: &[u8]) -> (r: Vec<Vec<u8>>)
    ensures
        views(r@) == lines_of(s@),
{
    let mut r = split_on(s, NEWLINE);
    proof {
        lemma_fragments_nonempty(s@, NEWLINE);
    }
    let n = r.len();
    if r[n - 1].len() == 0 {
        r.pop();
        assert(views(r@) =~= fragments(s@, NEWLINE).drop_last());
    }
    r
}

/// Writes each line followed by a newline.
pub fn join_lines(ls: &Vec<Vec<u8>>) -> (r: Vec<u8>)
    ensures
        r@ == terminated(views(ls@)),
{
    let mut out: Vec<u8> = Vec::new();
    for i in 0..ls.len()
        invariant
            out@ == terminated(views(ls@.subrange(0, i as int))),
    {
        assert(views(ls@.subrange(0, i + 1)).drop_last() =~= views(ls@.subrange(0, i as int)));
        let line = &ls[i];
        let ghost before = out@;
        for j in 0..line.len()
            invariant
                out@ == before + line@.subrange(0, j as int),
        {
            out.push(line[j]);
            assert(out@ =~= before + line@.subrange(0, j + 1));
        }
        out.push(NEWLINE);
        assert(line@.subrange(0, line@.len() as int) =~= line@);
        assert(out@ =~= terminated(views(ls@.subrange(0, i + 1))));
    }
    assert(ls@.subrange(0, ls@.len() as int) =~= ls@);
    out
}

} // verus!
