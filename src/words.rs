//! The set of words that a ladder may use, and how it is read from text.
use vstd::prelude::*;
use crate::text::{fragments, split_on, views, NEWLINE};

verus! {

/// The FNV hasher, opaque here: it only parameterizes the map type.
#[verifier::external_type_specification]
#[verifier::external_body]
pub struct ExFnvHasher(fnv::FnvHasher);

/// std's default-building hasher factory, opaque here: it only parameterizes
/// the map type.
#[verifier::external_type_specification]
#[verifier::external_body]
#[verifier::reject_recursive_types(H)]
pub struct ExBuildHasherDefault<H>(std::hash::BuildHasherDefault<H>);

/// An index from word bytes to the position of the word, held in an FNV
/// hash map.
pub type WordIndex = fnv::FnvHashMap<Vec<u8>, usize>;

/// The entries that a `WordIndex` holds.
pub uninterp spec fn index_contents(m: WordIndex) -> Map<Seq<u8>, usize>;

/// Relies on `FnvHashMap::default`: a new map holds no entry.
#[verifier::external_body]
fn index_new() -> (r: WordIndex)
    ensures
        index_contents(r).dom() == Set::<Seq<u8>>::empty(),
{
    fnv::FnvHashMap::default()
}

/// Relies on `HashMap::insert` (over FNV hashing): the key is bound to the
/// value, the other entries stay.
#[verifier::external_body]
fn index_insert(m: &mut WordIndex, k: Vec<u8>, v: usize)
    ensures
        index_contents(*final(m)) == index_contents(*old(m)).insert(k@, v),
{
    m.insert(k, v);
}

/// Relies on `HashMap::get` (over FNV hashing): the value bound to the key,
/// if any.
#[verifier::external_body]
fn index_get(m: &WordIndex, k: &[u8]) -> (r: Option<usize>)
    ensures
        match r {
            Some(v) => index_contents(*m).contains_key(k@) && index_contents(*m)[k@] == v,
            None => !index_contents(*m).contains_key(k@),
        },
{
    m.get(k).copied()
}

/// Every byte of `w` is a letter of `alphabet`.
pub open spec fn in_alphabet(w: Seq<u8>, alphabet: Seq<u8>) -> bool {
    forall|i: int| 0 <= i < w.len() ==> alphabet.contains(#[trigger] w[i])
}

/// The non-empty fragments of `ls`, in order.
pub open spec fn non_empty(ls: Seq<Seq<u8>>) -> Seq<Seq<u8>>
    decreases ls.len(),
{
    if ls.len() == 0 {
        ls
    } else if ls.last().len() > 0 {
        non_empty(ls.drop_last()).push(ls.last())
    } else {
        non_empty(ls.drop_last())
    }
}

pub proof fn lemma_non_empty(ls: Seq<Seq<u8>>)
    ensures
        forall|k: int| 0 <= k < non_empty(ls).len() ==> (#[trigger] non_empty(ls)[k]).len() > 0,
    decreases ls.len(),
{
    if ls.len() > 0 {
        lemma_non_empty(ls.drop_last());
        let sub = non_empty(ls.drop_last());
        if ls.last().len() > 0 {
            assert forall|k: int| 0 <= k < non_empty(ls).len() implies (#[trigger] non_empty(
                ls,
            )[k]).len() > 0 by {
                if k < sub.len() {
                    assert(non_empty(ls)[k] == sub[k]);
                }
            }
        }
    }
}

/// The words that a text lists: its non-empty newline-separated fragments.
pub open spec fn listed_words(s: Seq<u8>) -> Seq<Seq<u8>> {
    non_empty(fragments(s, NEWLINE))
}

/// Every listed word uses the alphabet only.
pub open spec fn all_in_alphabet(ws: Seq<Seq<u8>>, alphabet: Seq<u8>) -> bool {
    forall|k: int| 0 <= k < ws.len() ==> in_alphabet(#[trigger] ws[k], alphabet)
}

/// Every listed word has the length of the first one.
pub open spec fn same_length(ws: Seq<Seq<u8>>) -> bool {
    forall|k: int| 0 <= k < ws.len() ==> (#[trigger] ws[k]).len() == ws[0].len()
}

/// `i` is the first position whose word is not as long as the first word.
pub open spec fn first_mismatch(ws: Seq<Seq<u8>>, i: int) -> bool {
    &&& 0 <= i < ws.len()
    &&& ws[i].len() != ws[0].len()
    &&& forall|k: int| 0 <= k < i ==> (#[trigger] ws[k]).len() == ws[0].len()
}

/// Why a list of words could not be loaded.
#[derive(Debug)]
pub enum LoadError {
    /// A word holds a byte outside the alphabet.
    InvalidEncoding,
    /// A word is not as long as the first word.
    InconsistentLength { word: Vec<u8> },
    /// The text lists no word.
    EmptySet,
}

/// A set of distinct words of one common length over an alphabet, with an
/// index from each word to its position.
pub struct WordSet {
    pub words: Vec<Vec<u8>>,
    pub width: usize,
    pub alphabet: Vec<u8>,
    pub index: WordIndex,
}

impl WordSet {
    /// The words, in the order in which they were first listed.
    pub open spec fn view(&self) -> Seq<Seq<u8>> {
        views(self.words@)
    }

    pub open spec fn wf(&self) -> bool {
        &&& self.width > 0
        &&& forall|i: int|
            0 <= i < self@.len() ==> (#[trigger] self@[i]).len() == self.width && in_alphabet(
                self@[i],
                self.alphabet@,
            )
        &&& forall|i: int|
            0 <= i < self@.len() ==> #[trigger] index_contents(self.index).contains_key(self@[i])
                && index_contents(self.index)[self@[i]] == i
        &&& forall|k: Seq<u8>| #[trigger]
            index_contents(self.index).contains_key(k) ==> index_contents(self.index)[k]
                < self@.len() && self@[index_contents(self.index)[k] as int] == k
    }

    /// The number of words.
    pub fn len(&self) -> (r: usize)
        ensures
            r == self@.len(),
    {
        self.words.len()
    }

    /// The common length of the words.
    pub fn width(&self) -> (r: usize)
        ensures
            r == self.width,
    {
        self.width
    }

    /// The word at position `i`.
    pub fn word(&self, i: usize) -> (r: &Vec<u8>)
        requires
            i < self@.len(),
        ensures
            r@ == self@[i as int],
    {
        &self.words[i]
    }

    /// The position of `w` in the set, if it is there.
    pub fn find(&self, w: &[u8]) -> (r: Option<usize>)
        requires
            self.wf(),
        ensures
            match r {
                Some(i) => i < self@.len() && self@[i as int] == w@,
                None => !self@.contains(w@),
            },
    {
        let r = index_get(&self.index, w);
        proof {
            if r is None && self@.contains(w@) {
                let i = choose|i: int| 0 <= i < self@.len() && self@[i] == w@;
                assert(index_contents(self.index).contains_key(self@[i]));
            }
        }
        r
    }
}

/// The lowercase ASCII letters `a` to `z`, the usual alphabet of words.
pub fn lowercase_alphabet() -> (r: Vec<u8>)
    ensures
        r@.len() == 26,
        forall|i: int| 0 <= i < 26 ==> #[trigger] r@[i] == 97 + i,
{
    let mut r: Vec<u8> = Vec::new();
    let mut c: u8 = 97;
    while c < 123
        invariant
            97 <= c <= 123,
            r@.len() == c - 97,
            forall|i: int| 0 <= i < r@.len() ==> #[trigger] r@[i] == 97 + i,
        decreases 123 - c,
    {
        r.push(c);
        c = c + 1;
    }
    r
}

/// A copy of the bytes of `s`.
pub fn copy_bytes(s: &[u8]) -> (r: Vec<u8>)
    ensures
        r@ == s@,
{
    let mut r: Vec<u8> = Vec::new();
    for i in 0..s.len()
        invariant
            r@ == s@.subrange(0, i as int),
    {
        r.push(s[i]);
        assert(r@ =~= s@.subrange(0, i + 1));
    }
    assert(s@.subrange(0, s@.len() as int) =~= s@);
    r
}

/// Whether `b` is a letter of `alphabet`.
fn is_letter(b: u8, alphabet: &[u8]) -> (r: bool)
    ensures
        r == alphabet@.contains(b),
{
    for i in 0..alphabet.len()
        invariant
            forall|k: int| 0 <= k < i ==> alphabet@[k] != b,
    {
        if alphabet[i] == b {
            return true;
        }
    }
    false
}

/// Whether every byte of `w` is a letter of `alphabet`.
fn uses_alphabet(w: &[u8], alphabet: &[u8]) -> (r: bool)
    ensures
        r == in_alphabet(w@, alphabet@),
{
    for i in 0..w.len()
        invariant
            forall|k: int| 0 <= k < i ==> alphabet@.contains(#[trigger] w@[k]),
    {
        if !is_letter(w[i], alphabet) {
            return false;
        }
    }
    true
}

/// The non-empty fragments of `ls`.
fn drop_empty(ls: Vec<Vec<u8>>) -> (r: Vec<Vec<u8>>)
    ensures
        views(r@) == non_empty(views(ls@)),
{
    let mut r: Vec<Vec<u8>> = Vec::new();
    let mut i: usize = 0;
    while i < ls.len()
        invariant
            i <= ls.len(),
            views(r@) == non_empty(views(ls@.subrange(0, i as int))),
        decreases ls.len() - i,
    {
        let ghost sub = views(ls@.subrange(0, i + 1));
        assert(sub.drop_last() =~= views(ls@.subrange(0, i as int)));
        assert(sub.last() == ls@[i as int]@);
        if ls[i].len() > 0 {
            let w = copy_bytes(ls[i].as_slice());
            r.push(w);
            assert(views(r@) =~= non_empty(sub));
        }
        i = i + 1;
    }
    assert(ls@.subrange(0, ls@.len() as int) =~= ls@);
    r
}

/// Reads a newline-separated list of words over `alphabet`. Empty lines are
/// skipped and repeated words kept once. It fails with `InvalidEncoding` when a
/// word leaves the alphabet, else with `EmptySet` when there is no word, else
/// with `InconsistentLength` naming the first word whose length differs from
/// the first word's.
pub fn load_words(src: &[u8], alphabet: &[u8]) -> (r: Result<WordSet, LoadError>)
    ensures
        ({
            let ws = listed_words(src@);
            &&& (r matches Err(LoadError::InvalidEncoding)) <==> !all_in_alphabet(ws, alphabet@)
            &&& (r matches Err(LoadError::EmptySet)) <==> all_in_alphabet(ws, alphabet@)
                && ws.len() == 0
            &&& (r is Err && r->Err_0 is InconsistentLength) <==> all_in_alphabet(ws, alphabet@)
                && ws.len() > 0 && !same_length(ws)
            &&& r matches Err(LoadError::InconsistentLength { word }) ==> exists|i: int|
                first_mismatch(ws, i) && ws[i] == word@
            &&& r is Ok <==> all_in_alphabet(ws, alphabet@) && ws.len() > 0 && same_length(ws)
            &&& r matches Ok(set) ==> {
                &&& set.wf()
                &&& set.alphabet@ == alphabet@
                &&& set.width == ws[0].len()
                &&& set@.to_set() == ws.to_set()
            }
        }),
{
    let frags = split_on(src, NEWLINE);
    let ws = drop_empty(frags);
    proof {
        lemma_non_empty(views(frags@));
        assert forall|k: int| 0 <= k < ws@.len() implies (#[trigger] ws@[k])@.len() > 0 by {
            assert(views(ws@)[k] == ws@[k]@);
        }
    }
    word_set_of(&ws, alphabet)
}

/// Makes a word set of a list of non-empty words over `alphabet`, keeping
/// repeated words once. It fails with `InvalidEncoding` when a word leaves the
/// alphabet, else with `EmptySet` when the list is empty, else with
/// `InconsistentLength` naming the first word whose length differs from the
/// first word's.
pub fn word_set_of(list: &Vec<Vec<u8>>, alphabet: &[u8]) -> (r: Result<WordSet, LoadError>)
    requires
        forall|k: int| 0 <= k < list@.len() ==> (#[trigger] list@[k])@.len() > 0,
    ensures
        ({
            let ws = views(list@);
            &&& (r matches Err(LoadError::InvalidEncoding)) <==> !all_in_alphabet(ws, alphabet@)
            &&& (r matches Err(LoadError::EmptySet)) <==> all_in_alphabet(ws, alphabet@)
                && ws.len() == 0
            &&& (r is Err && r->Err_0 is InconsistentLength) <==> all_in_alphabet(ws, alphabet@)
                && ws.len() > 0 && !same_length(ws)
            &&& r matches Err(LoadError::InconsistentLength { word }) ==> exists|i: int|
                first_mismatch(ws, i) && ws[i] == word@
            &&& r is Ok <==> all_in_alphabet(ws, alphabet@) && ws.len() > 0 && same_length(ws)
            &&& r matches Ok(set) ==> {
                &&& set.wf()
                &&& set.alphabet@ == alphabet@
                &&& set.width == ws[0].len()
                &&& set@.to_set() == ws.to_set()
            }
        }),
{
    let ws = list;
    let ghost lw = views(ws@);
    let mut i: usize = 0;
    while i < ws.len()
        invariant
            i <= ws.len(),
            lw == views(ws@),
            lw == views(list@),
            all_in_alphabet(lw.subrange(0, i as int), alphabet@),
        decreases ws.len() - i,
    {
        if !uses_alphabet(ws[i].as_slice(), alphabet) {
            assert(!in_alphabet(lw[i as int], alphabet@));
            assert(!all_in_alphabet(lw, alphabet@));
            return Err(LoadError::InvalidEncoding);
        }
        assert(all_in_alphabet(lw.subrange(0, i + 1), alphabet@)) by {
            assert forall|k: int| 0 <= k < i + 1 implies in_alphabet(
                #[trigger] lw.subrange(0, i + 1)[k],
                alphabet@,
            ) by {
                if k < i {
                    assert(lw.subrange(0, i as int)[k] == lw[k]);
                }
            }
        }
        i = i + 1;
    }
    assert(lw.subrange(0, lw.len() as int) =~= lw);
    if ws.len() == 0 {
        return Err(LoadError::EmptySet);
    }
    let width = ws[0].len();
    assert(width > 0) by {
        assert(list@[0]@.len() > 0);
    }
    let mut i: usize = 0;
    while i < ws.len()
        invariant
            i <= ws.len(),
            lw == views(ws@),
            lw == views(list@),
            lw.len() > 0,
            width == lw[0].len(),
            all_in_alphabet(lw, alphabet@),
            forall|k: int| 0 <= k < i ==> (#[trigger] lw[k]).len() == width,
        decreases ws.len() - i,
    {
        if ws[i].len() != width {
            let word = copy_bytes(ws[i].as_slice());
            assert(first_mismatch(lw, i as int));
            assert(!same_length(lw)) by {
                assert(lw[i as int].len() != lw[0].len());
            }
            return Err(LoadError::InconsistentLength { word });
        }
        i = i + 1;
    }
    let mut words: Vec<Vec<u8>> = Vec::new();
    let mut index = index_new();
    let mut i: usize = 0;
    while i < ws.len()
        invariant
            i <= ws.len(),
            lw == views(ws@),
            lw == views(list@),
            lw.len() > 0,
            width == lw[0].len(),
            width > 0,
            forall|k: int| 0 <= k < lw.len() ==> (#[trigger] lw[k]).len() == width,
            all_in_alphabet(lw, alphabet@),
            forall|j: int|
                0 <= j < words@.len() ==> lw.subrange(0, i as int).contains(
                    #[trigger] views(words@)[j],
                ),
            forall|k: int| 0 <= k < i ==> views(words@).contains(#[trigger] lw[k]),
            forall|j: int|
                0 <= j < words@.len() ==> #[trigger] index_contents(index).contains_key(
                    views(words@)[j],
                ) && index_contents(index)[views(words@)[j]] == j,
            forall|k: Seq<u8>| #[trigger]
                index_contents(index).contains_key(k) ==> index_contents(index)[k]
                    < words@.len() && views(words@)[index_contents(index)[k] as int] == k,
        decreases ws.len() - i,
    {
        let ghost before = views(words@);
        match index_get(&index, ws[i].as_slice()) {
            Some(_) => {},
            None => {
                let key = copy_bytes(ws[i].as_slice());
                let w = copy_bytes(ws[i].as_slice());
                let n = words.len();
                let ghost index_before = index_contents(index);
                index_insert(&mut index, key, n);
                words.push(w);
                assert(views(words@) =~= before.push(lw[i as int]));
                assert forall|j: int| 0 <= j < words@.len() implies #[trigger] index_contents(
                    index,
                ).contains_key(views(words@)[j]) && index_contents(index)[views(words@)[j]] == j by {
                    if j < n {
                        assert(views(words@)[j] == before[j]);
                        assert(index_before.contains_key(before[j]));
                        assert(before[j] != lw[i as int]);
                    }
                }
            },
        }
        assert forall|j: int|
            0 <= j < words@.len() implies lw.subrange(0, i + 1).contains(
            #[trigger] views(words@)[j],
        ) by {
            if j < before.len() {
                assert(views(words@)[j] == before[j]);
                let t = choose|t: int| 0 <= t < i && lw.subrange(0, i as int)[t] == before[j];
                assert(lw.subrange(0, i + 1)[t] == before[j]);
            } else {
                assert(lw.subrange(0, i + 1)[i as int] == lw[i as int]);
            }
        }
        assert forall|k: int| 0 <= k < i + 1 implies views(words@).contains(#[trigger] lw[k]) by {
            if k < i {
                let t = choose|t: int| 0 <= t < before.len() && before[t] == lw[k];
                assert(views(words@)[t] == before[t]);
            } else {
                let t = index_contents(index)[lw[k]] as int;
                assert(views(words@)[t] == lw[k]);
            }
        }
        i = i + 1;
    }
    let alphabet_copy = copy_bytes(alphabet);
    let set = WordSet { words, width, alphabet: alphabet_copy, index };
    assert(lw.subrange(0, lw.len() as int) =~= lw);
    assert forall|j: int| 0 <= j < set@.len() implies (#[trigger] set@[j]).len() == set.width
        && in_alphabet(set@[j], set.alphabet@) by {
        let t = choose|t: int| 0 <= t < lw.len() && lw[t] == set@[j];
    }
    assert(set@.to_set() =~= lw.to_set());
    Ok(set)
}

} // verus!
