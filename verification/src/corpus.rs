//! The corpus model: normalized n-gram frequency statistics of a language.

use vstd::prelude::*;

use crate::MAX_TABLE;
use crate::SCALE;
use crate::TOLERANCE;
use crate::errors::Error;

verus! {

/// Frequency statistics of one language. Each table maps an observed
/// n-gram to its fixed-point proportion; n-grams absent from the source
/// text are not stored and count as zero.
#[derive(Debug, Clone, PartialEq, Eq)]
pub struct Corpus {
    pub unigrams: Vec<(char, u64)>,
    pub bigrams: Vec<((char, char), u64)>,
    pub trigrams: Vec<((char, char, char), u64)>,
}

/// Every frequency of the table is a proportion of at most `SCALE`.
pub open spec fn uni_freqs_ok(s: Seq<(char, u64)>) -> bool {
    forall|i: int| 0 <= i < s.len() ==> (#[trigger] s[i]).1 <= SCALE
}

pub open spec fn bi_freqs_ok(s: Seq<((char, char), u64)>) -> bool {
    forall|i: int| 0 <= i < s.len() ==> (#[trigger] s[i]).1 <= SCALE
}

pub open spec fn tri_freqs_ok(s: Seq<((char, char, char), u64)>) -> bool {
    forall|i: int| 0 <= i < s.len() ==> (#[trigger] s[i]).1 <= SCALE
}

/// No n-gram occurs twice in the table.
pub open spec fn uni_keys_distinct(s: Seq<(char, u64)>) -> bool {
    forall|i: int, j: int| 0 <= i < j < s.len() ==> (#[trigger] s[i]).0 != (#[trigger] s[j]).0
}

pub open spec fn bi_keys_distinct(s: Seq<((char, char), u64)>) -> bool {
    forall|i: int, j: int| 0 <= i < j < s.len() ==> (#[trigger] s[i]).0 != (#[trigger] s[j]).0
}

pub open spec fn tri_keys_distinct(s: Seq<((char, char, char), u64)>) -> bool {
    forall|i: int, j: int| 0 <= i < j < s.len() ==> (#[trigger] s[i]).0 != (#[trigger] s[j]).0
}

/// The sum of the frequencies of a unigram table.
pub open spec fn uni_sum(s: Seq<(char, u64)>) -> int
    decreases s.len(),
{
    if s.len() == 0 {
        0
    } else {
        uni_sum(s.drop_last()) + s.last().1
    }
}

pub open spec fn bi_sum(s: Seq<((char, char), u64)>) -> int
    decreases s.len(),
{
    if s.len() == 0 {
        0
    } else {
        bi_sum(s.drop_last()) + s.last().1
    }
}

pub open spec fn tri_sum(s: Seq<((char, char, char), u64)>) -> int
    decreases s.len(),
{
    if s.len() == 0 {
        0
    } else {
        tri_sum(s.drop_last()) + s.last().1
    }
}

/// A sum that lies within `TOLERANCE` of the fixed-point unit.
pub open spec fn normalized(sum: int) -> bool {
    SCALE - TOLERANCE <= sum <= SCALE + TOLERANCE
}

impl Corpus {
    /// A corpus is well formed when every table is bounded, carries each
    /// n-gram at most once, holds proportions only, and sums to one
    /// within tolerance.
    pub open spec fn wf(self) -> bool {
        &&& 1 <= self.unigrams@.len() <= MAX_TABLE
        &&& self.bigrams@.len() <= MAX_TABLE
        &&& self.trigrams@.len() <= MAX_TABLE
        &&& uni_freqs_ok(self.unigrams@)
        &&& bi_freqs_ok(self.bigrams@)
        &&& tri_freqs_ok(self.trigrams@)
        &&& uni_keys_distinct(self.unigrams@)
        &&& bi_keys_distinct(self.bigrams@)
        &&& tri_keys_distinct(self.trigrams@)
        &&& normalized(uni_sum(self.unigrams@))
        &&& normalized(bi_sum(self.bigrams@))
        &&& normalized(tri_sum(self.trigrams@))
    }

    /// The alphabet: the characters the unigram table assigns frequencies
    /// to, in table order.
    pub open spec fn alpha(self) -> Seq<char> {
        Seq::new(self.unigrams@.len(), |i: int| self.unigrams@[i].0)
    }

    /// Validates externally supplied frequency tables and assembles the
    /// corpus; rejects malformed data.
    pub fn new(
        unigrams: Vec<(char, u64)>,
        bigrams: Vec<((char, char), u64)>,
        trigrams: Vec<((char, char, char), u64)>,
    ) -> (r: Result<Corpus, Error>)
        ensures
            r matches Ok(c) ==> c.unigrams@ == unigrams@ && c.bigrams@ == bigrams@
                && c.trigrams@ == trigrams@ && c.wf(),
            r is Err ==> !(Corpus { unigrams, bigrams, trigrams }).wf(),
    {
        let c = Corpus { unigrams, bigrams, trigrams };
        if c.unigrams.len() == 0 || c.unigrams.len() > MAX_TABLE || c.bigrams.len() > MAX_TABLE
            || c.trigrams.len() > MAX_TABLE {
            return Err(Error::ParseError);
        }
        if !check_uni(&c.unigrams) || !check_bi(&c.bigrams) || !check_tri(&c.trigrams) {
            return Err(Error::ParseError);
        }
        Ok(c)
    }

    /// The alphabet as a vector, one character per unigram entry.
    pub fn alphabet(&self) -> (r: Vec<char>)
        ensures
            r@ =~= self.alpha(),
    {
        let mut out: Vec<char> = Vec::new();
        let mut i: usize = 0;
        while i < self.unigrams.len()
            invariant
                0 <= i <= self.unigrams@.len(),
                out@.len() == i,
                forall|j: int| 0 <= j < i ==> out@[j] == self.unigrams@[j].0,
            decreases self.unigrams@.len() - i,
        {
            let e = self.unigrams[i];
            out.push(e.0);
            i = i + 1;
        }
        out
    }
}

/// Checks bounds, key uniqueness and normalization of the unigram table.
fn check_uni(s: &Vec<(char, u64)>) -> (r: bool)
    requires
        s@.len() <= MAX_TABLE,
    ensures
        r <==> (uni_freqs_ok(s@) && uni_keys_distinct(s@) && normalized(uni_sum(s@))),
{
    let mut i: usize = 0;
    let mut sum: u64 = 0;
    while i < s.len()
        invariant
            0 <= i <= s@.len(),
            forall|k: int| 0 <= k < i ==> (#[trigger] s@[k]).1 <= SCALE,
            forall|k: int, l: int| 0 <= k < l < i ==> (#[trigger] s@[k]).0 != (#[trigger] s@[l]).0,
            sum == uni_sum(s@.take(i as int)),
            sum <= i * SCALE,
        decreases s@.len() - i,
    {
        let e = s[i];
        if e.1 > SCALE {
            return false;
        }
        let mut j: usize = 0;
        while j < i
            invariant
                0 <= j <= i < s@.len(),
                forall|k: int| 0 <= k < j ==> (#[trigger] s@[k]).0 != s@[i as int].0,
            decreases i - j,
        {
            if s[j].0 == e.0 {
                return false;
            }
            j = j + 1;
        }
        proof {
            assert(s@.take(i + 1).drop_last() =~= s@.take(i as int));
        }
        sum = sum + e.1;
        i = i + 1;
    }
    proof {
        assert(s@.take(s@.len() as int) =~= s@);
    }
    SCALE - TOLERANCE <= sum && sum <= SCALE + TOLERANCE
}

/// Checks bounds, key uniqueness and normalization of the bigram table.
fn check_bi(s: &Vec<((char, char), u64)>) -> (r: bool)
    requires
        s@.len() <= MAX_TABLE,
    ensures
        r <==> (bi_freqs_ok(s@) && bi_keys_distinct(s@) && normalized(bi_sum(s@))),
{
    let mut i: usize = 0;
    let mut sum: u64 = 0;
    while i < s.len()
        invariant
            0 <= i <= s@.len(),
            forall|k: int| 0 <= k < i ==> (#[trigger] s@[k]).1 <= SCALE,
            forall|k: int, l: int| 0 <= k < l < i ==> (#[trigger] s@[k]).0 != (#[trigger] s@[l]).0,
            sum == bi_sum(s@.take(i as int)),
            sum <= i * SCALE,
        decreases s@.len() - i,
    {
        let e = s[i];
        if e.1 > SCALE {
            return false;
        }
        let mut j: usize = 0;
        while j < i
            invariant
                0 <= j <= i < s@.len(),
                forall|k: int| 0 <= k < j ==> (#[trigger] s@[k]).0 != s@[i as int].0,
            decreases i - j,
        {
            let p = s[j].0;
            if p.0 == e.0.0 && p.1 == e.0.1 {
                proof {
                    assert(s@[j as int].0 == s@[i as int].0);
                }
                return false;
            }
            j = j + 1;
        }
        proof {
            assert(s@.take(i + 1).drop_last() =~= s@.take(i as int));
        }
        sum = sum + e.1;
        i = i + 1;
    }
    proof {
        assert(s@.take(s@.len() as int) =~= s@);
    }
    SCALE - TOLERANCE <= sum && sum <= SCALE + TOLERANCE
}

/// Checks bounds, key uniqueness and normalization of the trigram table.
fn check_tri(s: &Vec<((char, char, char), u64)>) -> (r: bool)
    requires
        s@.len() <= MAX_TABLE,
    ensures
        r <==> (tri_freqs_ok(s@) && tri_keys_distinct(s@) && normalized(tri_sum(s@))),
{
    let mut i: usize = 0;
    let mut sum: u64 = 0;
    while i < s.len()
        invariant
            0 <= i <= s@.len(),
            forall|k: int| 0 <= k < i ==> (#[trigger] s@[k]).1 <= SCALE,
            forall|k: int, l: int| 0 <= k < l < i ==> (#[trigger] s@[k]).0 != (#[trigger] s@[l]).0,
            sum == tri_sum(s@.take(i as int)),
            sum <= i * SCALE,
        decreases s@.len() - i,
    {
        let e = s[i];
        if e.1 > SCALE {
            return false;
        }
        let mut j: usize = 0;
        while j < i
            invariant
                0 <= j <= i < s@.len(),
                forall|k: int| 0 <= k < j ==> (#[trigger] s@[k]).0 != s@[i as int].0,
            decreases i - j,
        {
            let p = s[j].0;
            if p.0 == e.0.0 && p.1 == e.0.1 && p.2 == e.0.2 {
                proof {
                    assert(s@[j as int].0 == s@[i as int].0);
                }
                return false;
            }
            j = j + 1;
        }
        proof {
            assert(s@.take(i + 1).drop_last() =~= s@.take(i as int));
        }
        sum = sum + e.1;
        i = i + 1;
    }
    proof {
        assert(s@.take(s@.len() as int) =~= s@);
    }
    SCALE - TOLERANCE <= sum && sum <= SCALE + TOLERANCE
}

/// The corpora available to a session, keyed by language name.
pub struct CorpusSet {
    pub entries: Vec<(Vec<char>, Corpus)>,
}

/// The first corpus the list holds under the language name, if any.
pub open spec fn find_corpus(s: Seq<(Vec<char>, Corpus)>, name: Seq<char>) -> Option<Corpus>
    decreases s.len(),
{
    if s.len() == 0 {
        None::<Corpus>
    } else if s[0].0@ == name {
        Some(s[0].1)
    } else {
        find_corpus(s.drop_first(), name)
    }
}

impl CorpusSet {
    pub open spec fn wf(self) -> bool {
        forall|i: int| 0 <= i < self.entries@.len() ==> (#[trigger] self.entries@[i]).1.wf()
    }

    /// Which corpus, if any, the set holds for the language.
    pub open spec fn spec_find(self, name: Seq<char>) -> Option<Corpus> {
        find_corpus(self.entries@, name)
    }

    /// Looks the language up by exact name; on success the index points at
    /// its entry.
    pub fn find(&self, name: &Vec<char>) -> (r: Option<usize>)
        ensures
            r matches Some(i) ==> i < self.entries@.len() && self.entries@[i as int].0@ == name@
                && self.spec_find(name@) == Some(self.entries@[i as int].1),
            r is None ==> self.spec_find(name@) is None,
    {
        let ghost all = self.entries@;
        proof {
            assert(all.skip(0) =~= all);
        }
        let mut i: usize = 0;
        while i < self.entries.len()
            invariant
                0 <= i <= all.len(),
                all == self.entries@,
                find_corpus(all, name@) == find_corpus(all.skip(i as int), name@),
            decreases all.len() - i,
        {
            proof {
                assert(all.skip(i as int)[0] == all[i as int]);
            }
            if crate::chars_eq(&self.entries[i].0, name) {
                return Some(i);
            }
            proof {
                assert(all.skip(i as int).drop_first() =~= all.skip(i + 1));
            }
            i = i + 1;
        }
        proof {
            assert(all.skip(all.len() as int) =~= Seq::<(Vec<char>, Corpus)>::empty());
        }
        None
    }

    /// Copies the corpus stored at the entry.
    pub fn corpus_at(&self, i: usize) -> (r: Corpus)
        requires
            i < self.entries@.len(),
        ensures
            r.unigrams@ == self.entries@[i as int].1.unigrams@,
            r.bigrams@ == self.entries@[i as int].1.bigrams@,
            r.trigrams@ == self.entries@[i as int].1.trigrams@,
            r.alpha() == self.entries@[i as int].1.alpha(),
            self.entries@[i as int].1.wf() ==> r.wf(),
    {
        let c = &self.entries[i].1;
        let out = Corpus {
            unigrams: copy_uni(&c.unigrams),
            bigrams: copy_bi(&c.bigrams),
            trigrams: copy_tri(&c.trigrams),
        };
        proof {
            assert(out.alpha() =~= self.entries@[i as int].1.alpha());
        }
        out
    }
}

/// Element-wise copy of a unigram table.
fn copy_uni(v: &Vec<(char, u64)>) -> (r: Vec<(char, u64)>)
    ensures
        r@ =~= v@,
{
    let mut out: Vec<(char, u64)> = Vec::new();
    let mut i: usize = 0;
    while i < v.len()
        invariant
            0 <= i <= v@.len(),
            out@ =~= v@.take(i as int),
        decreases v@.len() - i,
    {
        out.push(v[i]);
        i = i + 1;
    }
    out
}

/// Element-wise copy of a bigram table.
fn copy_bi(v: &Vec<((char, char), u64)>) -> (r: Vec<((char, char), u64)>)
    ensures
        r@ =~= v@,
{
    let mut out: Vec<((char, char), u64)> = Vec::new();
    let mut i: usize = 0;
    while i < v.len()
        invariant
            0 <= i <= v@.len(),
            out@ =~= v@.take(i as int),
        decreases v@.len() - i,
    {
        out.push(v[i]);
        i = i + 1;
    }
    out
}

/// Element-wise copy of a trigram table.
fn copy_tri(v: &Vec<((char, char, char), u64)>) -> (r: Vec<((char, char, char), u64)>)
    ensures
        r@ =~= v@,
{
    let mut out: Vec<((char, char, char), u64)> = Vec::new();
    let mut i: usize = 0;
    while i < v.len()
        invariant
            0 <= i <= v@.len(),
            out@ =~= v@.take(i as int),
        decreases v@.len() - i,
    {
        out.push(v[i]);
        i = i + 1;
    }
    out
}

} // verus!
