//! The layout store: named layouts of the active language, with lookup,
//! ranked listing, and pairwise comparison.

use vstd::prelude::*;

use crate::corpus::Corpus;
use crate::errors::Error;
use crate::geometry::Geometry;
use crate::layout::Layout;
use crate::layout::decode_ok;
use crate::metrics::MetricBreakdown;
use crate::metrics::MetricKind;
use crate::metrics::WEIGHTED_BOUND;
use crate::metrics::catalog_ok;
use crate::metrics::evaluate;
use crate::metrics::lemma_weighted_bound;
use crate::metrics::spec_total;
use crate::metrics::spec_weighted;
use crate::metrics::weights_ok;
use crate::search::sorted_desc;

verus! {

/// No two records share a name.
pub open spec fn names_distinct(s: Seq<(Vec<char>, Layout)>) -> bool {
    forall|i: int, j: int| 0 <= i < j < s.len() ==> (#[trigger] s[i]).0@ != (#[trigger] s[j]).0@
}

/// The first record stored under the name, if any.
pub open spec fn spec_lookup(s: Seq<(Vec<char>, Layout)>, name: Seq<char>) -> Option<Layout>
    decreases s.len(),
{
    if s.len() == 0 {
        None::<Layout>
    } else if s[0].0@ == name {
        Some(s[0].1)
    } else {
        spec_lookup(s.drop_first(), name)
    }
}

/// `spec_lookup` finds a record exactly when one carries the name.
pub proof fn lemma_lookup_char(s: Seq<(Vec<char>, Layout)>, name: Seq<char>)
    ensures
        spec_lookup(s, name) matches Some(l) ==> exists|i: int|
            0 <= i < s.len() && (#[trigger] s[i]).0@ == name && s[i].1 == l,
        spec_lookup(s, name) is None ==> forall|i: int| 0 <= i < s.len() ==> (#[trigger] s[i]).0@
            != name,
    decreases s.len(),
{
    if s.len() > 0 && s[0].0@ != name {
        lemma_lookup_char(s.drop_first(), name);
        assert(forall|i: int| 0 <= i < s.len() - 1 ==> (#[trigger] s.drop_first()[i]) == s[i + 1]);
        if spec_lookup(s, name) is None {
            assert forall|i: int| 0 <= i < s.len() implies (#[trigger] s[i]).0@ != name by {
                if i > 0 {
                    assert(s.drop_first()[i - 1] == s[i]);
                }
            }
        }
        match spec_lookup(s, name) {
            Some(l) => {
                let i = choose|i: int|
                    0 <= i < s.drop_first().len() && (#[trigger] s.drop_first()[i]).0@ == name
                        && s.drop_first()[i].1 == l;
                assert(s[i + 1].0@ == name && s[i + 1].1 == l);
            },
            None => {},
        }
    }
}

/// Under distinct names, a record's index determines the lookup result.
pub proof fn lemma_lookup_at(s: Seq<(Vec<char>, Layout)>, name: Seq<char>, i: int)
    requires
        names_distinct(s),
        0 <= i < s.len(),
        s[i].0@ == name,
    ensures
        spec_lookup(s, name) == Some(s[i].1),
    decreases s.len(),
{
    if i > 0 {
        assert(s[0].0@ != name);
        assert(forall|k: int| 0 <= k < s.len() - 1 ==> (#[trigger] s.drop_first()[k]) == s[k + 1]);
        lemma_lookup_at(s.drop_first(), name, i - 1);
    }
}

/// The decimal digit as a character.
pub open spec fn digit_char(d: int) -> char {
    if d == 0 {
        '0'
    } else if d == 1 {
        '1'
    } else if d == 2 {
        '2'
    } else if d == 3 {
        '3'
    } else if d == 4 {
        '4'
    } else if d == 5 {
        '5'
    } else if d == 6 {
        '6'
    } else if d == 7 {
        '7'
    } else if d == 8 {
        '8'
    } else {
        '9'
    }
}

/// The decimal rendering of a counter, most significant digit first.
pub open spec fn spec_digits(n: int) -> Seq<char>
    decreases n,
{
    if n < 10 {
        seq![digit_char(n)]
    } else {
        spec_digits(n / 10).push(digit_char(n % 10))
    }
}

/// Renders a counter as decimal text.
fn digits(n: usize) -> (r: Vec<char>)
    ensures
        r@ == spec_digits(n as int),
    decreases n,
{
    let d = n % 10;
    let ch: char = if d == 0 {
        '0'
    } else if d == 1 {
        '1'
    } else if d == 2 {
        '2'
    } else if d == 3 {
        '3'
    } else if d == 4 {
        '4'
    } else if d == 5 {
        '5'
    } else if d == 6 {
        '6'
    } else if d == 7 {
        '7'
    } else if d == 8 {
        '8'
    } else {
        '9'
    };
    if n < 10 {
        let mut v: Vec<char> = Vec::new();
        v.push(ch);
        proof {
            assert(v@ =~= spec_digits(n as int));
        }
        v
    } else {
        let mut v = digits(n / 10);
        v.push(ch);
        v
    }
}

/// Upper bound on the number of records of one store.
pub const STORE_CAP: usize = 1_000_000;

/// The persisted layouts of one language, keyed by name: one record per
/// name, created by a save, overwritten by a save reusing the name, and
/// never implicitly deleted.
pub struct LayoutStore {
    pub entries: Vec<(Vec<char>, Layout)>,
}

impl LayoutStore {
    /// Names are unique and every stored layout is an accepted encoding.
    pub open spec fn wf(self, alpha: Seq<char>, slots: nat) -> bool {
        &&& names_distinct(self.entries@)
        &&& forall|i: int| 0 <= i < self.entries@.len() ==> decode_ok(
            (#[trigger] self.entries@[i]).1.keys@,
            alpha,
            slots,
        )
    }

    /// An empty store.
    pub fn new() -> (r: LayoutStore)
        ensures
            r.entries@.len() == 0,
    {
        LayoutStore { entries: Vec::new() }
    }

    /// The index of the record carrying the name, if any.
    fn find_index(&self, name: &Vec<char>) -> (r: Option<usize>)
        ensures
            r matches Some(i) ==> i < self.entries@.len() && self.entries@[i as int].0@ == name@,
            r is None ==> spec_lookup(self.entries@, name@) is None,
    {
        let ghost all = self.entries@;
        proof {
            assert(all.skip(0) =~= all);
        }
        let mut i: usize = 0;
        while i < self.entries.len()
            invariant
                0 <= i <= all.len(),
                all == self.entries@,
                spec_lookup(all, name@) == spec_lookup(all.skip(i as int), name@),
            decreases all.len() - i,
        {
            proof {
                assert(all.skip(i as int)[0] == all[i as int]);
            }
            if crate::chars_eq(&self.entries[i].0, name) {
                return Some(i);
            }
            proof {
                assert(all.skip(i as int).drop_first() =~= all.skip(i + 1));
            }
            i = i + 1;
        }
        proof {
            assert(all.skip(all.len() as int) =~= Seq::<(Vec<char>, Layout)>::empty());
        }
        None
    }

    /// Exact-name lookup within the active language.
    pub fn lookup(&self, name: &Vec<char>) -> (r: Option<Layout>)
        requires
            names_distinct(self.entries@),
        ensures
            r matches Some(l) ==> (spec_lookup(self.entries@, name@) matches Some(s) && s.keys@
                == l.keys@),
            r is None <==> spec_lookup(self.entries@, name@) is None,
    {
        match self.find_index(name) {
            None => None,
            Some(i) => {
                proof {
                    lemma_lookup_at(self.entries@, name@, i as int);
                }
                Some(self.entries[i].1.duplicate())
            },
        }
    }

    /// Stores the layout under the name, overwriting a record that
    /// already carries it.
    fn upsert(&mut self, name: Vec<char>, layout: &Layout)
        requires
            names_distinct(old(self).entries@),
        ensures
            names_distinct(final(self).entries@),
            spec_lookup(final(self).entries@, name@) matches Some(l) && l.keys@ == layout.keys@,
            forall|m: Seq<char>| m != name@ ==> spec_lookup(final(self).entries@, m) == spec_lookup(
                old(self).entries@,
                m,
            ),
            final(self).entries@.len() == old(self).entries@.len() || final(self).entries@.len()
                == old(self).entries@.len() + 1,
            forall|i: int| 0 <= i < final(self).entries@.len() ==> (#[trigger] final(self).entries@[i]).1.keys@ == layout.keys@ || exists|j: int|
                0 <= j < old(self).entries@.len() && old(self).entries@[j].1.keys@ == final(self).entries@[i].1.keys@,
    {
        let ghost before = self.entries@;
        let ghost nm = name@;
        match self.find_index(&name) {
            Some(i) => {
                self.entries[i] = (name, layout.duplicate());
                proof {
                    let after = self.entries@;
                    assert forall|a: int, b: int|
                        0 <= a < b < after.len() implies (#[trigger] after[a]).0@ != (
                    #[trigger] after[b]).0@ by {
                        assert(after[a].0@ == before[a].0@);
                        assert(after[b].0@ == before[b].0@);
                    }
                    lemma_lookup_at(after, nm, i as int);
                    assert forall|m: Seq<char>| m != nm implies spec_lookup(after, m)
                        == spec_lookup(before, m) by {
                        lemma_lookup_char(before, m);
                        lemma_lookup_char(after, m);
                        match spec_lookup(before, m) {
                            Some(l) => {
                                let j = choose|j: int|
                                    0 <= j < before.len() && (#[trigger] before[j]).0@ == m
                                        && before[j].1 == l;
                                assert(j != i);
                                assert(after[j] == before[j]);
                                lemma_lookup_at(after, m, j);
                            },
                            None => {
                                assert forall|k: int| 0 <= k < after.len() implies (
                                #[trigger] after[k]).0@ != m by {
                                    assert(after[k].0@ == before[k].0@ || after[k].0@ == nm);
                                }
                                lemma_lookup_char(after, m);
                                match spec_lookup(after, m) {
                                    Some(l) => {
                                        let j = choose|j: int|
                                            0 <= j < after.len() && (#[trigger] after[j]).0@ == m
                                                && after[j].1 == l;
                                        assert(after[j].0@ != m);
                                    },
                                    None => {},
                                }
                            },
                        }
                    }
                }
            },
            None => {
                proof {
                    lemma_lookup_char(before, nm);
                }
                self.entries.push((name, layout.duplicate()));
                proof {
                    let after = self.entries@;
                    let n = before.len() as int;
                    assert forall|a: int, b: int|
                        0 <= a < b < after.len() implies (#[trigger] after[a]).0@ != (
                    #[trigger] after[b]).0@ by {
                        if b < n {
                            assert(after[a] == before[a] && after[b] == before[b]);
                        } else {
                            assert(after[b].0@ == nm);
                            assert(after[a] == before[a]);
                        }
                    }
                    lemma_lookup_at(after, nm, n);
                    assert forall|m: Seq<char>| m != nm implies spec_lookup(after, m)
                        == spec_lookup(before, m) by {
                        lemma_lookup_char(before, m);
                        match spec_lookup(before, m) {
                            Some(l) => {
                                let j = choose|j: int|
                                    0 <= j < before.len() && (#[trigger] before[j]).0@ == m
                                        && before[j].1 == l;
                                assert(after[j] == before[j]);
                                lemma_lookup_at(after, m, j);
                            },
                            None => {
                                assert forall|k: int| 0 <= k < after.len() implies (
                                #[trigger] after[k]).0@ != m by {
                                    if k < n {
                                        assert(after[k] == before[k]);
                                    }
                                }
                                lemma_lookup_char(after, m);
                                match spec_lookup(after, m) {
                                    Some(l) => {
                                        let j = choose|j: int|
                                            0 <= j < after.len() && (#[trigger] after[j]).0@ == m
                                                && after[j].1 == l;
                                        assert(after[j].0@ != m);
                                    },
                                    None => {},
                                }
                            },
                        }
                    }
                }
            },
        }
    }

    /// Persists the layout. A given name is used as is, overwriting any
    /// record that carries it; an absent name is derived from the
    /// smallest counter whose decimal rendering is not yet a record
    /// name. The derived-name search fails with `IoError` only if every
    /// candidate counter up to the store size is taken, and then changes
    /// nothing.
    pub fn save(&mut self, layout: &Layout, name: Option<Vec<char>>) -> (r: Result<
        Vec<char>,
        Error,
    >)
        requires
            names_distinct(old(self).entries@),
        ensures
            names_distinct(final(self).entries@),
            name matches Some(m) ==> (old(self).entries@.len() < STORE_CAP ==> (r matches Ok(n)
                && n@ == m@)),
            r matches Ok(n) ==> (name matches Some(m) ==> n@ == m@),
            r matches Ok(n) ==> (spec_lookup(final(self).entries@, n@) matches Some(l) && l.keys@
                == layout.keys@),
            r matches Ok(n) ==> forall|m: Seq<char>| m != n@ ==> spec_lookup(
                final(self).entries@,
                m,
            ) == spec_lookup(old(self).entries@, m),
            r is Err ==> r == Err::<Vec<char>, Error>(Error::IoError) && final(self).entries@
                == old(self).entries@,
            r is Err ==> old(self).entries@.len() >= STORE_CAP || (name is None && forall|k: int|
                0 <= k <= old(self).entries@.len() ==> spec_lookup(
                    old(self).entries@,
                    spec_digits(k),
                ) is Some),
            final(self).entries@.len() <= old(self).entries@.len() + 1,
            forall|i: int| 0 <= i < final(self).entries@.len() ==> (#[trigger] final(self).entries@[i]).1.keys@ == layout.keys@ || exists|j: int|
                0 <= j < old(self).entries@.len() && old(self).entries@[j].1.keys@ == final(self).entries@[i].1.keys@,
    {
        if self.entries.len() >= STORE_CAP {
            return Err(Error::IoError);
        }
        match name {
            Some(n) => {
                let out = crate::copy_chars(&n);
                self.upsert(n, layout);
                Ok(out)
            },
            None => {
                let bound = self.entries.len();
                let mut k: usize = 0;
                while k <= bound
                    invariant
                        0 <= k <= bound + 1,
                        bound == self.entries@.len(),
                        self.entries@ == old(self).entries@,
                        forall|m: int| 0 <= m < k ==> spec_lookup(
                            self.entries@,
                            spec_digits(m),
                        ) is Some,
                    decreases bound + 1 - k,
                {
                    let cand = digits(k);
                    match self.find_index(&cand) {
                        None => {
                            let out = crate::copy_chars(&cand);
                            self.upsert(cand, layout);
                            return Ok(out);
                        },
                        Some(i) => {
                            proof {
                                lemma_lookup_at(self.entries@, cand@, i as int);
                            }
                        },
                    }
                    k = k + 1;
                }
                Err(Error::IoError)
            },
        }
    }
}

/// Strict lexicographic order on names, by code point.
pub open spec fn lex_less(a: Seq<char>, b: Seq<char>) -> bool
    decreases a.len(),
{
    if b.len() == 0 {
        false
    } else if a.len() == 0 {
        true
    } else if a[0] != b[0] {
        (a[0] as u32) < (b[0] as u32)
    } else {
        lex_less(a.drop_first(), b.drop_first())
    }
}

/// Whether the name comes lexicographically first.
fn lex_less_e(a: &Vec<char>, b: &Vec<char>) -> (r: bool)
    ensures
        r == lex_less(a@, b@),
{
    proof {
        assert(a@.skip(0) =~= a@);
        assert(b@.skip(0) =~= b@);
    }
    let mut i: usize = 0;
    while i < a.len() && i < b.len()
        invariant
            0 <= i <= a@.len(),
            0 <= i <= b@.len(),
            lex_less(a@, b@) == lex_less(a@.skip(i as int), b@.skip(i as int)),
        decreases a@.len() - i,
    {
        proof {
            assert(a@.skip(i as int)[0] == a@[i as int]);
            assert(b@.skip(i as int)[0] == b@[i as int]);
        }
        if a[i] != b[i] {
            return (a[i] as u32) < (b[i] as u32);
        }
        proof {
            assert(a@.skip(i as int).drop_first() =~= a@.skip(i + 1));
            assert(b@.skip(i as int).drop_first() =~= b@.skip(i + 1));
        }
        i = i + 1;
    }
    proof {
        assert(a@.skip(i as int).len() == a@.len() - i);
        assert(b@.skip(i as int).len() == b@.len() - i);
    }
    a.len() < b.len()
}

/// The ranking order: higher score first, ties by name ascending.
pub open spec fn rank_before(x: (Seq<char>, int), e: (Seq<char>, int)) -> bool {
    x.1 > e.1 || (x.1 == e.1 && lex_less(x.0, e.0))
}

/// Insertion into a ranking: the new record goes before the first one it
/// outranks.
pub open spec fn rank_insert(l: Seq<(Seq<char>, int)>, x: (Seq<char>, int)) -> Seq<
    (Seq<char>, int),
>
    decreases l.len(),
{
    if l.len() == 0 {
        seq![x]
    } else if rank_before(x, l[0]) {
        seq![x] + l
    } else {
        seq![l[0]] + rank_insert(l.drop_first(), x)
    }
}

/// Every record of the grown ranking is the inserted one or an old one.
pub proof fn lemma_rank_insert_elems(l: Seq<(Seq<char>, int)>, x: (Seq<char>, int))
    ensures
        rank_insert(l, x).len() == l.len() + 1,
        forall|i: int| 0 <= i < rank_insert(l, x).len() ==> (#[trigger] rank_insert(l, x)[i]) == x
            || exists|j: int| 0 <= j < l.len() && l[j] == rank_insert(l, x)[i],
    decreases l.len(),
{
    if l.len() > 0 && !rank_before(x, l[0]) {
        lemma_rank_insert_elems(l.drop_first(), x);
        let out = seq![l[0]] + rank_insert(l.drop_first(), x);
        assert forall|i: int| 0 <= i < out.len() implies (#[trigger] out[i]) == x || exists|j: int|
            0 <= j < l.len() && l[j] == out[i] by {
            if i == 0 {
                assert(l[0] == out[0]);
            } else {
                let e = rank_insert(l.drop_first(), x)[i - 1];
                assert(out[i] == e);
                if e != x {
                    let j = choose|j: int| 0 <= j < l.drop_first().len() && l.drop_first()[j] == e;
                    assert(l[j + 1] == e);
                }
            }
        }
    } else {
        if l.len() > 0 {
            assert forall|i: int| 0 <= i < (seq![x] + l).len() implies (#[trigger] (seq![x]
                + l)[i]) == x || exists|j: int| 0 <= j < l.len() && l[j] == (seq![x] + l)[i] by {
                if i > 0 {
                    assert(l[i - 1] == (seq![x] + l)[i]);
                }
            }
        }
    }
}

/// Insertion keeps the ranking sorted by score non-increasing.
pub proof fn lemma_rank_insert_sorted(l: Seq<(Seq<char>, int)>, x: (Seq<char>, int))
    requires
        sorted_desc(l),
    ensures
        rank_insert(l, x).len() == l.len() + 1,
        sorted_desc(rank_insert(l, x)),
    decreases l.len(),
{
    if l.len() > 0 && !rank_before(x, l[0]) {
        assert(forall|i: int| 0 <= i < l.len() - 1 ==> (#[trigger] l.drop_first()[i]) == l[i + 1]);
        lemma_rank_insert_sorted(l.drop_first(), x);
        let out = seq![l[0]] + rank_insert(l.drop_first(), x);
        assert forall|a: int, b: int| 0 <= a < b < out.len() implies (#[trigger] out[a]).1 >= (
        #[trigger] out[b]).1 by {
            if a > 0 {
                assert(out[a] == rank_insert(l.drop_first(), x)[a - 1]);
                assert(out[b] == rank_insert(l.drop_first(), x)[b - 1]);
            } else {
                assert(out[b] == rank_insert(l.drop_first(), x)[b - 1]);
                lemma_rank_insert_elems(l.drop_first(), x);
            }
        }
    }
}

/// The inserted ranking is the old one split at the first outranked
/// record.
pub proof fn lemma_rank_insert_shape(l: Seq<(Seq<char>, int)>, x: (Seq<char>, int), k: int)
    requires
        0 <= k <= l.len(),
        forall|j: int| 0 <= j < k ==> !rank_before(x, #[trigger] l[j]),
        k < l.len() ==> rank_before(x, l[k]),
    ensures
        rank_insert(l, x) == l.take(k) + seq![x] + l.skip(k),
    decreases l.len(),
{
    if l.len() == 0 {
        assert(rank_insert(l, x) =~= l.take(0) + seq![x] + l.skip(0));
    } else if k == 0 {
        assert(rank_before(x, l[0]));
        assert(rank_insert(l, x) =~= l.take(0) + seq![x] + l.skip(0));
    } else {
        assert(forall|i: int| 0 <= i < l.len() - 1 ==> (#[trigger] l.drop_first()[i]) == l[i + 1]);
        lemma_rank_insert_shape(l.drop_first(), x, k - 1);
        assert(rank_insert(l, x) =~= l.take(k) + seq![x] + l.skip(k)) by {
            assert(rank_insert(l, x) == seq![l[0]] + rank_insert(l.drop_first(), x));
            assert(rank_insert(l.drop_first(), x) == l.drop_first().take(k - 1) + seq![x]
                + l.drop_first().skip(k - 1));
        }
    }
}

/// A ranking entry as the specification sees it.
pub open spec fn rank_view(v: Seq<(Vec<char>, i64)>) -> Seq<(Seq<char>, int)> {
    Seq::new(v.len(), |i: int| (v[i].0@, v[i].1 as int))
}

/// The ranking of the first `t` store records.
pub open spec fn rank_list(
    s: Seq<(Vec<char>, Layout)>,
    c: Corpus,
    g: Geometry,
    ws: Seq<(MetricKind, i64)>,
    cat: Seq<MetricKind>,
    t: nat,
) -> Seq<(Seq<char>, int)>
    decreases t,
{
    if t == 0 {
        Seq::<(Seq<char>, int)>::empty()
    } else {
        rank_insert(
            rank_list(s, c, g, ws, cat, (t - 1) as nat),
            (s[t - 1].0@, spec_total(cat, s[t - 1].1.keys@, c, g, ws)),
        )
    }
}

/// What `rank` returns: every stored layout scored and ordered, score
/// descending, ties by name ascending.
pub open spec fn spec_rank(
    s: Seq<(Vec<char>, Layout)>,
    c: Corpus,
    g: Geometry,
    ws: Seq<(MetricKind, i64)>,
    cat: Seq<MetricKind>,
) -> Seq<(Seq<char>, int)> {
    rank_list(s, c, g, ws, cat, s.len() as nat)
}

/// Store idempotence: a save followed by a lookup of the same name yields
/// the saved key sequence, and a second save under the name overwrites
/// the first while every other name still resolves as before either
/// save. The premises are exactly what `save` ensures of each step.
pub proof fn lemma_store_overwrite(
    s0: Seq<(Vec<char>, Layout)>,
    s1: Seq<(Vec<char>, Layout)>,
    s2: Seq<(Vec<char>, Layout)>,
    name: Seq<char>,
    k1: Seq<char>,
    k2: Seq<char>,
)
    requires
        spec_lookup(s1, name) matches Some(l) && l.keys@ == k1,
        forall|m: Seq<char>| m != name ==> spec_lookup(s1, m) == spec_lookup(s0, m),
        spec_lookup(s2, name) matches Some(l) && l.keys@ == k2,
        forall|m: Seq<char>| m != name ==> spec_lookup(s2, m) == spec_lookup(s1, m),
    ensures
        spec_lookup(s2, name) matches Some(l) && l.keys@ == k2,
        forall|m: Seq<char>| m != name ==> spec_lookup(s2, m) == spec_lookup(s0, m),
{
}

/// Comparison symmetry: metric by metric, the delta of comparing one way
/// is the negation of the delta of comparing the other way.
pub proof fn lemma_compare_symmetry(
    ka: Seq<char>,
    kb: Seq<char>,
    c: Corpus,
    g: Geometry,
    ws: Seq<(MetricKind, i64)>,
    cat: Seq<MetricKind>,
)
    ensures
        forall|i: int| 0 <= i < cat.len() ==> (spec_weighted(#[trigger] cat[i], ka, c, g, ws)
            - spec_weighted(cat[i], kb, c, g, ws)) == -(spec_weighted(cat[i], kb, c, g, ws)
            - spec_weighted(cat[i], ka, c, g, ws)),
{
}

/// Whether the new record outranks the one at `k`.
fn before_at(out: &Vec<(Vec<char>, i64)>, k: usize, name: &Vec<char>, sc: i64) -> (r: bool)
    requires
        k < out@.len(),
    ensures
        r == rank_before((name@, sc as int), rank_view(out@)[k as int]),
{
    let e = &out[k];
    if sc > e.1 {
        true
    } else if sc == e.1 {
        lex_less_e(name, &e.0)
    } else {
        false
    }
}

impl LayoutStore {
    /// Scores and orders every stored layout: score descending, ties by
    /// name ascending; an empty store yields an empty ranking.
    pub fn rank(
        &self,
        c: &Corpus,
        g: &Geometry,
        ws: &Vec<(MetricKind, i64)>,
        cat: &Vec<MetricKind>,
    ) -> (r: Vec<(Vec<char>, i64)>)
        requires
            c.wf(),
            g.wf(),
            weights_ok(ws@),
            catalog_ok(cat@),
            self.wf(c.alpha(), g.keys@.len() as nat),
        ensures
            rank_view(r@) == spec_rank(self.entries@, *c, *g, ws@, cat@),
            sorted_desc(rank_view(r@)),
            r@.len() == self.entries@.len(),
    {
        let ghost s = self.entries@;
        let mut out: Vec<(Vec<char>, i64)> = Vec::new();
        proof {
            assert(rank_view(out@) =~= rank_list(s, *c, *g, ws@, cat@, 0));
        }
        let mut i: usize = 0;
        while i < self.entries.len()
            invariant
                0 <= i <= s.len(),
                s == self.entries@,
                out@.len() == i,
                rank_view(out@) == rank_list(s, *c, *g, ws@, cat@, i as nat),
                sorted_desc(rank_view(out@)),
            decreases s.len() - i,
        {
            let ghost prev = rank_view(out@);
            let e = &self.entries[i];
            let name = crate::copy_chars(&e.0);
            let sc = evaluate(&e.1, c, g, ws, cat).total;
            let ghost x = (name@, sc as int);
            let mut k: usize = 0;
            while k < out.len() && !before_at(&out, k, &name, sc)
                invariant
                    0 <= k <= out@.len(),
                    out@.len() == i,
                    rank_view(out@) == prev,
                    forall|j: int| 0 <= j < k ==> !rank_before(x, #[trigger] prev[j]),
                decreases out@.len() - k,
            {
                k = k + 1;
            }
            proof {
                if k < out@.len() {
                    assert(rank_before(x, prev[k as int]));
                }
                lemma_rank_insert_shape(prev, x, k as int);
                lemma_rank_insert_sorted(prev, x);
            }
            out.insert(k, (name, sc));
            proof {
                assert(rank_view(out@) =~= prev.take(k as int) + seq![x] + prev.skip(k as int));
            }
            i = i + 1;
        }
        out
    }

    /// Compares two stored layouts: their full breakdowns and, metric by
    /// metric, the difference of their weighted contributions. Fails with
    /// `NotFound`, naming the first missing name, when either lookup
    /// fails.
    pub fn compare(
        &self,
        a: &Vec<char>,
        b: &Vec<char>,
        c: &Corpus,
        g: &Geometry,
        ws: &Vec<(MetricKind, i64)>,
        cat: &Vec<MetricKind>,
    ) -> (r: Result<(MetricBreakdown, MetricBreakdown, Vec<(MetricKind, i64)>), Error>)
        requires
            c.wf(),
            g.wf(),
            weights_ok(ws@),
            catalog_ok(cat@),
            self.wf(c.alpha(), g.keys@.len() as nat),
        ensures
            r is Ok <==> (spec_lookup(self.entries@, a@) is Some && spec_lookup(
                self.entries@,
                b@,
            ) is Some),
            spec_lookup(self.entries@, a@) is None ==> (r matches Err(e) && e matches
                Error::NotFound(n) && n@ == a@),
            (spec_lookup(self.entries@, a@) is Some && spec_lookup(self.entries@, b@) is None) ==> (
            r matches Err(e) && e matches Error::NotFound(n) && n@ == b@),
            r matches Ok(t) ==> (spec_lookup(self.entries@, a@) matches Some(la) && t.0.total as int
                == spec_total(cat@, la.keys@, *c, *g, ws@)),
            r matches Ok(t) ==> (spec_lookup(self.entries@, b@) matches Some(lb) && t.1.total as int
                == spec_total(cat@, lb.keys@, *c, *g, ws@)),
            r matches Ok(t) ==> t.2@.len() == cat@.len(),
            r matches Ok(t) ==> (spec_lookup(self.entries@, a@) matches Some(la) && spec_lookup(
                self.entries@,
                b@,
            ) matches Some(lb) && forall|i: int| 0 <= i < cat@.len() ==> (#[trigger] t.2@[i]).0
                == cat@[i] && t.2@[i].1 as int == spec_weighted(cat@[i], la.keys@, *c, *g, ws@)
                - spec_weighted(cat@[i], lb.keys@, *c, *g, ws@)),
    {
        let la = match self.lookup(a) {
            None => {
                return Err(Error::NotFound(crate::copy_chars(a)));
            },
            Some(l) => l,
        };
        let lb = match self.lookup(b) {
            None => {
                return Err(Error::NotFound(crate::copy_chars(b)));
            },
            Some(l) => l,
        };
        proof {
            lemma_lookup_char(self.entries@, a@);
            lemma_lookup_char(self.entries@, b@);
        }
        let ba = evaluate(&la, c, g, ws, cat);
        let bb = evaluate(&lb, c, g, ws, cat);
        let mut delta: Vec<(MetricKind, i64)> = Vec::new();
        let mut i: usize = 0;
        while i < cat.len()
            invariant
                0 <= i <= cat@.len(),
                delta@.len() == i,
                ba.parts@.len() == cat@.len(),
                bb.parts@.len() == cat@.len(),
                forall|j: int| 0 <= j < cat@.len() ==> (#[trigger] ba.parts@[j]).0 == cat@[j]
                    && ba.parts@[j].2 as int == spec_weighted(cat@[j], la.keys@, *c, *g, ws@),
                forall|j: int| 0 <= j < cat@.len() ==> (#[trigger] bb.parts@[j]).0 == cat@[j]
                    && bb.parts@[j].2 as int == spec_weighted(cat@[j], lb.keys@, *c, *g, ws@),
                forall|j: int| 0 <= j < i ==> (#[trigger] delta@[j]).0 == cat@[j]
                    && delta@[j].1 as int == spec_weighted(cat@[j], la.keys@, *c, *g, ws@)
                    - spec_weighted(cat@[j], lb.keys@, *c, *g, ws@),
            decreases cat@.len() - i,
        {
            let kind = cat[i];
            let wa = ba.parts[i].2;
            let wb = bb.parts[i].2;
            proof {
                lemma_weighted_bound(cat@[i as int], la.keys@, *c, *g, ws@);
                lemma_weighted_bound(cat@[i as int], lb.keys@, *c, *g, ws@);
            }
            delta.push((kind, wa - wb));
            i = i + 1;
        }
        Ok((ba, bb, delta))
    }
}

} // verus!
