//! The search engine: stochastic local search that generates and improves
//! candidate layouts, deterministic for a fixed seed.
//!
//! Every run starts from a layout, repeatedly proposes a random swap of two
//! positions, accepts an improving swap always and a worsening swap with a
//! probability that decays linearly over the run, and stops at a fixed
//! iteration budget. The finishing layouts of all runs are kept sorted by
//! score, best first, ties broken by completion order, and at most
//! `KEEP` of them are retained as the session's candidate list.

use vstd::prelude::*;

use crate::corpus::Corpus;
use crate::corpus::CorpusSet;
use crate::errors::Error;
use crate::geometry::Geometry;
use crate::layout::Layout;
use crate::layout::decode_ok;
use crate::metrics::MetricKind;
use crate::metrics::catalog_ok;
use crate::metrics::evaluate;
use crate::metrics::spec_total;
use crate::metrics::weights_ok;

verus! {

/// The iteration budget of one search run.
pub const ITERS: u64 = 64;

/// How many candidates the session retains.
pub const KEEP: usize = 10;

/// One step of the xorshift pseudo-random generator. The whole search is
/// a pure function of its seed.
pub open spec fn spec_next(s: u64) -> u64 {
    (((s ^ (s << 13)) ^ ((s ^ (s << 13)) >> 7)) ^ (((s ^ (s << 13)) ^ ((s ^ (s << 13)) >> 7))
        << 17))
}

/// Advances the pseudo-random state.
fn rng_next(s: u64) -> (r: u64)
    ensures
        r == spec_next(s),
{
    let a = s ^ (s << 13);
    let b = a ^ (a >> 7);
    b ^ (b << 17)
}

/// The per-run seed of trial `t`.
pub open spec fn trial_seed(seed: u64, t: int) -> u64 {
    spec_next(seed ^ (t as u64))
}

/// The sequence with the characters at `i` and `j` exchanged.
pub open spec fn swap_seq(s: Seq<char>, i: int, j: int) -> Seq<char> {
    s.update(i, s[j]).update(j, s[i])
}

/// Exchanging two characters keeps an accepted encoding accepted.
pub proof fn lemma_swap_wf(s: Seq<char>, i: int, j: int, alpha: Seq<char>, slots: nat)
    requires
        decode_ok(s, alpha, slots),
        0 <= i < s.len(),
        0 <= j < s.len(),
    ensures
        decode_ok(swap_seq(s, i, j), alpha, slots),
{
    let w = swap_seq(s, i, j);
    assert forall|a: int, b: int| 0 <= a < b < w.len() implies w[a] != w[b] by {
        assert(w[a] == s[if a == j { i } else if a == i { j } else { a }]);
        assert(w[b] == s[if b == j { i } else if b == i { j } else { b }]);
    }
    assert forall|a: int| 0 <= a < w.len() implies alpha.contains(#[trigger] w[a]) by {
        assert(w[a] == s[if a == j { i } else if a == i { j } else { a }]);
    }
}

/// Whether `p` is a pinned position.
pub open spec fn in_pins(pins: Seq<usize>, p: int) -> bool {
    exists|k: int| 0 <= k < pins.len() && (#[trigger] pins[k]) as int == p
}

/// Whether the pinned positions of `keys` still hold the characters of
/// `seed_keys`.
pub open spec fn pins_held(keys: Seq<char>, seed_keys: Seq<char>, pins: Seq<usize>) -> bool {
    forall|k: int| 0 <= k < pins.len() && ((#[trigger] pins[k]) as int) < keys.len() ==> keys[pins[k]
        as int] == seed_keys[pins[k] as int]
}

/// Whether the list holds `p`.
fn contains_pos(pins: &Vec<usize>, p: usize) -> (r: bool)
    ensures
        r <==> in_pins(pins@, p as int),
{
    let mut k: usize = 0;
    while k < pins.len()
        invariant
            0 <= k <= pins@.len(),
            forall|m: int| 0 <= m < k ==> (#[trigger] pins@[m]) != p,
        decreases pins@.len() - k,
    {
        if pins[k] == p {
            return true;
        }
        k = k + 1;
    }
    false
}

/// One annealing step on state (keys, score, rng state): propose a swap
/// of two randomly drawn positions, skip it if they coincide or touch a
/// pin, otherwise accept it when it improves the score, or, with the
/// decaying window `temp`, even when it does not.
pub open spec fn spec_step(
    st: (Seq<char>, int, u64),
    pins: Seq<usize>,
    temp: u64,
    c: Corpus,
    g: Geometry,
    ws: Seq<(MetricKind, i64)>,
    cat: Seq<MetricKind>,
) -> (Seq<char>, int, u64) {
    let n = st.0.len() as int;
    let r1 = spec_next(st.2);
    let i = (r1 as int) % n;
    let r2 = spec_next(r1);
    let j = (r2 as int) % n;
    let r3 = spec_next(r2);
    if i == j || in_pins(pins, i) || in_pins(pins, j) {
        (st.0, st.1, r3)
    } else {
        let cand = swap_seq(st.0, i, j);
        let cs = spec_total(cat, cand, c, g, ws);
        if cs > st.1 || r3 % ITERS < temp {
            (cand, cs, r3)
        } else {
            (st.0, st.1, r3)
        }
    }
}

/// The acceptance window after `t` completed steps: starts at a quarter
/// of the budget and decays to zero.
pub open spec fn temp_at(t: int) -> u64 {
    ((ITERS - t) / 4) as u64
}

/// The state after `k` annealing steps.
pub open spec fn spec_run(
    st: (Seq<char>, int, u64),
    pins: Seq<usize>,
    k: nat,
    c: Corpus,
    g: Geometry,
    ws: Seq<(MetricKind, i64)>,
    cat: Seq<MetricKind>,
) -> (Seq<char>, int, u64)
    decreases k,
{
    if k == 0 {
        st
    } else {
        spec_step(spec_run(st, pins, (k - 1) as nat, c, g, ws, cat), pins, temp_at(k - 1), c, g, ws, cat)
    }
}

/// A step neither moves a pinned character nor changes the key count.
pub proof fn lemma_step_props(
    st: (Seq<char>, int, u64),
    pins: Seq<usize>,
    temp: u64,
    c: Corpus,
    g: Geometry,
    ws: Seq<(MetricKind, i64)>,
    cat: Seq<MetricKind>,
    seed_keys: Seq<char>,
)
    requires
        st.0.len() > 0,
        pins_held(st.0, seed_keys, pins),
    ensures
        spec_step(st, pins, temp, c, g, ws, cat).0.len() == st.0.len(),
        pins_held(spec_step(st, pins, temp, c, g, ws, cat).0, seed_keys, pins),
{
    let n = st.0.len() as int;
    let r1 = spec_next(st.2);
    let i = (r1 as int) % n;
    let r2 = spec_next(r1);
    let j = (r2 as int) % n;
    if !(i == j || in_pins(pins, i) || in_pins(pins, j)) {
        let cand = swap_seq(st.0, i, j);
        assert forall|k: int|
            0 <= k < pins.len() && ((#[trigger] pins[k]) as int) < cand.len() implies cand[pins[k]
            as int] == seed_keys[pins[k] as int] by {
            assert(pins[k] as int != i && pins[k] as int != j);
        }
    }
}

/// A whole run neither moves a pinned character nor changes the key
/// count: the pin invariant of constrained improvement.
pub proof fn lemma_run_props(
    st: (Seq<char>, int, u64),
    pins: Seq<usize>,
    k: nat,
    c: Corpus,
    g: Geometry,
    ws: Seq<(MetricKind, i64)>,
    cat: Seq<MetricKind>,
    seed_keys: Seq<char>,
)
    requires
        st.0.len() > 0,
        pins_held(st.0, seed_keys, pins),
    ensures
        spec_run(st, pins, k, c, g, ws, cat).0.len() == st.0.len(),
        pins_held(spec_run(st, pins, k, c, g, ws, cat).0, seed_keys, pins),
    decreases k,
{
    if k > 0 {
        lemma_run_props(st, pins, (k - 1) as nat, c, g, ws, cat, seed_keys);
        lemma_step_props(
            spec_run(st, pins, (k - 1) as nat, c, g, ws, cat),
            pins,
            temp_at(k - 1),
            c,
            g,
            ws,
            cat,
            seed_keys,
        );
    }
}

/// The state of the key sequence and the generator after the first `k`
/// positions have been given a randomly drawn partner at or after them.
pub open spec fn spec_shuffle(keys: Seq<char>, rng: u64, k: nat) -> (Seq<char>, u64)
    decreases k,
{
    if k == 0 {
        (keys, rng)
    } else {
        let prev = spec_shuffle(keys, rng, (k - 1) as nat);
        let r = spec_next(prev.1);
        let i = k - 1;
        let j = i + ((r as int) % (keys.len() - i));
        (swap_seq(prev.0, i as int, j), r)
    }
}

/// A shuffle keeps an accepted encoding accepted and the length fixed.
pub proof fn lemma_shuffle_wf(keys: Seq<char>, rng: u64, k: nat, alpha: Seq<char>, slots: nat)
    requires
        decode_ok(keys, alpha, slots),
        k <= keys.len(),
    ensures
        spec_shuffle(keys, rng, k).0.len() == keys.len(),
        decode_ok(spec_shuffle(keys, rng, k).0, alpha, slots),
    decreases k,
{
    if k > 0 {
        lemma_shuffle_wf(keys, rng, (k - 1) as nat, alpha, slots);
        let prev = spec_shuffle(keys, rng, (k - 1) as nat);
        let r = spec_next(prev.1);
        let i = k - 1;
        let j = i + ((r as int) % (keys.len() - i));
        lemma_swap_wf(prev.0, i as int, j, alpha, slots);
    }
}

/// Exchanges the characters at the two positions.
fn swap_keys(v: &mut Vec<char>, i: usize, j: usize)
    requires
        i < old(v)@.len(),
        j < old(v)@.len(),
    ensures
        final(v)@ == swap_seq(old(v)@, i as int, j as int),
{
    let a = v[i];
    let b = v[j];
    v[i] = b;
    v[j] = a;
}

/// Shuffles the key sequence in place, deterministically from the
/// generator state; returns the state after the shuffle.
fn shuffle(v: &mut Vec<char>, rng: u64) -> (r: u64)
    requires
        old(v)@.len() > 0,
    ensures
        final(v)@ == spec_shuffle(old(v)@, rng, old(v)@.len()).0,
        r == spec_shuffle(old(v)@, rng, old(v)@.len()).1,
{
    let ghost init = v@;
    let n = v.len();
    let mut cur = rng;
    let mut i: usize = 0;
    while i < n
        invariant
            0 <= i <= n,
            n == init.len(),
            v@.len() == n,
            v@ == spec_shuffle(init, rng, i as nat).0,
            cur == spec_shuffle(init, rng, i as nat).1,
        decreases n - i,
    {
        let r = rng_next(cur);
        let j = i + ((r % ((n - i) as u64)) as usize);
        proof {
            assert((r % ((n - i) as u64)) as int == (r as int) % (n - i));
        }
        swap_keys(v, i, j);
        cur = r;
        i = i + 1;
    }
    cur
}

/// The score of a key sequence.
fn total_of(
    keys: &Vec<char>,
    c: &Corpus,
    g: &Geometry,
    ws: &Vec<(MetricKind, i64)>,
    cat: &Vec<MetricKind>,
) -> (r: i64)
    requires
        c.wf(),
        g.wf(),
        weights_ok(ws@),
        catalog_ok(cat@),
        keys@.len() == g.keys@.len(),
    ensures
        r as int == spec_total(cat@, keys@, *c, *g, ws@),
{
    let l = Layout { keys: crate::copy_chars(keys) };
    proof {
        assert(l.keys@ =~= keys@);
    }
    evaluate(&l, c, g, ws, cat).total
}

/// One search run: `ITERS` annealing steps from the given start, driven
/// by the given generator state.
fn run_trial(
    start: Vec<char>,
    rng0: u64,
    pins: &Vec<usize>,
    c: &Corpus,
    g: &Geometry,
    ws: &Vec<(MetricKind, i64)>,
    cat: &Vec<MetricKind>,
) -> (r: (Layout, i64, u64))
    requires
        c.wf(),
        g.wf(),
        weights_ok(ws@),
        catalog_ok(cat@),
        g.keys@.len() > 0,
        decode_ok(start@, c.alpha(), g.keys@.len() as nat),
    ensures
        r.0.keys@ == spec_run(
            (start@, spec_total(cat@, start@, *c, *g, ws@), rng0),
            pins@,
            ITERS as nat,
            *c,
            *g,
            ws@,
            cat@,
        ).0,
        r.1 as int == spec_run(
            (start@, spec_total(cat@, start@, *c, *g, ws@), rng0),
            pins@,
            ITERS as nat,
            *c,
            *g,
            ws@,
            cat@,
        ).1,
        r.2 == spec_run(
            (start@, spec_total(cat@, start@, *c, *g, ws@), rng0),
            pins@,
            ITERS as nat,
            *c,
            *g,
            ws@,
            cat@,
        ).2,
        decode_ok(r.0.keys@, c.alpha(), g.keys@.len() as nat),
{
    let ghost alpha = c.alpha();
    let ghost slots = g.keys@.len() as nat;
    let mut cur = start;
    let mut score = total_of(&cur, c, g, ws, cat);
    let mut rng = rng0;
    let ghost st0 = (cur@, score as int, rng);
    let mut t: u64 = 0;
    while t < ITERS
        invariant
            0 <= t <= ITERS,
            cur@ == spec_run(st0, pins@, t as nat, *c, *g, ws@, cat@).0,
            score as int == spec_run(st0, pins@, t as nat, *c, *g, ws@, cat@).1,
            rng == spec_run(st0, pins@, t as nat, *c, *g, ws@, cat@).2,
            decode_ok(cur@, alpha, slots),
            cur@.len() == g.keys@.len(),
        decreases ITERS - t,
    {
        let ghost pre = (cur@, score as int, rng);
        let r1 = rng_next(rng);
        let n = cur.len();
        let i = (r1 % (n as u64)) as usize;
        let r2 = rng_next(r1);
        let j = (r2 % (n as u64)) as usize;
        let r3 = rng_next(r2);
        proof {
            assert(i as int == (r1 as int) % (cur@.len() as int));
            assert(j as int == (r2 as int) % (cur@.len() as int));
        }
        if i == j || contains_pos(pins, i) || contains_pos(pins, j) {
            rng = r3;
        } else {
            let mut cand = crate::copy_chars(&cur);
            proof {
                assert(cand@ =~= cur@);
            }
            swap_keys(&mut cand, i, j);
            let cs = total_of(&cand, c, g, ws, cat);
            let temp = (ITERS - t) / 4;
            proof {
                assert(temp == temp_at(t as int));
                lemma_swap_wf(pre.0, i as int, j as int, alpha, slots);
            }
            if cs > score || r3 % ITERS < temp {
                cur = cand;
                score = cs;
                rng = r3;
            } else {
                rng = r3;
            }
        }
        proof {
            assert(spec_run(st0, pins@, (t + 1) as nat, *c, *g, ws@, cat@) == spec_step(
                pre,
                pins@,
                temp_at(t as int),
                *c,
                *g,
                ws@,
                cat@,
            ));
        }
        t = t + 1;
    }
    (Layout { keys: cur }, score, rng)
}

/// Along a run, the carried score is always the score of the carried
/// key sequence.
pub proof fn lemma_run_score(
    st: (Seq<char>, int, u64),
    pins: Seq<usize>,
    k: nat,
    c: Corpus,
    g: Geometry,
    ws: Seq<(MetricKind, i64)>,
    cat: Seq<MetricKind>,
)
    requires
        st.1 == spec_total(cat, st.0, c, g, ws),
    ensures
        spec_run(st, pins, k, c, g, ws, cat).1 == spec_total(
            cat,
            spec_run(st, pins, k, c, g, ws, cat).0,
            c,
            g,
            ws,
        ),
    decreases k,
{
    if k > 0 {
        lemma_run_score(st, pins, (k - 1) as nat, c, g, ws, cat);
    }
}

/// Every character of a sequence is contained in it.
pub proof fn lemma_self_contains(s: Seq<char>)
    ensures
        forall|i: int| 0 <= i < s.len() ==> s.contains(#[trigger] s[i]),
{
    assert forall|i: int| 0 <= i < s.len() implies s.contains(#[trigger] s[i]) by {
        assert(s[i] == s[i]);
    }
}

/// The alphabet itself is an accepted encoding over itself.
pub proof fn lemma_alpha_layout(c: Corpus)
    requires
        c.wf(),
    ensures
        decode_ok(c.alpha(), c.alpha(), c.alpha().len() as nat),
{
    let alpha = c.alpha();
    assert forall|i: int, j: int| 0 <= i < j < alpha.len() implies alpha[i] != alpha[j] by {
        assert(c.unigrams@[i].0 != c.unigrams@[j].0);
    }
    lemma_self_contains(alpha);
}

/// A candidate as the specification sees it: a key sequence and its
/// score.
pub open spec fn cand_view(v: Seq<(Layout, i64)>) -> Seq<(Seq<char>, int)> {
    Seq::new(v.len(), |i: int| (v[i].0.keys@, v[i].1 as int))
}

/// Scores never increase along the list.
pub open spec fn sorted_desc(l: Seq<(Seq<char>, int)>) -> bool {
    forall|a: int, b: int| 0 <= a < b < l.len() ==> (#[trigger] l[a]).1 >= (#[trigger] l[b]).1
}

/// Stable insertion into a descending list: the new candidate goes after
/// every candidate scoring at least as much, so earlier-completed runs
/// win ties.
pub open spec fn spec_insert(l: Seq<(Seq<char>, int)>, x: (Seq<char>, int)) -> Seq<
    (Seq<char>, int),
>
    decreases l.len(),
{
    if l.len() == 0 {
        seq![x]
    } else if l[0].1 < x.1 {
        seq![x] + l
    } else {
        seq![l[0]] + spec_insert(l.drop_first(), x)
    }
}

/// Insertion grows the list by one and keeps it sorted.
pub proof fn lemma_insert_sorted(l: Seq<(Seq<char>, int)>, x: (Seq<char>, int))
    requires
        sorted_desc(l),
    ensures
        spec_insert(l, x).len() == l.len() + 1,
        sorted_desc(spec_insert(l, x)),
    decreases l.len(),
{
    if l.len() > 0 && !(l[0].1 < x.1) {
        assert(forall|i: int| 0 <= i < l.len() - 1 ==> (#[trigger] l.drop_first()[i]) == l[i + 1]);
        lemma_insert_sorted(l.drop_first(), x);
        let out = seq![l[0]] + spec_insert(l.drop_first(), x);
        assert forall|a: int, b: int| 0 <= a < b < out.len() implies (#[trigger] out[a]).1 >= (
        #[trigger] out[b]).1 by {
            if a > 0 {
                assert(out[a] == spec_insert(l.drop_first(), x)[a - 1]);
                assert(out[b] == spec_insert(l.drop_first(), x)[b - 1]);
            } else {
                assert(out[b] == spec_insert(l.drop_first(), x)[b - 1]);
                lemma_insert_elems(l.drop_first(), x);
            }
        }
    }
}

/// Every candidate of the grown list is the inserted one or one of the
/// old list.
pub proof fn lemma_insert_elems(l: Seq<(Seq<char>, int)>, x: (Seq<char>, int))
    ensures
        spec_insert(l, x).len() == l.len() + 1,
        forall|i: int| 0 <= i < spec_insert(l, x).len() ==> (#[trigger] spec_insert(l, x)[i]) == x
            || exists|j: int| 0 <= j < l.len() && l[j] == spec_insert(l, x)[i],
    decreases l.len(),
{
    if l.len() > 0 && !(l[0].1 < x.1) {
        lemma_insert_elems(l.drop_first(), x);
        let out = seq![l[0]] + spec_insert(l.drop_first(), x);
        assert forall|i: int| 0 <= i < out.len() implies (#[trigger] out[i]) == x || exists|j: int|
            0 <= j < l.len() && l[j] == out[i] by {
            if i == 0 {
                assert(l[0] == out[0]);
            } else {
                let e = spec_insert(l.drop_first(), x)[i - 1];
                assert(out[i] == e);
                if e != x {
                    let j = choose|j: int| 0 <= j < l.drop_first().len() && l.drop_first()[j] == e;
                    assert(l[j + 1] == e);
                }
            }
        }
    } else {
        if l.len() == 0 {
        } else {
            assert forall|i: int| 0 <= i < (seq![x] + l).len() implies (#[trigger] (seq![x]
                + l)[i]) == x || exists|j: int| 0 <= j < l.len() && l[j] == (seq![x] + l)[i] by {
                if i > 0 {
                    assert(l[i - 1] == (seq![x] + l)[i]);
                }
            }
        }
    }
}

/// The inserted list is the old one split at the first strictly lower
/// score, with the new candidate between the halves.
pub proof fn lemma_insert_shape(l: Seq<(Seq<char>, int)>, x: (Seq<char>, int), k: int)
    requires
        0 <= k <= l.len(),
        forall|j: int| 0 <= j < k ==> (#[trigger] l[j]).1 >= x.1,
        k < l.len() ==> l[k].1 < x.1,
    ensures
        spec_insert(l, x) == l.take(k) + seq![x] + l.skip(k),
    decreases l.len(),
{
    if l.len() == 0 {
        assert(spec_insert(l, x) =~= l.take(0) + seq![x] + l.skip(0));
    } else if k == 0 {
        assert(l[0].1 < x.1);
        assert(spec_insert(l, x) =~= l.take(0) + seq![x] + l.skip(0));
    } else {
        assert(forall|i: int| 0 <= i < l.len() - 1 ==> (#[trigger] l.drop_first()[i]) == l[i + 1]);
        lemma_insert_shape(l.drop_first(), x, k - 1);
        assert(spec_insert(l, x) =~= l.take(k) + seq![x] + l.skip(k)) by {
            assert(spec_insert(l, x) == seq![l[0]] + spec_insert(l.drop_first(), x));
            assert(spec_insert(l.drop_first(), x) == l.drop_first().take(k - 1) + seq![x]
                + l.drop_first().skip(k - 1));
        }
    }
}

/// Inserts a finished candidate into the sorted list, after its score
/// peers.
fn insert_candidate(v: &mut Vec<(Layout, i64)>, x: Layout, s: i64)
    ensures
        cand_view(final(v)@) == spec_insert(cand_view(old(v)@), (x.keys@, s as int)),
        final(v)@.len() == old(v)@.len() + 1,
{
    let ghost l = cand_view(v@);
    let mut k: usize = 0;
    while k < v.len() && v[k].1 >= s
        invariant
            0 <= k <= v@.len(),
            v@ == old(v)@,
            forall|j: int| 0 <= j < k ==> (#[trigger] v@[j]).1 >= s,
        decreases v@.len() - k,
    {
        k = k + 1;
    }
    proof {
        assert(forall|j: int| 0 <= j < k ==> (#[trigger] l[j]).1 >= s as int);
        if k < v@.len() {
            assert(l[k as int].1 < s as int);
        }
        lemma_insert_shape(l, (x.keys@, s as int), k as int);
    }
    v.insert(k, (x, s));
    proof {
        assert(cand_view(v@) =~= l.take(k as int) + seq![(x.keys@, s as int)] + l.skip(k as int));
    }
}

/// The finishing state of unconstrained generation trial `t`: a shuffled
/// alphabet annealed for the whole budget.
pub open spec fn gen_trial(
    c: Corpus,
    g: Geometry,
    ws: Seq<(MetricKind, i64)>,
    cat: Seq<MetricKind>,
    seed: u64,
    t: int,
) -> (Seq<char>, int) {
    let s0 = spec_shuffle(c.alpha(), trial_seed(seed, t), c.alpha().len());
    let st = spec_run(
        (s0.0, spec_total(cat, s0.0, c, g, ws), s0.1),
        Seq::<usize>::empty(),
        ITERS as nat,
        c,
        g,
        ws,
        cat,
    );
    (st.0, st.1)
}

/// The sorted list of the first `t` generation trials.
pub open spec fn gen_list(
    c: Corpus,
    g: Geometry,
    ws: Seq<(MetricKind, i64)>,
    cat: Seq<MetricKind>,
    seed: u64,
    t: nat,
) -> Seq<(Seq<char>, int)>
    decreases t,
{
    if t == 0 {
        Seq::<(Seq<char>, int)>::empty()
    } else {
        spec_insert(
            gen_list(c, g, ws, cat, seed, (t - 1) as nat),
            gen_trial(c, g, ws, cat, seed, t - 1),
        )
    }
}

/// At most the best `KEEP` candidates are retained.
pub open spec fn spec_keep(l: Seq<(Seq<char>, int)>) -> Seq<(Seq<char>, int)> {
    if l.len() <= KEEP {
        l
    } else {
        l.take(KEEP as int)
    }
}

/// What `generate` returns: the retained prefix of the sorted trial
/// results, a pure function of the session's data and the seed.
pub open spec fn spec_generate(
    c: Corpus,
    g: Geometry,
    ws: Seq<(MetricKind, i64)>,
    cat: Seq<MetricKind>,
    trials: nat,
    seed: u64,
) -> Seq<(Seq<char>, int)> {
    spec_keep(gen_list(c, g, ws, cat, seed, trials))
}

/// The finishing state of constrained improvement trial `t`: the seed
/// layout annealed for the whole budget without touching a pin.
pub open spec fn imp_trial(
    c: Corpus,
    g: Geometry,
    ws: Seq<(MetricKind, i64)>,
    cat: Seq<MetricKind>,
    base: Seq<char>,
    pins: Seq<usize>,
    seed: u64,
    t: int,
) -> (Seq<char>, int) {
    let st = spec_run(
        (base, spec_total(cat, base, c, g, ws), trial_seed(seed, t)),
        pins,
        ITERS as nat,
        c,
        g,
        ws,
        cat,
    );
    (st.0, st.1)
}

/// The sorted list of the first `t` improvement trials.
pub open spec fn imp_list(
    c: Corpus,
    g: Geometry,
    ws: Seq<(MetricKind, i64)>,
    cat: Seq<MetricKind>,
    base: Seq<char>,
    pins: Seq<usize>,
    seed: u64,
    t: nat,
) -> Seq<(Seq<char>, int)>
    decreases t,
{
    if t == 0 {
        Seq::<(Seq<char>, int)>::empty()
    } else {
        spec_insert(
            imp_list(c, g, ws, cat, base, pins, seed, (t - 1) as nat),
            imp_trial(c, g, ws, cat, base, pins, seed, t - 1),
        )
    }
}

/// What `improve` returns.
pub open spec fn spec_improve(
    c: Corpus,
    g: Geometry,
    ws: Seq<(MetricKind, i64)>,
    cat: Seq<MetricKind>,
    base: Seq<char>,
    pins: Seq<usize>,
    amount: nat,
    seed: u64,
) -> Seq<(Seq<char>, int)> {
    spec_keep(imp_list(c, g, ws, cat, base, pins, seed, amount))
}

/// Determinism of generation: two sessions over the same corpus, geometry,
/// weights and catalog, asked for the same trial count with the same seed,
/// produce the same candidate list.
pub proof fn lemma_generate_deterministic(s1: Session, s2: Session, trials: nat, seed: u64)
    requires
        s1.corpus == s2.corpus,
        s1.geom == s2.geom,
        s1.weights@ == s2.weights@,
        s1.catalog@ == s2.catalog@,
    ensures
        spec_generate(s1.corpus, s1.geom, s1.weights@, s1.catalog@, trials, seed) == spec_generate(
            s2.corpus,
            s2.geom,
            s2.weights@,
            s2.catalog@,
            trials,
            seed,
        ),
{
}

/// Determinism of improvement: the same session data, seed layout, pins,
/// trial count and seed produce the same candidate list.
pub proof fn lemma_improve_deterministic(
    s1: Session,
    s2: Session,
    base: Seq<char>,
    pins: Seq<usize>,
    amount: nat,
    seed: u64,
)
    requires
        s1.corpus == s2.corpus,
        s1.geom == s2.geom,
        s1.weights@ == s2.weights@,
        s1.catalog@ == s2.catalog@,
    ensures
        spec_improve(s1.corpus, s1.geom, s1.weights@, s1.catalog@, base, pins, amount, seed)
            == spec_improve(
            s2.corpus,
            s2.geom,
            s2.weights@,
            s2.catalog@,
            base,
            pins,
            amount,
            seed,
        ),
{
}

/// Element-wise copy of a candidate list.
fn duplicate_candidates(v: &Vec<(Layout, i64)>) -> (r: Vec<(Layout, i64)>)
    ensures
        cand_view(r@) == cand_view(v@),
{
    let mut out: Vec<(Layout, i64)> = Vec::new();
    let mut i: usize = 0;
    while i < v.len()
        invariant
            0 <= i <= v@.len(),
            out@.len() == i,
            forall|j: int| 0 <= j < i ==> (#[trigger] out@[j]).0.keys@ == v@[j].0.keys@
                && out@[j].1 == v@[j].1,
        decreases v@.len() - i,
    {
        let e = &v[i];
        let l = e.0.duplicate();
        let s = e.1;
        out.push((l, s));
        i = i + 1;
    }
    proof {
        assert(cand_view(out@) =~= cand_view(v@));
    }
    out
}

/// One search session: the corpus and configuration it was built over,
/// and the transient candidate list of the most recent generation call.
pub struct Session {
    pub corpus: Corpus,
    pub geom: Geometry,
    pub weights: Vec<(MetricKind, i64)>,
    pub catalog: Vec<MetricKind>,
    pub candidates: Option<Vec<(Layout, i64)>>,
}

impl Session {
    /// Every retained candidate is an accepted encoding.
    pub open spec fn cands_ok(self, v: Seq<(Layout, i64)>) -> bool {
        forall|i: int| 0 <= i < v.len() ==> decode_ok(
            (#[trigger] v[i]).0.keys@,
            self.corpus.alpha(),
            self.geom.keys@.len() as nat,
        )
    }

    pub open spec fn wf(self) -> bool {
        &&& self.corpus.wf()
        &&& self.geom.wf()
        &&& weights_ok(self.weights@)
        &&& catalog_ok(self.catalog@)
        &&& self.corpus.alpha().len() == self.geom.keys@.len()
        &&& (match self.candidates {
            Some(v) => self.cands_ok(v@),
            None => true,
        })
    }

    /// Builds a session for a language: fails with `LanguageNotFound`
    /// when the corpus set has no entry for it, and rejects a corpus
    /// whose alphabet does not cover the geometry exactly.
    pub fn new(
        language: &Vec<char>,
        corpora: &CorpusSet,
        geom: Geometry,
        weights: Vec<(MetricKind, i64)>,
        catalog: Vec<MetricKind>,
    ) -> (r: Result<Session, Error>)
        requires
            corpora.wf(),
            geom.wf(),
            weights_ok(weights@),
            catalog_ok(catalog@),
        ensures
            r is Ok <==> (corpora.spec_find(language@) matches Some(c) && c.alpha().len()
                == geom.keys@.len()),
            r matches Ok(s) ==> s.wf() && s.geom == geom && s.weights == weights && s.catalog
                == catalog && s.candidates is None,
            r matches Ok(s) ==> (corpora.spec_find(language@) matches Some(c) && s.corpus.unigrams@
                == c.unigrams@ && s.corpus.bigrams@ == c.bigrams@ && s.corpus.trigrams@
                == c.trigrams@),
            corpora.spec_find(language@) is None ==> r == Err::<Session, Error>(
                Error::LanguageNotFound,
            ),
            (corpora.spec_find(language@) matches Some(c) && c.alpha().len() != geom.keys@.len())
                ==> r == Err::<Session, Error>(Error::ParseError),
    {
        match corpora.find(language) {
            None => Err(Error::LanguageNotFound),
            Some(i) => {
                let corpus = corpora.corpus_at(i);
                if corpus.unigrams.len() != geom.slots() {
                    return Err(Error::ParseError);
                }
                proof {
                    assert(corpus.alpha() =~= corpora.spec_find(language@).unwrap().alpha());
                }
                Ok(
                    Session {
                        corpus,
                        geom,
                        weights,
                        catalog,
                        candidates: None::<Vec<(Layout, i64)>>,
                    },
                )
            },
        }
    }

    /// Unconstrained generation: `trials` independent annealing runs from
    /// randomly shuffled alphabets, deterministic for the seed; the best
    /// at most `KEEP` finishing layouts, sorted by score non-increasing
    /// with ties kept in completion order, become the new candidate list.
    /// Zero trials yield an empty list, not an error.
    pub fn generate(&mut self, trials: usize, seed: u64) -> (r: Vec<(Layout, i64)>)
        requires
            old(self).wf(),
        ensures
            final(self).wf(),
            final(self).corpus == old(self).corpus,
            final(self).geom == old(self).geom,
            final(self).weights == old(self).weights,
            final(self).catalog == old(self).catalog,
            cand_view(r@) == spec_generate(
                old(self).corpus,
                old(self).geom,
                old(self).weights@,
                old(self).catalog@,
                trials as nat,
                seed,
            ),
            final(self).candidates matches Some(v) && cand_view(v@) == cand_view(r@),
            sorted_desc(cand_view(r@)),
            r@.len() <= KEEP,
            r@.len() <= trials,
            trials == 0 ==> r@.len() == 0,
            forall|i: int| 0 <= i < r@.len() ==> decode_ok(
                (#[trigger] r@[i]).0.keys@,
                old(self).corpus.alpha(),
                old(self).geom.keys@.len() as nat,
            ) && r@[i].1 as int == spec_total(
                old(self).catalog@,
                r@[i].0.keys@,
                old(self).corpus,
                old(self).geom,
                old(self).weights@,
            ),
    {
        let ghost c = self.corpus;
        let ghost g = self.geom;
        let ghost ws = self.weights@;
        let ghost cat = self.catalog@;
        let ghost alpha = self.corpus.alpha();
        let ghost slots = self.geom.keys@.len() as nat;
        proof {
            lemma_alpha_layout(c);
        }
        let npins: Vec<usize> = Vec::new();
        let mut list: Vec<(Layout, i64)> = Vec::new();
        proof {
            assert(cand_view(list@) =~= gen_list(c, g, ws, cat, seed, 0));
        }
        let mut t: usize = 0;
        while t < trials
            invariant
                0 <= t <= trials,
                self.corpus == c,
                self.geom == g,
                self.weights@ == ws,
                self.catalog@ == cat,
                npins@.len() == 0,
                list@.len() == t,
                cand_view(list@) == gen_list(c, g, ws, cat, seed, t as nat),
                sorted_desc(cand_view(list@)),
                forall|i: int| 0 <= i < list@.len() ==> decode_ok(
                    (#[trigger] list@[i]).0.keys@,
                    alpha,
                    slots,
                ) && list@[i].1 as int == spec_total(cat, list@[i].0.keys@, c, g, ws),
            decreases trials - t,
        {
            let ghost prev = cand_view(list@);
            let mut start = self.corpus.alphabet();
            let rs = rng_next(seed ^ (t as u64));
            proof {
                assert(start@ == alpha);
                lemma_shuffle_wf(alpha, rs, alpha.len(), alpha, slots);
            }
            let ra = shuffle(&mut start, rs);
            let res = run_trial(start, ra, &npins, &self.corpus, &self.geom, &self.weights, &self.catalog);
            let ghost xk = res.0.keys@;
            let ghost xs = res.1 as int;
            proof {
                assert(npins@ =~= Seq::<usize>::empty());
                assert(rs == trial_seed(seed, t as int));
                assert(xk == gen_trial(c, g, ws, cat, seed, t as int).0);
                lemma_run_score(
                    (
                        spec_shuffle(alpha, rs, alpha.len()).0,
                        spec_total(cat, spec_shuffle(alpha, rs, alpha.len()).0, c, g, ws),
                        spec_shuffle(alpha, rs, alpha.len()).1,
                    ),
                    npins@,
                    ITERS as nat,
                    c,
                    g,
                    ws,
                    cat,
                );
                assert(xs == gen_trial(c, g, ws, cat, seed, t as int).1);
                assert((xk, xs) == gen_trial(c, g, ws, cat, seed, t as int));
            }
            let lay = res.0;
            let sc = res.1;
            insert_candidate(&mut list, lay, sc);
            proof {
                lemma_insert_sorted(prev, (xk, xs));
                lemma_insert_elems(prev, (xk, xs));
                assert(cand_view(list@) == gen_list(c, g, ws, cat, seed, (t + 1) as nat));
                assert forall|i: int| 0 <= i < list@.len() implies decode_ok(
                    (#[trigger] list@[i]).0.keys@,
                    alpha,
                    slots,
                ) && list@[i].1 as int == spec_total(cat, list@[i].0.keys@, c, g, ws) by {
                    let e = cand_view(list@)[i];
                    assert(e == (list@[i].0.keys@, list@[i].1 as int));
                    if e != (xk, xs) {
                        let j = choose|j: int| 0 <= j < prev.len() && prev[j] == e;
                        assert(prev[j] == (list@[i].0.keys@, list@[i].1 as int));
                    }
                }
            }
            t = t + 1;
        }
        if list.len() > KEEP {
            let ghost full = cand_view(list@);
            list.truncate(KEEP);
            proof {
                assert(cand_view(list@) =~= full.take(KEEP as int));
            }
        }
        let dup = duplicate_candidates(&list);
        proof {
            assert forall|i: int| 0 <= i < dup@.len() implies decode_ok(
                (#[trigger] dup@[i]).0.keys@,
                alpha,
                slots,
            ) by {
                assert(cand_view(dup@)[i].0 == dup@[i].0.keys@);
                assert(cand_view(list@)[i].0 == list@[i].0.keys@);
                assert(cand_view(dup@)[i] == cand_view(list@)[i]);
            }
        }
        self.candidates = Some(dup);
        list
    }

    /// Constrained improvement: `amount` independent annealing runs, each
    /// starting from the seed layout, never swapping a pinned position;
    /// retention, ordering and determinism as in `generate`. Every
    /// returned candidate still holds the seed layout's character on
    /// every pinned position.
    pub fn improve(
        &mut self,
        amount: usize,
        seed_layout: &Layout,
        pins: &Vec<usize>,
        seed: u64,
    ) -> (r: Vec<(Layout, i64)>)
        requires
            old(self).wf(),
            decode_ok(
                seed_layout.keys@,
                old(self).corpus.alpha(),
                old(self).geom.keys@.len() as nat,
            ),
        ensures
            final(self).wf(),
            final(self).corpus == old(self).corpus,
            final(self).geom == old(self).geom,
            final(self).weights == old(self).weights,
            final(self).catalog == old(self).catalog,
            cand_view(r@) == spec_improve(
                old(self).corpus,
                old(self).geom,
                old(self).weights@,
                old(self).catalog@,
                seed_layout.keys@,
                pins@,
                amount as nat,
                seed,
            ),
            final(self).candidates matches Some(v) && cand_view(v@) == cand_view(r@),
            sorted_desc(cand_view(r@)),
            r@.len() <= KEEP,
            r@.len() <= amount,
            amount == 0 ==> r@.len() == 0,
            forall|i: int| 0 <= i < r@.len() ==> pins_held(
                (#[trigger] r@[i]).0.keys@,
                seed_layout.keys@,
                pins@,
            ),
            forall|i: int| 0 <= i < r@.len() ==> decode_ok(
                (#[trigger] r@[i]).0.keys@,
                old(self).corpus.alpha(),
                old(self).geom.keys@.len() as nat,
            ) && r@[i].1 as int == spec_total(
                old(self).catalog@,
                r@[i].0.keys@,
                old(self).corpus,
                old(self).geom,
                old(self).weights@,
            ),
    {
        let ghost c = self.corpus;
        let ghost g = self.geom;
        let ghost ws = self.weights@;
        let ghost cat = self.catalog@;
        let ghost alpha = self.corpus.alpha();
        let ghost slots = self.geom.keys@.len() as nat;
        let ghost base = seed_layout.keys@;
        let mut list: Vec<(Layout, i64)> = Vec::new();
        proof {
            assert(cand_view(list@) =~= imp_list(c, g, ws, cat, base, pins@, seed, 0));
        }
        let mut t: usize = 0;
        while t < amount
            invariant
                0 <= t <= amount,
                self.corpus == c,
                self.geom == g,
                self.weights@ == ws,
                self.catalog@ == cat,
                list@.len() == t,
                cand_view(list@) == imp_list(c, g, ws, cat, base, pins@, seed, t as nat),
                sorted_desc(cand_view(list@)),
                forall|i: int| 0 <= i < list@.len() ==> pins_held(
                    (#[trigger] list@[i]).0.keys@,
                    base,
                    pins@,
                ),
                forall|i: int| 0 <= i < list@.len() ==> decode_ok(
                    (#[trigger] list@[i]).0.keys@,
                    alpha,
                    slots,
                ) && list@[i].1 as int == spec_total(cat, list@[i].0.keys@, c, g, ws),
            decreases amount - t,
        {
            let ghost prev = cand_view(list@);
            let start = crate::copy_chars(&seed_layout.keys);
            let rs = rng_next(seed ^ (t as u64));
            proof {
                assert(start@ == base);
            }
            let res = run_trial(start, rs, pins, &self.corpus, &self.geom, &self.weights, &self.catalog);
            let ghost xk = res.0.keys@;
            let ghost xs = res.1 as int;
            proof {
                assert(rs == trial_seed(seed, t as int));
                let st0 = (base, spec_total(cat, base, c, g, ws), rs);
                assert(xk == imp_trial(c, g, ws, cat, base, pins@, seed, t as int).0);
                lemma_run_score(st0, pins@, ITERS as nat, c, g, ws, cat);
                assert(xs == imp_trial(c, g, ws, cat, base, pins@, seed, t as int).1);
                assert((xk, xs) == imp_trial(c, g, ws, cat, base, pins@, seed, t as int));
                lemma_run_props(st0, pins@, ITERS as nat, c, g, ws, cat, base);
                assert(pins_held(xk, base, pins@));
            }
            let lay = res.0;
            let sc = res.1;
            insert_candidate(&mut list, lay, sc);
            proof {
                lemma_insert_sorted(prev, (xk, xs));
                lemma_insert_elems(prev, (xk, xs));
                assert(cand_view(list@) == imp_list(c, g, ws, cat, base, pins@, seed, (t + 1) as nat));
                assert forall|i: int| 0 <= i < list@.len() implies pins_held(
                    (#[trigger] list@[i]).0.keys@,
                    base,
                    pins@,
                ) && decode_ok(list@[i].0.keys@, alpha, slots) && list@[i].1 as int == spec_total(
                    cat,
                    list@[i].0.keys@,
                    c,
                    g,
                    ws,
                ) by {
                    let e = cand_view(list@)[i];
                    assert(e == (list@[i].0.keys@, list@[i].1 as int));
                    if e != (xk, xs) {
                        let j = choose|j: int| 0 <= j < prev.len() && prev[j] == e;
                        assert(prev[j] == (list@[i].0.keys@, list@[i].1 as int));
                    }
                }
            }
            t = t + 1;
        }
        if list.len() > KEEP {
            let ghost full = cand_view(list@);
            list.truncate(KEEP);
            proof {
                assert(cand_view(list@) =~= full.take(KEEP as int));
            }
        }
        let dup = duplicate_candidates(&list);
        proof {
            assert forall|i: int| 0 <= i < dup@.len() implies decode_ok(
                (#[trigger] dup@[i]).0.keys@,
                alpha,
                slots,
            ) by {
                assert(cand_view(dup@)[i].0 == dup@[i].0.keys@);
                assert(cand_view(list@)[i].0 == list@[i].0.keys@);
                assert(cand_view(dup@)[i] == cand_view(list@)[i]);
            }
        }
        self.candidates = Some(dup);
        list
    }

    /// What indexed retrieval resolves to: the candidate at the rank, or
    /// the error naming why there is none.
    pub open spec fn nth_spec(self, i: usize) -> Result<Layout, Error> {
        match self.candidates {
            None => Err(Error::NoCandidatesYet),
            Some(v) => if i < v@.len() {
                Ok(v@[i as int].0)
            } else {
                Err(Error::IndexOutOfRange)
            },
        }
    }

    /// Indexed retrieval from the current candidate list. Fails with
    /// `NoCandidatesYet` before any generation in this session, and with
    /// `IndexOutOfRange` at or past the end of the list; never panics.
    pub fn nth(&self, i: usize) -> (r: Result<Layout, Error>)
        ensures
            r is Ok <==> self.nth_spec(i) is Ok,
            r matches Ok(l) ==> (self.nth_spec(i) matches Ok(s) && l.keys@ == s.keys@),
            r matches Err(e) ==> self.nth_spec(i) == Err::<Layout, Error>(e),
            self.candidates is None ==> r == Err::<Layout, Error>(Error::NoCandidatesYet),
            self.candidates matches Some(v) ==> ((i < v@.len() ==> (r matches Ok(l) && l.keys@
                == v@[i as int].0.keys@)) && (i >= v@.len() ==> r == Err::<Layout, Error>(
                Error::IndexOutOfRange,
            ))),
    {
        match &self.candidates {
            None => Err(Error::NoCandidatesYet),
            Some(v) => {
                if i < v.len() {
                    Ok(v[i].0.duplicate())
                } else {
                    Err(Error::IndexOutOfRange)
                }
            },
        }
    }
}

} // verus!
