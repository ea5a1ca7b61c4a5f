//! The metric model: pure scoring of a layout against a corpus, a key
//! geometry, and a weight configuration.
//!
//! Every metric is a sum over one frequency table of
//! `frequency x per-event-cost`. n-grams with a character that the layout
//! does not place contribute zero and are skipped.

use vstd::prelude::*;

use crate::MAX_CATALOG;
use crate::MAX_EFFORT;
use crate::MAX_TABLE;
use crate::MAX_WEIGHT;
use crate::SCALE;
use crate::corpus::Corpus;
use crate::corpus::bi_freqs_ok;
use crate::corpus::tri_freqs_ok;
use crate::corpus::uni_freqs_ok;
use crate::geometry::Geometry;
use crate::geometry::KeyPos;
use crate::geometry::key_ok;
use crate::layout::Layout;
use crate::layout::lemma_pos_of;
use crate::layout::spec_pos_of;

verus! {

/// Upper bound on one unigram term: `SCALE * MAX_EFFORT`.
pub const TERM_BOUND: u64 = 1_000_000_000;

/// Upper bound on the raw value of one metric: `MAX_TABLE * TERM_BOUND`.
pub const RAW_BOUND: i64 = 100_000_000_000_000;

/// Upper bound on the magnitude of one weighted contribution:
/// `MAX_WEIGHT * RAW_BOUND`.
pub const WEIGHTED_BOUND: i64 = 100_000_000_000_000_000;

/// Upper bound on the magnitude of a total score:
/// `MAX_CATALOG * WEIGHTED_BOUND`.
pub const TOTAL_BOUND: i64 = 1_600_000_000_000_000_000;

/// The named metrics the catalog can declare.
#[derive(Debug, Clone, Copy, PartialEq, Eq, Structural)]
pub enum MetricKind {
    /// Positional effort, over unigrams.
    Effort,
    /// Two consecutive characters on the same finger, over bigrams.
    SameFingerBigram,
    /// A wide same-hand column jump, over bigrams.
    LateralStretch,
    /// A same-hand pair moving toward the center, then a hand change.
    InwardRoll,
    /// A same-hand pair moving away from the center, then a hand change.
    OutwardRoll,
    /// Hand alternating on every character of a triple.
    Alternation,
    /// A one-hand triple that changes direction.
    Redirect,
    /// Any one-hand triple.
    OneHandRun,
}

/// The two positions sit on one hand and the second is closer to the
/// center column.
pub open spec fn inward(a: KeyPos, b: KeyPos) -> bool {
    a.hand == b.hand && (if a.hand == 0 {
        a.col < b.col
    } else {
        b.col < a.col
    })
}

/// The two positions sit on one hand and the second is farther from the
/// center column.
pub open spec fn outward(a: KeyPos, b: KeyPos) -> bool {
    a.hand == b.hand && (if a.hand == 0 {
        a.col > b.col
    } else {
        b.col > a.col
    })
}

/// Whether a bigram at the two positions is an event of the metric.
pub open spec fn bi_event(kind: MetricKind, a: KeyPos, b: KeyPos, pa: int, pb: int) -> bool {
    match kind {
        MetricKind::SameFingerBigram => pa != pb && a.hand == b.hand && a.finger == b.finger,
        MetricKind::LateralStretch => a.hand == b.hand && a.finger != b.finger && (a.col - b.col
            >= 2 || b.col - a.col >= 2),
        _ => false,
    }
}

/// Whether a trigram at the three positions is an event of the metric.
pub open spec fn tri_event(kind: MetricKind, a: KeyPos, b: KeyPos, c: KeyPos) -> bool {
    match kind {
        MetricKind::InwardRoll => (a.hand == b.hand && b.hand != c.hand && inward(a, b)) || (a.hand
            != b.hand && b.hand == c.hand && inward(b, c)),
        MetricKind::OutwardRoll => (a.hand == b.hand && b.hand != c.hand && outward(a, b)) || (
        a.hand != b.hand && b.hand == c.hand && outward(b, c)),
        MetricKind::Alternation => a.hand != b.hand && b.hand != c.hand,
        MetricKind::Redirect => a.hand == b.hand && b.hand == c.hand && ((inward(a, b) && outward(
            b,
            c,
        )) || (outward(a, b) && inward(b, c))),
        MetricKind::OneHandRun => a.hand == b.hand && b.hand == c.hand,
        _ => false,
    }
}

/// Contribution of one unigram entry: frequency times the effort of the
/// key holding the character, zero when the character is not placed.
pub open spec fn uni_term(keys: Seq<char>, geom: Seq<KeyPos>, e: (char, u64)) -> int {
    match spec_pos_of(keys, e.0) {
        Some(p) => e.1 * geom[p].effort,
        None => 0,
    }
}

/// Sum of the unigram contributions of the table.
pub open spec fn uni_total(t: Seq<(char, u64)>, keys: Seq<char>, geom: Seq<KeyPos>) -> int
    decreases t.len(),
{
    if t.len() == 0 {
        0
    } else {
        uni_total(t.drop_last(), keys, geom) + uni_term(keys, geom, t.last())
    }
}

/// Contribution of one bigram entry: its frequency when both characters
/// are placed and the pair is an event, zero otherwise.
pub open spec fn bi_term(
    kind: MetricKind,
    keys: Seq<char>,
    geom: Seq<KeyPos>,
    e: ((char, char), u64),
) -> int {
    match (spec_pos_of(keys, e.0.0), spec_pos_of(keys, e.0.1)) {
        (Some(pa), Some(pb)) => if bi_event(kind, geom[pa], geom[pb], pa, pb) {
            e.1 as int
        } else {
            0
        },
        _ => 0,
    }
}

/// Sum of the bigram contributions of the table.
pub open spec fn bi_total(
    kind: MetricKind,
    t: Seq<((char, char), u64)>,
    keys: Seq<char>,
    geom: Seq<KeyPos>,
) -> int
    decreases t.len(),
{
    if t.len() == 0 {
        0
    } else {
        bi_total(kind, t.drop_last(), keys, geom) + bi_term(kind, keys, geom, t.last())
    }
}

/// Contribution of one trigram entry.
pub open spec fn tri_term(
    kind: MetricKind,
    keys: Seq<char>,
    geom: Seq<KeyPos>,
    e: ((char, char, char), u64),
) -> int {
    match (spec_pos_of(keys, e.0.0), spec_pos_of(keys, e.0.1), spec_pos_of(keys, e.0.2)) {
        (Some(pa), Some(pb), Some(pc)) => if tri_event(kind, geom[pa], geom[pb], geom[pc]) {
            e.1 as int
        } else {
            0
        },
        _ => 0,
    }
}

/// Sum of the trigram contributions of the table.
pub open spec fn tri_total(
    kind: MetricKind,
    t: Seq<((char, char, char), u64)>,
    keys: Seq<char>,
    geom: Seq<KeyPos>,
) -> int
    decreases t.len(),
{
    if t.len() == 0 {
        0
    } else {
        tri_total(kind, t.drop_last(), keys, geom) + tri_term(kind, keys, geom, t.last())
    }
}

/// The raw, unweighted value of one metric of a layout.
pub open spec fn spec_raw(kind: MetricKind, keys: Seq<char>, c: Corpus, g: Geometry) -> int {
    match kind {
        MetricKind::Effort => uni_total(c.unigrams@, keys, g.keys@),
        MetricKind::SameFingerBigram => bi_total(kind, c.bigrams@, keys, g.keys@),
        MetricKind::LateralStretch => bi_total(kind, c.bigrams@, keys, g.keys@),
        _ => tri_total(kind, c.trigrams@, keys, g.keys@),
    }
}

/// Every weight of the configuration is bounded.
pub open spec fn weights_ok(ws: Seq<(MetricKind, i64)>) -> bool {
    forall|i: int| 0 <= i < ws.len() ==> -MAX_WEIGHT <= (#[trigger] ws[i]).1 <= MAX_WEIGHT
}

/// A catalog is bounded.
pub open spec fn catalog_ok(cat: Seq<MetricKind>) -> bool {
    cat.len() <= MAX_CATALOG
}

/// The coefficient the configuration assigns to the metric: the first
/// entry naming it, or zero when it names none.
pub open spec fn spec_weight(ws: Seq<(MetricKind, i64)>, kind: MetricKind) -> int
    decreases ws.len(),
{
    if ws.len() == 0 {
        0
    } else if ws[0].0 == kind {
        ws[0].1 as int
    } else {
        spec_weight(ws.drop_first(), kind)
    }
}

/// The weighted contribution of one metric.
pub open spec fn spec_weighted(
    kind: MetricKind,
    keys: Seq<char>,
    c: Corpus,
    g: Geometry,
    ws: Seq<(MetricKind, i64)>,
) -> int {
    spec_weight(ws, kind) * spec_raw(kind, keys, c, g)
}

/// The total score: the sum of the weighted contributions of every
/// metric the catalog declares, in catalog order.
pub open spec fn spec_total(
    cat: Seq<MetricKind>,
    keys: Seq<char>,
    c: Corpus,
    g: Geometry,
    ws: Seq<(MetricKind, i64)>,
) -> int
    decreases cat.len(),
{
    if cat.len() == 0 {
        0
    } else {
        spec_total(cat.drop_last(), keys, c, g, ws) + spec_weighted(cat.last(), keys, c, g, ws)
    }
}

/// Per-entry bound on a unigram term.
pub proof fn lemma_uni_term_bound(keys: Seq<char>, geom: Seq<KeyPos>, e: (char, u64))
    requires
        e.1 <= SCALE,
        keys.len() <= geom.len(),
        forall|i: int| 0 <= i < geom.len() ==> key_ok(#[trigger] geom[i]),
    ensures
        0 <= uni_term(keys, geom, e) <= TERM_BOUND,
{
    lemma_pos_of(keys, e.0);
    match spec_pos_of(keys, e.0) {
        Some(p) => {
            assert(key_ok(geom[p]));
            assert(e.1 * geom[p].effort <= SCALE * MAX_EFFORT) by (nonlinear_arith)
                requires
                    e.1 <= SCALE,
                    geom[p].effort <= MAX_EFFORT,
            ;
            assert(e.1 * geom[p].effort >= 0) by (nonlinear_arith);
        },
        None => {},
    }
}

/// The unigram sum is nonnegative and linearly bounded by the table size.
pub proof fn lemma_uni_total_bound(t: Seq<(char, u64)>, keys: Seq<char>, geom: Seq<KeyPos>)
    requires
        uni_freqs_ok(t),
        keys.len() <= geom.len(),
        forall|i: int| 0 <= i < geom.len() ==> key_ok(#[trigger] geom[i]),
    ensures
        0 <= uni_total(t, keys, geom) <= t.len() * TERM_BOUND,
    decreases t.len(),
{
    if t.len() > 0 {
        assert(forall|i: int| 0 <= i < t.len() - 1 ==> (#[trigger] t.drop_last()[i]) == t[i]);
        lemma_uni_total_bound(t.drop_last(), keys, geom);
        lemma_uni_term_bound(keys, geom, t.last());
    }
}

/// The bigram sum is nonnegative and linearly bounded by the table size.
pub proof fn lemma_bi_total_bound(
    kind: MetricKind,
    t: Seq<((char, char), u64)>,
    keys: Seq<char>,
    geom: Seq<KeyPos>,
)
    requires
        bi_freqs_ok(t),
    ensures
        0 <= bi_total(kind, t, keys, geom) <= t.len() * SCALE,
    decreases t.len(),
{
    if t.len() > 0 {
        assert(forall|i: int| 0 <= i < t.len() - 1 ==> (#[trigger] t.drop_last()[i]) == t[i]);
        lemma_bi_total_bound(kind, t.drop_last(), keys, geom);
    }
}

/// The trigram sum is nonnegative and linearly bounded by the table size.
pub proof fn lemma_tri_total_bound(
    kind: MetricKind,
    t: Seq<((char, char, char), u64)>,
    keys: Seq<char>,
    geom: Seq<KeyPos>,
)
    requires
        tri_freqs_ok(t),
    ensures
        0 <= tri_total(kind, t, keys, geom) <= t.len() * SCALE,
    decreases t.len(),
{
    if t.len() > 0 {
        assert(forall|i: int| 0 <= i < t.len() - 1 ==> (#[trigger] t.drop_last()[i]) == t[i]);
        lemma_tri_total_bound(kind, t.drop_last(), keys, geom);
    }
}

/// The raw value of any metric is nonnegative and at most `RAW_BOUND`.
pub proof fn lemma_raw_bound(kind: MetricKind, keys: Seq<char>, c: Corpus, g: Geometry)
    requires
        c.wf(),
        g.wf(),
        keys.len() <= g.keys@.len(),
    ensures
        0 <= spec_raw(kind, keys, c, g) <= RAW_BOUND,
{
    match kind {
        MetricKind::Effort => {
            lemma_uni_total_bound(c.unigrams@, keys, g.keys@);
        },
        MetricKind::SameFingerBigram => {
            lemma_bi_total_bound(kind, c.bigrams@, keys, g.keys@);
        },
        MetricKind::LateralStretch => {
            lemma_bi_total_bound(kind, c.bigrams@, keys, g.keys@);
        },
        _ => {
            lemma_tri_total_bound(kind, c.trigrams@, keys, g.keys@);
        },
    }
}

/// The configured coefficient stays within the weight bound.
pub proof fn lemma_weight_bound(ws: Seq<(MetricKind, i64)>, kind: MetricKind)
    requires
        weights_ok(ws),
    ensures
        -MAX_WEIGHT <= spec_weight(ws, kind) <= MAX_WEIGHT,
    decreases ws.len(),
{
    if ws.len() > 0 && ws[0].0 != kind {
        assert(forall|i: int| 0 <= i < ws.len() - 1 ==> (#[trigger] ws.drop_first()[i]) == ws[i
            + 1]);
        lemma_weight_bound(ws.drop_first(), kind);
    }
}

/// The weighted contribution of one metric stays within its bound.
pub proof fn lemma_weighted_bound(
    kind: MetricKind,
    keys: Seq<char>,
    c: Corpus,
    g: Geometry,
    ws: Seq<(MetricKind, i64)>,
)
    requires
        c.wf(),
        g.wf(),
        weights_ok(ws),
        keys.len() <= g.keys@.len(),
    ensures
        -WEIGHTED_BOUND <= spec_weighted(kind, keys, c, g, ws) <= WEIGHTED_BOUND,
{
    lemma_raw_bound(kind, keys, c, g);
    lemma_weight_bound(ws, kind);
    let w = spec_weight(ws, kind);
    let r = spec_raw(kind, keys, c, g);
    assert(-WEIGHTED_BOUND <= w * r <= WEIGHTED_BOUND) by (nonlinear_arith)
        requires
            -MAX_WEIGHT <= w <= MAX_WEIGHT,
            0 <= r <= RAW_BOUND,
    ;
}

/// The total score stays within its bound.
pub proof fn lemma_total_bound(
    cat: Seq<MetricKind>,
    keys: Seq<char>,
    c: Corpus,
    g: Geometry,
    ws: Seq<(MetricKind, i64)>,
)
    requires
        c.wf(),
        g.wf(),
        weights_ok(ws),
        catalog_ok(cat),
        keys.len() <= g.keys@.len(),
    ensures
        -TOTAL_BOUND <= spec_total(cat, keys, c, g, ws) <= TOTAL_BOUND,
        -(cat.len() * WEIGHTED_BOUND) <= spec_total(cat, keys, c, g, ws) <= cat.len()
            * WEIGHTED_BOUND,
    decreases cat.len(),
{
    if cat.len() > 0 {
        lemma_total_bound(cat.drop_last(), keys, c, g, ws);
        lemma_weighted_bound(cat.last(), keys, c, g, ws);
    }
}

/// The score of a layout, broken down per metric.
#[derive(Debug, Clone, PartialEq, Eq)]
pub struct MetricBreakdown {
    /// The weighted total.
    pub total: i64,
    /// One entry per catalog metric: its kind, raw value, and weighted
    /// contribution.
    pub parts: Vec<(MetricKind, i64, i64)>,
}

/// The raw value of one metric of a layout.
pub fn raw_metric(kind: MetricKind, l: &Layout, c: &Corpus, g: &Geometry) -> (r: i64)
    requires
        c.wf(),
        g.wf(),
        l.keys@.len() == g.keys@.len(),
    ensures
        r as int == spec_raw(kind, l.keys@, *c, *g),
        0 <= r <= RAW_BOUND,
{
    proof {
        lemma_raw_bound(kind, l.keys@, *c, *g);
    }
    match kind {
        MetricKind::Effort => raw_uni(l, c, g),
        MetricKind::SameFingerBigram => raw_bi(kind, l, c, g),
        MetricKind::LateralStretch => raw_bi(kind, l, c, g),
        MetricKind::InwardRoll => raw_tri(kind, l, c, g),
        MetricKind::OutwardRoll => raw_tri(kind, l, c, g),
        MetricKind::Alternation => raw_tri(kind, l, c, g),
        MetricKind::Redirect => raw_tri(kind, l, c, g),
        MetricKind::OneHandRun => raw_tri(kind, l, c, g),
    }
}

/// Accumulates the unigram effort metric.
fn raw_uni(l: &Layout, c: &Corpus, g: &Geometry) -> (r: i64)
    requires
        c.wf(),
        g.wf(),
        l.keys@.len() == g.keys@.len(),
    ensures
        r as int == uni_total(c.unigrams@, l.keys@, g.keys@),
        0 <= r,
{
    let ghost t = c.unigrams@;
    proof {
        assert(t.take(0) =~= Seq::<(char, u64)>::empty());
    }
    let mut acc: u64 = 0;
    let mut i: usize = 0;
    while i < c.unigrams.len()
        invariant
            0 <= i <= t.len(),
            t == c.unigrams@,
            acc as int == uni_total(t.take(i as int), l.keys@, g.keys@),
            acc <= i * TERM_BOUND,
        decreases t.len() - i,
    {
        let e = c.unigrams[i];
        let term: u64 = match l.pos_of(e.0) {
            Some(p) => {
                proof {
                    lemma_pos_of(l.keys@, e.0);
                }
                let eff = g.keys[p].effort;
                proof {
                    assert(key_ok(g.keys@[p as int]));
                    assert(e.1 * eff <= SCALE * MAX_EFFORT) by (nonlinear_arith)
                        requires
                            e.1 <= SCALE,
                            eff <= MAX_EFFORT,
                    ;
                    assert(e.1 * eff >= 0) by (nonlinear_arith);
                }
                e.1 * eff
            },
            None => 0,
        };
        proof {
            assert(term as int == uni_term(l.keys@, g.keys@, t[i as int]));
            assert(t.take(i + 1).drop_last() =~= t.take(i as int));
            assert(t.take(i + 1).last() == t[i as int]);
        }
        acc = acc + term;
        i = i + 1;
    }
    proof {
        assert(t.take(t.len() as int) =~= t);
    }
    acc as i64
}

/// Whether the second position continues inward on the same hand.
fn inward_e(a: KeyPos, b: KeyPos) -> (r: bool)
    ensures
        r == inward(a, b),
{
    a.hand == b.hand && (if a.hand == 0 {
        a.col < b.col
    } else {
        b.col < a.col
    })
}

/// Whether the second position continues outward on the same hand.
fn outward_e(a: KeyPos, b: KeyPos) -> (r: bool)
    ensures
        r == outward(a, b),
{
    a.hand == b.hand && (if a.hand == 0 {
        a.col > b.col
    } else {
        b.col > a.col
    })
}

/// Accumulates one bigram metric.
fn raw_bi(kind: MetricKind, l: &Layout, c: &Corpus, g: &Geometry) -> (r: i64)
    requires
        c.wf(),
        g.wf(),
        l.keys@.len() == g.keys@.len(),
    ensures
        r as int == bi_total(kind, c.bigrams@, l.keys@, g.keys@),
        0 <= r,
{
    let ghost t = c.bigrams@;
    proof {
        assert(t.take(0) =~= Seq::<((char, char), u64)>::empty());
    }
    let mut acc: u64 = 0;
    let mut i: usize = 0;
    while i < c.bigrams.len()
        invariant
            0 <= i <= t.len(),
            t == c.bigrams@,
            acc as int == bi_total(kind, t.take(i as int), l.keys@, g.keys@),
            acc <= i * SCALE,
        decreases t.len() - i,
    {
        let e = c.bigrams[i];
        let term: u64 = match (l.pos_of(e.0.0), l.pos_of(e.0.1)) {
            (Some(pa), Some(pb)) => {
                proof {
                    lemma_pos_of(l.keys@, e.0.0);
                    lemma_pos_of(l.keys@, e.0.1);
                }
                let a = g.keys[pa];
                let b = g.keys[pb];
                let ev: bool = match kind {
                    MetricKind::SameFingerBigram => pa != pb && a.hand == b.hand && a.finger
                        == b.finger,
                    MetricKind::LateralStretch => a.hand == b.hand && a.finger != b.finger && ((
                    a.col as usize) >= (b.col as usize) + 2 || (b.col as usize) >= (
                    a.col as usize) + 2),
                    _ => false,
                };
                proof {
                    assert(ev == bi_event(kind, g.keys@[pa as int], g.keys@[pb as int], pa as int, pb as int));
                }
                if ev {
                    e.1
                } else {
                    0
                }
            },
            _ => 0,
        };
        proof {
            assert(term as int == bi_term(kind, l.keys@, g.keys@, t[i as int]));
            assert(t.take(i + 1).drop_last() =~= t.take(i as int));
            assert(t.take(i + 1).last() == t[i as int]);
        }
        acc = acc + term;
        i = i + 1;
    }
    proof {
        assert(t.take(t.len() as int) =~= t);
    }
    acc as i64
}

/// Accumulates one trigram metric.
fn raw_tri(kind: MetricKind, l: &Layout, c: &Corpus, g: &Geometry) -> (r: i64)
    requires
        c.wf(),
        g.wf(),
        l.keys@.len() == g.keys@.len(),
    ensures
        r as int == tri_total(kind, c.trigrams@, l.keys@, g.keys@),
        0 <= r,
{
    let ghost t = c.trigrams@;
    proof {
        assert(t.take(0) =~= Seq::<((char, char, char), u64)>::empty());
    }
    let mut acc: u64 = 0;
    let mut i: usize = 0;
    while i < c.trigrams.len()
        invariant
            0 <= i <= t.len(),
            t == c.trigrams@,
            acc as int == tri_total(kind, t.take(i as int), l.keys@, g.keys@),
            acc <= i * SCALE,
        decreases t.len() - i,
    {
        let e = c.trigrams[i];
        let term: u64 = match (l.pos_of(e.0.0), l.pos_of(e.0.1), l.pos_of(e.0.2)) {
            (Some(pa), Some(pb), Some(pc)) => {
                proof {
                    lemma_pos_of(l.keys@, e.0.0);
                    lemma_pos_of(l.keys@, e.0.1);
                    lemma_pos_of(l.keys@, e.0.2);
                }
                let a = g.keys[pa];
                let b = g.keys[pb];
                let cc = g.keys[pc];
                let ev: bool = match kind {
                    MetricKind::InwardRoll => (a.hand == b.hand && b.hand != cc.hand && inward_e(
                        a,
                        b,
                    )) || (a.hand != b.hand && b.hand == cc.hand && inward_e(b, cc)),
                    MetricKind::OutwardRoll => (a.hand == b.hand && b.hand != cc.hand && outward_e(
                        a,
                        b,
                    )) || (a.hand != b.hand && b.hand == cc.hand && outward_e(b, cc)),
                    MetricKind::Alternation => a.hand != b.hand && b.hand != cc.hand,
                    MetricKind::Redirect => a.hand == b.hand && b.hand == cc.hand && ((inward_e(
                        a,
                        b,
                    ) && outward_e(b, cc)) || (outward_e(a, b) && inward_e(b, cc))),
                    MetricKind::OneHandRun => a.hand == b.hand && b.hand == cc.hand,
                    _ => false,
                };
                proof {
                    assert(ev == tri_event(kind, g.keys@[pa as int], g.keys@[pb as int], g.keys@[pc as int]));
                }
                if ev {
                    e.1
                } else {
                    0
                }
            },
            _ => 0,
        };
        proof {
            assert(term as int == tri_term(kind, l.keys@, g.keys@, t[i as int]));
            assert(t.take(i + 1).drop_last() =~= t.take(i as int));
            assert(t.take(i + 1).last() == t[i as int]);
        }
        acc = acc + term;
        i = i + 1;
    }
    proof {
        assert(t.take(t.len() as int) =~= t);
    }
    acc as i64
}

/// The coefficient the configuration assigns to the metric.
pub fn weight_of(ws: &Vec<(MetricKind, i64)>, kind: MetricKind) -> (r: i64)
    ensures
        r as int == spec_weight(ws@, kind),
{
    let ghost all = ws@;
    proof {
        assert(all.skip(0) =~= all);
    }
    let mut i: usize = 0;
    while i < ws.len()
        invariant
            0 <= i <= all.len(),
            all == ws@,
            spec_weight(all, kind) == spec_weight(all.skip(i as int), kind),
        decreases all.len() - i,
    {
        proof {
            assert(all.skip(i as int)[0] == all[i as int]);
        }
        let e = ws[i];
        if e.0 == kind {
            return e.1;
        }
        proof {
            assert(all.skip(i as int).drop_first() =~= all.skip(i + 1));
        }
        i = i + 1;
    }
    proof {
        assert(all.skip(all.len() as int) =~= Seq::<(MetricKind, i64)>::empty());
    }
    0
}

/// Scores the layout: every catalog metric's raw value and weighted
/// contribution, and the weighted total.
pub fn evaluate(
    l: &Layout,
    c: &Corpus,
    g: &Geometry,
    ws: &Vec<(MetricKind, i64)>,
    cat: &Vec<MetricKind>,
) -> (r: MetricBreakdown)
    requires
        c.wf(),
        g.wf(),
        weights_ok(ws@),
        catalog_ok(cat@),
        l.keys@.len() == g.keys@.len(),
    ensures
        r.parts@.len() == cat@.len(),
        forall|i: int| 0 <= i < cat@.len() ==> (#[trigger] r.parts@[i]).0 == cat@[i]
            && r.parts@[i].1 as int == spec_raw(cat@[i], l.keys@, *c, *g)
            && r.parts@[i].2 as int == spec_weighted(cat@[i], l.keys@, *c, *g, ws@),
        r.total as int == spec_total(cat@, l.keys@, *c, *g, ws@),
        -TOTAL_BOUND <= r.total <= TOTAL_BOUND,
{
    let ghost cs = cat@;
    proof {
        assert(cs.take(0) =~= Seq::<MetricKind>::empty());
    }
    let mut parts: Vec<(MetricKind, i64, i64)> = Vec::new();
    let mut acc: i64 = 0;
    let mut i: usize = 0;
    while i < cat.len()
        invariant
            0 <= i <= cs.len(),
            cs == cat@,
            parts@.len() == i,
            forall|j: int| 0 <= j < i ==> (#[trigger] parts@[j]).0 == cs[j]
                && parts@[j].1 as int == spec_raw(cs[j], l.keys@, *c, *g)
                && parts@[j].2 as int == spec_weighted(cs[j], l.keys@, *c, *g, ws@),
            acc as int == spec_total(cs.take(i as int), l.keys@, *c, *g, ws@),
            -(i * WEIGHTED_BOUND) <= acc as int <= i * WEIGHTED_BOUND,
        decreases cs.len() - i,
    {
        let kind = cat[i];
        let raw = raw_metric(kind, l, c, g);
        let w = weight_of(ws, kind);
        proof {
            lemma_weight_bound(ws@, kind);
            assert(-WEIGHTED_BOUND <= w as int * raw as int <= WEIGHTED_BOUND) by (nonlinear_arith)
                requires
                    -MAX_WEIGHT <= w as int <= MAX_WEIGHT,
                    0 <= raw as int <= RAW_BOUND,
            ;
        }
        let wv = w * raw;
        parts.push((kind, raw, wv));
        proof {
            assert(cs.take(i + 1).drop_last() =~= cs.take(i as int));
            assert(cs.take(i + 1).last() == cs[i as int]);
        }
        acc = acc + wv;
        i = i + 1;
    }
    proof {
        assert(cs.take(cs.len() as int) =~= cs);
        lemma_total_bound(cs, l.keys@, *c, *g, ws@);
    }
    MetricBreakdown { total: acc, parts }
}

/// The catalog in its default declaration: every metric the model names.
pub fn default_catalog() -> (r: Vec<MetricKind>)
    ensures
        catalog_ok(r@),
        r@.len() == 8,
        r@[0] == MetricKind::Effort,
        r@[1] == MetricKind::SameFingerBigram,
        r@[2] == MetricKind::LateralStretch,
        r@[3] == MetricKind::InwardRoll,
        r@[4] == MetricKind::OutwardRoll,
        r@[5] == MetricKind::Alternation,
        r@[6] == MetricKind::Redirect,
        r@[7] == MetricKind::OneHandRun,
{
    let r: Vec<MetricKind> = vec![
        MetricKind::Effort,
        MetricKind::SameFingerBigram,
        MetricKind::LateralStretch,
        MetricKind::InwardRoll,
        MetricKind::OutwardRoll,
        MetricKind::Alternation,
        MetricKind::Redirect,
        MetricKind::OneHandRun,
    ];
    r
}

} // verus!
