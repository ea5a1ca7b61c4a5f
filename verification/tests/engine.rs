use anlyzer::SCALE;
use anlyzer::corpus::Corpus;
use anlyzer::corpus::CorpusSet;
use anlyzer::errors::Error;
use anlyzer::geometry::Geometry;
use anlyzer::geometry::KeyPos;
use anlyzer::layout::Layout;
use anlyzer::metrics::MetricKind;
use anlyzer::metrics::default_catalog;
use anlyzer::metrics::evaluate;
use anlyzer::repl::Command;
use anlyzer::repl::Repl;
use anlyzer::repl::Reply;
use anlyzer::search::Session;
use anlyzer::store::LayoutStore;

fn key(hand: u8, finger: u8, row: u8, col: u8, effort: u64) -> KeyPos {
    KeyPos { hand, finger, row, col, effort }
}

/// Four slots: positions 0 and 1 on the left index finger, positions 2
/// and 3 on the right hand on different fingers.
fn small_geometry() -> Geometry {
    Geometry::new(vec![
        key(0, 1, 0, 3, 10),
        key(0, 1, 1, 3, 20),
        key(1, 2, 0, 6, 30),
        key(1, 3, 0, 8, 40),
    ])
    .unwrap()
}

/// Alphabet t, h, x, y with exact fixed-point proportions.
fn small_corpus() -> Corpus {
    Corpus::new(
        vec![('t', 300_000), ('h', 300_000), ('x', 300_000), ('y', 100_000)],
        vec![(('t', 'h'), 15_000), (('x', 'x'), 985_000)],
        vec![(('x', 'x', 'x'), 1_000_000)],
    )
    .unwrap()
}

fn chars(s: &str) -> Vec<char> {
    s.chars().collect()
}

fn small_weights() -> Vec<(MetricKind, i64)> {
    vec![
        (MetricKind::Effort, -1),
        (MetricKind::SameFingerBigram, 3),
        (MetricKind::Alternation, 2),
    ]
}

fn small_session() -> Session {
    let mut corpora = CorpusSet { entries: Vec::new() };
    corpora.entries.push((chars("english"), small_corpus()));
    Session::new(&chars("english"), &corpora, small_geometry(), small_weights(), default_catalog())
        .unwrap()
}

#[test]
fn decode_round_trip() {
    let alpha = chars("thxy");
    let l = Layout::decode(&chars("hytx"), &alpha, 4).unwrap();
    let text = l.encode();
    let again = Layout::decode(&text, &alpha, 4).unwrap();
    assert_eq!(l, again);
    assert_eq!(text, chars("hytx"));
}

#[test]
fn decode_length_mismatch_fails() {
    // A 26-character alphabet with a 30-slot position set: a 26-character
    // text must fail on length, not be padded.
    let alpha: Vec<char> = "abcdefghijklmnopqrstuvwxyz".chars().collect();
    let r = Layout::decode(&alpha, &alpha, 30);
    assert_eq!(r, Err(Error::ParseError));
}

#[test]
fn decode_rejects_duplicates_and_strangers() {
    let alpha = chars("thxy");
    assert_eq!(Layout::decode(&chars("ttxy"), &alpha, 4), Err(Error::ParseError));
    assert_eq!(Layout::decode(&chars("thxz"), &alpha, 4), Err(Error::ParseError));
}

#[test]
fn corpus_rejects_unnormalized_tables() {
    let r = Corpus::new(
        vec![('a', 100_000)],
        vec![(('a', 'a'), 1_000_000)],
        vec![(('a', 'a', 'a'), 1_000_000)],
    );
    assert_eq!(r, Err(Error::ParseError));
}

#[test]
fn corpus_rejects_duplicate_keys() {
    let r = Corpus::new(
        vec![('a', 500_000), ('a', 500_000)],
        vec![(('a', 'a'), 1_000_000)],
        vec![(('a', 'a', 'a'), 1_000_000)],
    );
    assert_eq!(r, Err(Error::ParseError));
}

#[test]
fn geometry_rejects_bad_keys() {
    assert!(Geometry::new(vec![key(2, 0, 0, 0, 1)]).is_err());
    assert!(Geometry::new(Vec::new()).is_err());
}

#[test]
fn same_finger_bigram_scenario() {
    // "t" and "h" sit on the same finger; the same-finger metric must
    // pick up exactly the 0.015 bigram, and its weighted contribution is
    // 0.015 * SCALE * weight[same_finger_bigram].
    let c = small_corpus();
    let g = small_geometry();
    let ws = small_weights();
    let cat = default_catalog();
    let l = Layout::decode(&chars("thxy"), &c.alphabet(), 4).unwrap();
    let b = evaluate(&l, &c, &g, &ws, &cat);
    let sfb = b.parts.iter().find(|p| p.0 == MetricKind::SameFingerBigram).unwrap();
    assert_eq!(sfb.1, 15_000);
    assert_eq!(sfb.2, 45_000);
    assert!(sfb.2 != 0);
}

#[test]
fn effort_metric_exact_value() {
    let c = small_corpus();
    let g = small_geometry();
    let ws = small_weights();
    let cat = default_catalog();
    let l = Layout::decode(&chars("thxy"), &c.alphabet(), 4).unwrap();
    let b = evaluate(&l, &c, &g, &ws, &cat);
    let eff = b.parts.iter().find(|p| p.0 == MetricKind::Effort).unwrap();
    // t: 0.3 * 10, h: 0.3 * 20, x: 0.3 * 30, y: 0.1 * 40 in fixed point.
    let expect = 300_000i64 * 10 + 300_000 * 20 + 300_000 * 30 + 100_000 * 40;
    assert_eq!(eff.1, expect);
    assert_eq!(eff.2, -expect);
}

#[test]
fn scale_is_the_fixed_point_unit() {
    assert_eq!(SCALE, 1_000_000);
}

#[test]
fn generate_empty_trials() {
    let mut s = small_session();
    let r = s.generate(0, 7);
    assert!(r.is_empty());
    let seedl = Layout::decode(&chars("thxy"), &small_corpus().alphabet(), 4).unwrap();
    let r2 = s.improve(0, &seedl, &vec![0], 7);
    assert!(r2.is_empty());
}

#[test]
fn generate_is_deterministic() {
    let mut s1 = small_session();
    let mut s2 = small_session();
    let a = s1.generate(6, 123);
    let b = s2.generate(6, 123);
    assert_eq!(a.len(), b.len());
    for i in 0..a.len() {
        assert_eq!(a[i].0, b[i].0);
        assert_eq!(a[i].1, b[i].1);
    }
    // A different seed is allowed to differ; a repeated run of the same
    // session must again match.
    let c = s1.generate(6, 123);
    for i in 0..a.len() {
        assert_eq!(a[i].0, c[i].0);
    }
}

#[test]
fn generate_sorted_and_bounded() {
    let mut s = small_session();
    let r = s.generate(15, 99);
    assert!(r.len() <= 10);
    assert!(r.len() <= 15);
    for i in 1..r.len() {
        assert!(r[i - 1].1 >= r[i].1);
    }
    let few = s.generate(3, 99);
    assert!(few.len() <= 3);
}

#[test]
fn improve_respects_pins() {
    let mut s = small_session();
    let seedl = Layout::decode(&chars("thxy"), &small_corpus().alphabet(), 4).unwrap();
    let pins = vec![0usize, 2usize];
    let r = s.improve(8, &seedl, &pins, 4242);
    assert!(!r.is_empty());
    for (cand, _score) in r.iter() {
        assert_eq!(cand.char_at(0), 't');
        assert_eq!(cand.char_at(2), 'x');
    }
}

#[test]
fn nth_error_cases() {
    let s = small_session();
    assert_eq!(s.nth(0), Err(Error::NoCandidatesYet));
    let mut s2 = small_session();
    s2.generate(2, 5);
    assert_eq!(s2.nth(3), Err(Error::IndexOutOfRange));
    assert!(s2.nth(0).is_ok());
    assert!(s2.nth(1).is_ok());
}

#[test]
fn session_unknown_language() {
    let mut corpora = CorpusSet { entries: Vec::new() };
    corpora.entries.push((chars("english"), small_corpus()));
    let r = Session::new(
        &chars("klingon"),
        &corpora,
        small_geometry(),
        small_weights(),
        default_catalog(),
    );
    assert!(matches!(r, Err(Error::LanguageNotFound)));
}

#[test]
fn store_save_lookup_overwrite() {
    let c = small_corpus();
    let alpha = c.alphabet();
    let l1 = Layout::decode(&chars("thxy"), &alpha, 4).unwrap();
    let l2 = Layout::decode(&chars("yxht"), &alpha, 4).unwrap();
    let mut st = LayoutStore::new();
    let n = st.save(&l1, Some(chars("x"))).unwrap();
    assert_eq!(n, chars("x"));
    assert_eq!(st.lookup(&chars("x")).unwrap(), l1);
    // Overwrite under the same name: the lookup reflects only the latest.
    st.save(&l2, Some(chars("x"))).unwrap();
    assert_eq!(st.lookup(&chars("x")).unwrap(), l2);
    assert_eq!(st.entries.len(), 1);
    assert_eq!(st.lookup(&chars("missing")), None);
}

#[test]
fn store_synthetic_names_are_fresh() {
    let c = small_corpus();
    let alpha = c.alphabet();
    let l = Layout::decode(&chars("thxy"), &alpha, 4).unwrap();
    let mut st = LayoutStore::new();
    let n0 = st.save(&l, None).unwrap();
    assert_eq!(n0, chars("0"));
    let n1 = st.save(&l, None).unwrap();
    assert_eq!(n1, chars("1"));
    // A user-taken counter name is skipped, not overwritten.
    st.save(&l, Some(chars("2"))).unwrap();
    let n3 = st.save(&l, None).unwrap();
    assert_eq!(n3, chars("3"));
    assert_eq!(st.entries.len(), 4);
}

#[test]
fn rank_reflects_latest_and_orders() {
    let c = small_corpus();
    let g = small_geometry();
    let ws = small_weights();
    let cat = default_catalog();
    let alpha = c.alphabet();
    let l1 = Layout::decode(&chars("thxy"), &alpha, 4).unwrap();
    let l2 = Layout::decode(&chars("htxy"), &alpha, 4).unwrap();
    let mut st = LayoutStore::new();
    assert!(st.rank(&c, &g, &ws, &cat).is_empty());
    st.save(&l1, Some(chars("a"))).unwrap();
    st.save(&l2, Some(chars("b"))).unwrap();
    st.save(&l2, Some(chars("a"))).unwrap();
    let ranking = st.rank(&c, &g, &ws, &cat);
    assert_eq!(ranking.len(), 2);
    let score2 = evaluate(&l2, &c, &g, &ws, &cat).total;
    for (_name, sc) in ranking.iter() {
        assert_eq!(*sc, score2);
    }
    // Equal scores: names ascending.
    assert_eq!(ranking[0].0, chars("a"));
    assert_eq!(ranking[1].0, chars("b"));
    for i in 1..ranking.len() {
        assert!(ranking[i - 1].1 >= ranking[i].1);
    }
}

#[test]
fn compare_delta_is_antisymmetric() {
    let c = small_corpus();
    let g = small_geometry();
    let ws = small_weights();
    let cat = default_catalog();
    let alpha = c.alphabet();
    let l1 = Layout::decode(&chars("thxy"), &alpha, 4).unwrap();
    let l2 = Layout::decode(&chars("yxht"), &alpha, 4).unwrap();
    let mut st = LayoutStore::new();
    st.save(&l1, Some(chars("a"))).unwrap();
    st.save(&l2, Some(chars("b"))).unwrap();
    let (_ba, _bb, dab) = st.compare(&chars("a"), &chars("b"), &c, &g, &ws, &cat).unwrap();
    let (_bc, _bd, dba) = st.compare(&chars("b"), &chars("a"), &c, &g, &ws, &cat).unwrap();
    assert_eq!(dab.len(), dba.len());
    for i in 0..dab.len() {
        assert_eq!(dab[i].0, dba[i].0);
        assert_eq!(dab[i].1, -dba[i].1);
    }
}

#[test]
fn compare_names_the_missing_layout() {
    let c = small_corpus();
    let g = small_geometry();
    let ws = small_weights();
    let cat = default_catalog();
    let alpha = c.alphabet();
    let l1 = Layout::decode(&chars("thxy"), &alpha, 4).unwrap();
    let mut st = LayoutStore::new();
    st.save(&l1, Some(chars("a"))).unwrap();
    match st.compare(&chars("ghost"), &chars("a"), &c, &g, &ws, &cat) {
        Err(Error::NotFound(n)) => assert_eq!(n, chars("ghost")),
        other => panic!("unexpected: {:?}", other),
    }
    match st.compare(&chars("a"), &chars("phantom"), &c, &g, &ws, &cat) {
        Err(Error::NotFound(n)) => assert_eq!(n, chars("phantom")),
        other => panic!("unexpected: {:?}", other),
    }
}

fn small_repl() -> Repl {
    let mut corpora = CorpusSet { entries: Vec::new() };
    corpora.entries.push((chars("english"), small_corpus()));
    Repl::new(
        chars("english"),
        corpora,
        small_geometry(),
        small_weights(),
        default_catalog(),
        vec![0usize],
    )
    .unwrap()
}

#[test]
fn repl_generate_save_and_analyze() {
    let mut r = small_repl();
    let reply = r.respond(Command::Generate { count: 3, seed: 11 }).unwrap();
    match reply {
        Reply::Candidates(v) => assert!(!v.is_empty()),
        other => panic!("unexpected: {:?}", std::mem::discriminant(&other)),
    }
    let saved = r.respond(Command::Save { nr: 0, name: Some(chars("best")) }).unwrap();
    match saved {
        Reply::Saved(n) => assert_eq!(n, chars("best")),
        _ => panic!("expected a saved name"),
    }
    assert!(r.respond(Command::AnalyzeName { name: chars("best") }).is_ok());
    assert!(r.respond(Command::AnalyzeNth { nr: 0 }).is_ok());
    assert!(matches!(
        r.respond(Command::AnalyzeNth { nr: 9 }),
        Err(Error::IndexOutOfRange)
    ));
    assert!(matches!(
        r.respond(Command::Improve { name: chars("best"), amount: 2, seed: 3 }),
        Ok(Reply::Candidates(_))
    ));
    assert!(matches!(
        r.respond(Command::Improve { name: chars("nope"), amount: 2, seed: 3 }),
        Err(Error::NotFound(_))
    ));
    assert!(matches!(r.respond(Command::Rank), Ok(Reply::Ranking(_))));
    assert!(matches!(r.respond(Command::Quit), Ok(Reply::Quit)));
}

#[test]
fn repl_language_switch() {
    let mut r = small_repl();
    match r.respond(Command::Language { name: None }).unwrap() {
        Reply::CurrentLanguage(n) => assert_eq!(n, chars("english")),
        _ => panic!("expected the current language"),
    }
    assert!(matches!(
        r.respond(Command::Language { name: Some(chars("klingon")) }),
        Err(Error::LanguageNotFound)
    ));
    // The failed switch left the session intact.
    match r.respond(Command::Language { name: None }).unwrap() {
        Reply::CurrentLanguage(n) => assert_eq!(n, chars("english")),
        _ => panic!("expected the current language"),
    }
    match r.respond(Command::Language { name: Some(chars("english")) }).unwrap() {
        Reply::LanguageSet(n) => assert_eq!(n, chars("english")),
        _ => panic!("expected the language to be set"),
    }
    // A language change clears the transient candidates.
    assert!(matches!(
        r.respond(Command::AnalyzeNth { nr: 0 }),
        Err(Error::NoCandidatesYet)
    ));
}

#[test]
fn repl_compare_between_saved_layouts() {
    let mut r = small_repl();
    r.respond(Command::Generate { count: 2, seed: 8 }).unwrap();
    r.respond(Command::Save { nr: 0, name: Some(chars("a")) }).unwrap();
    r.respond(Command::Save { nr: 1, name: Some(chars("b")) }).unwrap();
    match r.respond(Command::Compare { first: chars("a"), second: chars("b") }).unwrap() {
        Reply::Comparison((_ba, _bb, delta)) => assert!(!delta.is_empty()),
        _ => panic!("expected a comparison"),
    }
    assert!(matches!(
        r.respond(Command::Compare { first: chars("a"), second: chars("ghost") }),
        Err(Error::NotFound(_))
    ));
}

#[test]
fn error_descriptions_name_the_resource() {
    let e = Error::NotFound(chars("dvorak"));
    assert_eq!(e.describe(), chars("dvorak"));
}
