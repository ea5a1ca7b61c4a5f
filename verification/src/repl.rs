//! The interactive session coordinator: one active language, its search
//! session, its layout store, and the pinned positions, driven by plain
//! commands. Reading lines and parsing them into commands is the
//! surrounding program's concern; this module holds every decision that
//! follows.

use vstd::prelude::*;

use crate::corpus::CorpusSet;
use crate::errors::Error;
use crate::geometry::Geometry;
use crate::layout::Layout;
use crate::layout::decode_ok;
use crate::metrics::MetricBreakdown;
use crate::metrics::MetricKind;
use crate::metrics::evaluate;
use crate::metrics::spec_total;
use crate::search::Session;
use crate::search::cand_view;
use crate::search::spec_generate;
use crate::search::spec_improve;
use crate::store::LayoutStore;
use crate::store::rank_view;
use crate::store::spec_lookup;
use crate::store::spec_rank;

verus! {

/// One parsed command of the interactive surface.
pub enum Command {
    /// Run `count` generation trials with the seed.
    Generate { count: usize, seed: u64 },
    /// Improve the stored layout of that name, under the pinned
    /// positions.
    Improve { name: Vec<char>, amount: usize, seed: u64 },
    /// Rank every stored layout.
    Rank,
    /// Analyze the candidate at the rank.
    AnalyzeNth { nr: usize },
    /// Analyze the stored layout of that name.
    AnalyzeName { name: Vec<char> },
    /// Compare two stored layouts.
    Compare { first: Vec<char>, second: Vec<char> },
    /// Show the current language, or switch to another one.
    Language { name: Option<Vec<char>> },
    /// Persist the candidate at the rank, optionally under a name.
    Save { nr: usize, name: Option<Vec<char>> },
    /// End the session.
    Quit,
}

/// What a command produces, for the surrounding program to print.
pub enum Reply {
    Candidates(Vec<(Layout, i64)>),
    Ranking(Vec<(Vec<char>, i64)>),
    Analysis(MetricBreakdown),
    Comparison((MetricBreakdown, MetricBreakdown, Vec<(MetricKind, i64)>)),
    Saved(Vec<char>),
    CurrentLanguage(Vec<char>),
    LanguageSet(Vec<char>),
    Quit,
}

/// The state the interactive surface drives: the available corpora, the
/// active language's session, its store, and the pinned positions.
pub struct Repl {
    pub language: Vec<char>,
    pub corpora: CorpusSet,
    pub session: Session,
    pub store: LayoutStore,
    pub pins: Vec<usize>,
}

impl Repl {
    pub open spec fn wf(self) -> bool {
        &&& self.corpora.wf()
        &&& self.session.wf()
        &&& self.store.wf(self.session.corpus.alpha(), self.session.geom.keys@.len() as nat)
    }

    /// Builds the coordinator for a starting language; fails exactly as
    /// session construction does.
    pub fn new(
        language: Vec<char>,
        corpora: CorpusSet,
        geom: Geometry,
        weights: Vec<(MetricKind, i64)>,
        catalog: Vec<MetricKind>,
        pins: Vec<usize>,
    ) -> (r: Result<Repl, Error>)
        requires
            corpora.wf(),
            geom.wf(),
            crate::metrics::weights_ok(weights@),
            crate::metrics::catalog_ok(catalog@),
        ensures
            r is Ok <==> (corpora.spec_find(language@) matches Some(c) && c.alpha().len()
                == geom.keys@.len()),
            r matches Ok(p) ==> p.wf() && p.language@ == language@ && p.pins@ == pins@
                && p.store.entries@.len() == 0 && p.session.candidates is None,
            corpora.spec_find(language@) is None ==> r == Err::<Repl, Error>(
                Error::LanguageNotFound,
            ),
    {
        let session = match Session::new(&language, &corpora, geom, weights, catalog) {
            Ok(s) => s,
            Err(e) => {
                return Err(e);
            },
        };
        Ok(Repl { language, corpora, session, store: LayoutStore::new(), pins })
    }

    /// The candidate at the rank, exactly as `nth` resolves it.
    pub fn get_nth(&self, nr: usize) -> (r: Result<Layout, Error>)
        ensures
            r is Ok <==> self.session.nth_spec(nr) is Ok,
            r matches Ok(l) ==> (self.session.nth_spec(nr) matches Ok(s) && l.keys@ == s.keys@),
            r matches Err(e) ==> self.session.nth_spec(nr) == Err::<Layout, Error>(e),
    {
        self.session.nth(nr)
    }

    /// Performs one command against the session and the store. Every
    /// error is returned to the caller; a failed command changes no
    /// state.
    pub fn respond(&mut self, cmd: Command) -> (r: Result<Reply, Error>)
        requires
            old(self).wf(),
        ensures
            final(self).wf(),
            cmd matches Command::Quit ==> (r matches Ok(p) && p matches Reply::Quit && *final(self) == *old(self)),
            cmd matches Command::Generate { count, seed } ==> (r matches Ok(p) && p matches
                Reply::Candidates(v) && cand_view(v@) == spec_generate(
                old(self).session.corpus,
                old(self).session.geom,
                old(self).session.weights@,
                old(self).session.catalog@,
                count as nat,
                seed,
            )),
            cmd matches Command::Improve { name, amount, seed } ==> ((spec_lookup(
                old(self).store.entries@,
                name@,
            ) is None ==> (r matches Err(e) && e matches Error::NotFound(n) && n@ == name@ && *final(self) == *old(self))) && (spec_lookup(old(self).store.entries@, name@) matches Some(base)
                ==> (r matches Ok(p) && p matches Reply::Candidates(v) && cand_view(v@)
                == spec_improve(
                old(self).session.corpus,
                old(self).session.geom,
                old(self).session.weights@,
                old(self).session.catalog@,
                base.keys@,
                old(self).pins@,
                amount as nat,
                seed,
            )))),
            cmd matches Command::Rank ==> (r matches Ok(p) && p matches Reply::Ranking(v)
                && rank_view(v@) == spec_rank(
                old(self).store.entries@,
                old(self).session.corpus,
                old(self).session.geom,
                old(self).session.weights@,
                old(self).session.catalog@,
            ) && *final(self) == *old(self)),
            cmd matches Command::AnalyzeNth { nr } ==> ((old(self).session.nth_spec(nr) matches Ok(
                l,
            ) ==> (r matches Ok(p) && p matches Reply::Analysis(b) && b.total as int == spec_total(
                old(self).session.catalog@,
                l.keys@,
                old(self).session.corpus,
                old(self).session.geom,
                old(self).session.weights@,
            ))) && (old(self).session.nth_spec(nr) matches Err(e) ==> r == Err::<Reply, Error>(e))
                && *final(self) == *old(self)),
            cmd matches Command::AnalyzeName { name } ==> ((spec_lookup(
                old(self).store.entries@,
                name@,
            ) is None ==> (r matches Err(e) && e matches Error::NotFound(n) && n@ == name@))
                && (spec_lookup(old(self).store.entries@, name@) matches Some(l) ==> (r matches Ok(
                p,
            ) && p matches Reply::Analysis(b) && b.total as int == spec_total(
                old(self).session.catalog@,
                l.keys@,
                old(self).session.corpus,
                old(self).session.geom,
                old(self).session.weights@,
            ))) && *final(self) == *old(self)),
            cmd matches Command::Compare { first, second } ==> (*final(self) == *old(self)
                && (r is Ok <==> (spec_lookup(old(self).store.entries@, first@) is Some
                && spec_lookup(old(self).store.entries@, second@) is Some))),
            cmd matches Command::Save { nr, name } ==> ((old(self).session.nth_spec(nr) matches
                Err(e) ==> (r == Err::<Reply, Error>(e) && *final(self) == *old(self))) && (old(self).session.nth_spec(nr) matches Ok(l) ==> ((r matches Ok(p) ==> (p matches Reply::Saved(
                n,
            ) && spec_lookup(final(self).store.entries@, n@) matches Some(sl) && sl.keys@
                == l.keys@ && (name matches Some(m) ==> n@ == m@))) && (r is Err ==> r == Err::<
                Reply,
                Error,
            >(Error::IoError))))),
            cmd matches Command::Language { name } ==> (name is None ==> (r matches Ok(p)
                && p matches Reply::CurrentLanguage(n) && n@ == old(self).language@ && *final(self) == *old(self))),
            cmd matches Command::Language { name } ==> (name matches Some(n) ==> ((old(self).corpora.spec_find(n@) is None ==> (r == Err::<Reply, Error>(Error::LanguageNotFound)
                && *final(self) == *old(self))) && (r is Ok ==> (final(self).language@ == n@
                && final(self).session.candidates is None
                && final(self).store.entries@.len() == 0)))),
    {
        match cmd {
            Command::Quit => Ok(Reply::Quit),
            Command::Generate { count, seed } => {
                let v = self.session.generate(count, seed);
                Ok(Reply::Candidates(v))
            },
            Command::Improve { name, amount, seed } => {
                match self.store.lookup(&name) {
                    None => Err(Error::NotFound(name)),
                    Some(base) => {
                        proof {
                            crate::store::lemma_lookup_char(self.store.entries@, name@);
                            match spec_lookup(self.store.entries@, name@) {
                                Some(sl) => {
                                    let j = choose|j: int|
                                        0 <= j < self.store.entries@.len() && (
                                        #[trigger] self.store.entries@[j]).0@ == name@
                                            && self.store.entries@[j].1 == sl;
                                },
                                None => {},
                            }
                        }
                        let v = self.session.improve(amount, &base, &self.pins, seed);
                        Ok(Reply::Candidates(v))
                    },
                }
            },
            Command::Rank => {
                let v = self.store.rank(
                    &self.session.corpus,
                    &self.session.geom,
                    &self.session.weights,
                    &self.session.catalog,
                );
                Ok(Reply::Ranking(v))
            },
            Command::AnalyzeNth { nr } => {
                match self.session.nth(nr) {
                    Err(e) => Err(e),
                    Ok(l) => {
                        let b = evaluate(
                            &l,
                            &self.session.corpus,
                            &self.session.geom,
                            &self.session.weights,
                            &self.session.catalog,
                        );
                        Ok(Reply::Analysis(b))
                    },
                }
            },
            Command::AnalyzeName { name } => {
                match self.store.lookup(&name) {
                    None => Err(Error::NotFound(name)),
                    Some(l) => {
                        proof {
                            crate::store::lemma_lookup_char(self.store.entries@, name@);
                            match spec_lookup(self.store.entries@, name@) {
                                Some(sl) => {
                                    let j = choose|j: int|
                                        0 <= j < self.store.entries@.len() && (
                                        #[trigger] self.store.entries@[j]).0@ == name@
                                            && self.store.entries@[j].1 == sl;
                                },
                                None => {},
                            }
                        }
                        let b = evaluate(
                            &l,
                            &self.session.corpus,
                            &self.session.geom,
                            &self.session.weights,
                            &self.session.catalog,
                        );
                        Ok(Reply::Analysis(b))
                    },
                }
            },
            Command::Compare { first, second } => {
                match self.store.compare(
                    &first,
                    &second,
                    &self.session.corpus,
                    &self.session.geom,
                    &self.session.weights,
                    &self.session.catalog,
                ) {
                    Err(e) => Err(e),
                    Ok(t) => Ok(Reply::Comparison(t)),
                }
            },
            Command::Language { name } => {
                match name {
                    None => Ok(Reply::CurrentLanguage(crate::copy_chars(&self.language))),
                    Some(n) => {
                        let weights = copy_weights(&self.session.weights);
                        let catalog = copy_catalog(&self.session.catalog);
                        let geom = self.session.geom.duplicate();
                        match Session::new(&n, &self.corpora, geom, weights, catalog) {
                            Err(e) => Err(e),
                            Ok(s) => {
                                let out = crate::copy_chars(&n);
                                self.language = n;
                                self.session = s;
                                self.store = LayoutStore::new();
                                Ok(Reply::LanguageSet(out))
                            },
                        }
                    },
                }
            },
            Command::Save { nr, name } => {
                match self.session.nth(nr) {
                    Err(e) => Err(e),
                    Ok(l) => {
                        let ghost before = self.store.entries@;
                        let saved = self.store.save(&l, name);
                        match saved {
                            Err(e) => Err(e),
                            Ok(n) => {
                                proof {
                                    assert forall|i: int|
                                        0 <= i < self.store.entries@.len() implies decode_ok(
                                        (#[trigger] self.store.entries@[i]).1.keys@,
                                        self.session.corpus.alpha(),
                                        self.session.geom.keys@.len() as nat,
                                    ) by {
                                        if self.store.entries@[i].1.keys@ != l.keys@ {
                                            let j = choose|j: int|
                                                0 <= j < before.len() && before[j].1.keys@
                                                    == self.store.entries@[i].1.keys@;
                                        }
                                    }
                                }
                                Ok(Reply::Saved(n))
                            },
                        }
                    },
                }
            },
        }
    }
}

/// Element-wise copy of a weight configuration.
fn copy_weights(v: &Vec<(MetricKind, i64)>) -> (r: Vec<(MetricKind, i64)>)
    ensures
        r@ =~= v@,
{
    let mut out: Vec<(MetricKind, i64)> = Vec::new();
    let mut i: usize = 0;
    while i < v.len()
        invariant
            0 <= i <= v@.len(),
            out@ =~= v@.take(i as int),
        decreases v@.len() - i,
    {
        out.push(v[i]);
        i = i + 1;
    }
    out
}

/// Element-wise copy of a metric catalog.
fn copy_catalog(v: &Vec<MetricKind>) -> (r: Vec<MetricKind>)
    ensures
        r@ =~= v@,
{
    let mut out: Vec<MetricKind> = Vec::new();
    let mut i: usize = 0;
    while i < v.len()
        invariant
            0 <= i <= v@.len(),
            out@ =~= v@.take(i as int),
        decreases v@.len() - i,
    {
        out.push(v[i]);
        i = i + 1;
    }
    out
}

} // verus!
