//! The error taxonomy of the engine.

use vstd::prelude::*;

verus! {

/// Every failure the engine reports to its caller. The engine never panics
/// and never leaves a session or store partially updated after an error.
#[derive(Debug, Clone, PartialEq, Eq)]
pub enum Error {
    /// No corpus data exists for the requested language.
    LanguageNotFound,
    /// Malformed layout text or malformed corpus tables.
    ParseError,
    /// A candidate was requested before any generation ran in this session.
    NoCandidatesYet,
    /// A candidate index at or past the end of the candidate list.
    IndexOutOfRange,
    /// A store lookup by name failed; carries the missing name.
    NotFound(Vec<char>),
    /// A persistence failure of the layout store.
    IoError,
}

impl Error {
    /// A short descriptive form of the error, naming the missing resource.
    pub fn describe(&self) -> (r: Vec<char>)
        ensures
            self is LanguageNotFound ==> r@ =~= seq!['n', 'o', ' ', 'c', 'o', 'r', 'p', 'u', 's'],
            self is ParseError ==> r@ =~= seq!['b', 'a', 'd', ' ', 't', 'e', 'x', 't'],
            self is NoCandidatesYet ==> r@ =~= seq![
                'n',
                'o',
                't',
                'h',
                'i',
                'n',
                'g',
                ' ',
                'y',
                'e',
                't',
            ],
            self is IndexOutOfRange ==> r@ =~= seq!['b', 'a', 'd', ' ', 'i', 'n', 'd', 'e', 'x'],
            self matches Error::NotFound(n) ==> r@ =~= n@,
            self is IoError ==> r@ =~= seq!['i', 'o', ' ', 'f', 'a', 'i', 'l', 'u', 'r', 'e'],
    {
        match self {
            Error::LanguageNotFound => {
                let v: Vec<char> = vec!['n', 'o', ' ', 'c', 'o', 'r', 'p', 'u', 's'];
                v
            },
            Error::ParseError => {
                let v: Vec<char> = vec!['b', 'a', 'd', ' ', 't', 'e', 'x', 't'];
                v
            },
            Error::NoCandidatesYet => {
                let v: Vec<char> = vec!['n', 'o', 't', 'h', 'i', 'n', 'g', ' ', 'y', 'e', 't'];
                v
            },
            Error::IndexOutOfRange => {
                let v: Vec<char> = vec!['b', 'a', 'd', ' ', 'i', 'n', 'd', 'e', 'x'];
                v
            },
            Error::NotFound(name) => name.clone(),
            Error::IoError => {
                let v: Vec<char> = vec!['i', 'o', ' ', 'f', 'a', 'i', 'l', 'u', 'r', 'e'];
                v
            },
        }
    }
}

} // verus!
