//! Compiles nested per-locale translation trees into a flat resource table
//! and renders `%{name}`-style templates for a resource path and a locale.
//!
//! The pipeline: parsed trees merge per locale, later sources winning at
//! leaf granularity ([`tree`]); each merged tree flattens into dot-joined
//! paths ([`flatten`]); the flattened entries build the canonical
//! `path -> locale -> template` table ([`table`]); the table crosses the
//! build boundary in a length-prefixed binary form that round-trips
//! exactly ([`codec`]); and one formatting call — its text parsed by
//! [`callsite`] — resolves against the table with locale selection,
//! argument substitution and a sentinel fallback ([`dispatch`]).
//! [`laws`] states and proves the properties that tie the passes together,
//! and [`extract`] computes which message keys still lack a translation.
//!
//! File discovery, YAML parsing and every other I/O concern stay outside:
//! callers hand in parsed trees and plain values and take plain values
//! back.
use vstd::prelude::*;

pub mod callsite;
pub mod codec;
pub mod dispatch;
pub mod extract;
pub mod flatten;
pub mod laws;
pub mod table;
pub mod tree;

verus! {

/// Everything that can go wrong at build time.
///
/// A missing locale at render time is not an error: dispatch degrades to the
/// sentinel string instead.
#[derive(Debug)]
pub enum Error {
    /// The binary artifact is truncated or otherwise corrupt.
    Decode,
    /// A call site names a resource path the table does not know; the known
    /// paths ride along for diagnostics.
    UnknownPath { path: String, known: Vec<String> },
    /// The call-site argument text is malformed; `pos` is the character
    /// position where parsing stopped.
    Parse { pos: usize },
}

/// The locale that dispatch uses when no override is given.
///
/// The surrounding program owns one cell of this type; every formatting
/// call reads it and an explicit setter overwrites it.
pub struct LocaleState {
    current: String,
}

impl View for LocaleState {
    type V = Seq<char>;

    closed spec fn view(&self) -> Seq<char> {
        self.current@
    }
}

impl LocaleState {
    /// A fresh state holds the default locale, `"en"`.
    pub fn new() -> (r: LocaleState)
        ensures
            r@ == "en"@,
    {
        LocaleState { current: String::from_str("en") }
    }

    /// Overwrites the active locale; no validation against any table.
    pub fn set_locale(&mut self, locale: &str)
        ensures
            final(self)@ == locale@,
    {
        self.current = locale.to_owned();
    }

    /// The active locale.
    pub fn locale(&self) -> (r: &str)
        ensures
            r@ == self@,
    {
        self.current.as_str()
    }
}

impl Default for LocaleState {
    fn default() -> (r: LocaleState)
        ensures
            r@ == "en"@,
    {
        LocaleState::new()
    }
}

} // verus!
