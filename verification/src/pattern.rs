//! Regular expressions, as the `regex` crate provides them.
//!
//! Every pattern is compiled in multi-line mode, so that `^` and `$` also match
//! at the line breaks inside the text.

use vstd::prelude::*;
use vstd::utf8::{encode_utf8, is_char_boundary};

use regex::Error as RegexError;
use regex::{Regex, RegexBuilder};

verus! {

// ---------------------------------------------------------------------------
// What the `regex` crate provides
// ---------------------------------------------------------------------------

/// A compiled regular expression of the `regex` crate.
#[verifier::external_type_specification]
#[verifier::external_body]
pub struct ExRegex(Regex);

/// What `RegexBuilder::build` makes of a pattern in multi-line mode, with or
/// without regard to case: a compiled expression, or the reason why there is
/// none.
pub uninterp spec fn regex_build(
    pattern: Seq<char>,
    case_insensitive: bool,
) -> core::result::Result<Regex, RegexError>;

/// Whether `Regex::is_match` finds the pattern, compiled as [`regex_build`]
/// says, anywhere in the text.
pub uninterp spec fn regex_finds(
    pattern: Seq<char>,
    case_insensitive: bool,
    text: Seq<char>,
) -> bool;

/// The matches that `Regex::captures_iter` walks through in the text, for the
/// pattern compiled as [`regex_build`] says. A match is the list of its capture
/// groups, each with the byte offsets of where it starts and ends, or without
/// where the group took no part in the match. Group 0 is the whole match.
pub uninterp spec fn regex_spans(
    pattern: Seq<char>,
    case_insensitive: bool,
    text: Seq<char>,
) -> Seq<Seq<Option<(usize, usize)>>>;

/// `RegexBuilder::new`, `case_insensitive`, `multi_line` and `build` together:
/// the outcome depends on the pattern and on the flag alone.
#[verifier::external_body]
fn build_regex(pattern: &str, case_insensitive: bool) -> (r: core::result::Result<
    Regex,
    RegexError,
>)
    ensures
        r == regex_build(pattern@, case_insensitive),
{
    RegexBuilder::new(pattern).case_insensitive(case_insensitive).multi_line(true).build()
}

/// `Regex::is_match` on an expression that was built from `source`: the answer
/// depends on how it was built and on the text alone.
#[verifier::external_body]
fn regex_is_match(pattern: &Pattern, text: &str) -> (r: bool)
    requires
        pattern.built(),
    ensures
        r == regex_finds(pattern@.source, pattern@.case_insensitive, text@),
{
    pattern.compiled.is_match(text)
}

/// `Regex::captures_iter` with `Captures::iter`, `Match::start` and
/// `Match::end` on an expression that was built from `source`: the matches
/// depend on how it was built and on the text alone. There is one if and only
/// if `is_match` says so. Group 0 takes part in each of them, every offset is a
/// character boundary of the text, no group ends before it starts, and no match
/// starts before the one in front of it ends.
#[verifier::external_body]
fn regex_captures(pattern: &Pattern, text: &str) -> (r: Vec<Vec<Option<(usize, usize)>>>)
    requires
        pattern.built(),
    ensures
        span_lists(r@) == regex_spans(pattern@.source, pattern@.case_insensitive, text@),
        r@.len() > 0 <==> regex_finds(pattern@.source, pattern@.case_insensitive, text@),
        spans_fit(span_lists(r@), text@),
{
    let group = |m: Option<regex::Match>| m.map(|m| (m.start(), m.end()));
    pattern.compiled.captures_iter(text).map(|c| c.iter().map(group).collect()).collect()
}

/// The matches as sequences.
pub open spec fn span_lists(matches: Seq<Vec<Option<(usize, usize)>>>) -> Seq<
    Seq<Option<(usize, usize)>>,
> {
    matches.map_values(|m: Vec<Option<(usize, usize)>>| m@)
}

/// Whether `span` lies in the text and cuts no character apart.
pub open spec fn span_fits(span: (usize, usize), text: Seq<char>) -> bool {
    &&& span.0 <= span.1 <= encode_utf8(text).len()
    &&& is_char_boundary(encode_utf8(text), span.0 as int)
    &&& is_char_boundary(encode_utf8(text), span.1 as int)
}

/// Whether the groups of one match fit the text.
pub open spec fn match_fits(groups: Seq<Option<(usize, usize)>>, text: Seq<char>) -> bool {
    &&& groups.len() > 0
    &&& groups[0] is Some
    &&& forall|g: int|
        0 <= g < groups.len() ==> ((#[trigger] groups[g]) matches Some(span) ==> span_fits(
            span,
            text,
        ))
}

/// Whether `matches` are matches in the text, one after the other.
pub open spec fn spans_fit(matches: Seq<Seq<Option<(usize, usize)>>>, text: Seq<char>) -> bool {
    &&& forall|k: int| 0 <= k < matches.len() ==> match_fits(#[trigger] matches[k], text)
    &&& forall|j: int, k: int|
        0 <= j < k < matches.len() ==> whole(#[trigger] matches[j]).1 <= whole(
            #[trigger] matches[k],
        ).0
}

/// Where a match starts and ends.
pub open spec fn whole(groups: Seq<Option<(usize, usize)>>) -> (usize, usize) {
    groups[0]->Some_0
}

// ---------------------------------------------------------------------------
// Patterns
// ---------------------------------------------------------------------------

/// A pattern and how it is matched.
pub struct PatternModel {
    pub source: Seq<char>,
    pub case_insensitive: bool,
}

/// A pattern that was compiled.
pub struct Pattern {
    source: String,
    case_insensitive: bool,
    compiled: Regex,
}

impl View for Pattern {
    type V = PatternModel;

    closed spec fn view(&self) -> PatternModel {
        PatternModel { source: self.source@, case_insensitive: self.case_insensitive }
    }
}

impl PatternModel {
    /// What compiling the pattern gives.
    pub open spec fn build(self) -> core::result::Result<Regex, RegexError> {
        regex_build(self.source, self.case_insensitive)
    }

    /// Whether the pattern occurs in the text.
    pub open spec fn finds(self, text: Seq<char>) -> bool {
        regex_finds(self.source, self.case_insensitive, text)
    }

    /// The matches of the pattern in the text.
    pub open spec fn spans(self, text: Seq<char>) -> Seq<Seq<Option<(usize, usize)>>> {
        regex_spans(self.source, self.case_insensitive, text)
    }
}

impl Pattern {
    /// The compiled expression is that of the source.
    #[verifier::type_invariant]
    spec fn built(self) -> bool {
        regex_build(self.source@, self.case_insensitive) == Ok::<Regex, RegexError>(self.compiled)
    }

    /// Compile a pattern.
    pub fn new(source: &str, case_insensitive: bool) -> (r: core::result::Result<
        Pattern,
        RegexError,
    >)
        ensures
            match r {
                Ok(pattern) => {
                    &&& pattern@ == (PatternModel { source: source@, case_insensitive })
                    &&& pattern@.build() is Ok
                },
                Err(e) => (PatternModel { source: source@, case_insensitive }).build() == Err::<
                    Regex,
                    RegexError,
                >(e),
            },
    {
        match build_regex(source, case_insensitive) {
            Ok(compiled) => Ok(Pattern { source: source.to_string(), case_insensitive, compiled }),
            Err(e) => Err(e),
        }
    }

    /// Whether the pattern occurs in the text.
    pub fn is_match(&self, text: &str) -> (r: bool)
        ensures
            r == self@.finds(text@),
    {
        proof {
            use_type_invariant(self);
        }
        regex_is_match(self, text)
    }

    /// The matches of the pattern in the text.
    pub fn captures(&self, text: &str) -> (r: Vec<Vec<Option<(usize, usize)>>>)
        ensures
            span_lists(r@) == self@.spans(text@),
            r@.len() > 0 <==> self@.finds(text@),
            spans_fit(span_lists(r@), text@),
    {
        proof {
            use_type_invariant(self);
        }
        regex_captures(self, text)
    }
}

} // verus!
