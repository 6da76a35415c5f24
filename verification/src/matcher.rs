//! Which lines are reported, and where in a line the query sits.
//!
//! A query is found in a line where its characters stand in the line one after
//! the other. Without case sensitivity both are compared character by
//! character in lower case; a character whose lower case is more than one
//! character is compared as it is. The place of a match is given in bytes of
//! the line as it was read, never of a lower-cased copy.

use vstd::prelude::*;
use vstd::utf8::encode_utf8;
use crate::config::Config;
use crate::text::{
    byte_len, chars_of, cuts, first_index, is_first, lemma_chars_within_bytes, lemma_encode_parts,
    lemma_first_index, lemma_occurs_in_bytes, lemma_slice_between, occurs, occurs_at, offset,
    slice, width_between,
};

verus! {

/// Where the query was found in a line.
#[derive(Clone, Copy, Debug, PartialEq, Eq, Structural)]
pub enum MatchResult {
    /// The line does not hold the query.
    NoMatch,
    /// The line holds the query in its bytes from `start` up to `end`.
    Span { start: usize, end: usize },
}

/// What becomes of a line.
#[derive(Clone, Copy, Debug, PartialEq, Eq, Structural)]
pub enum Decision {
    /// The line is written out.
    Report(MatchResult),
    /// The line is passed over.
    Skip,
}

/// The characters that `char::to_lowercase` yields for a character.
pub uninterp spec fn lowercase_of(c: char) -> Seq<char>;

/// Calls `char::to_lowercase` of the standard library and collects the
/// characters that it yields. The standard library maps each character by
/// the tables of Unicode alone, whatever the language and whatever stands
/// around the character. Nothing is claimed of the characters but that they
/// are the same for the same character.
#[verifier::external_body]
fn lowercase_chars(c: char) -> (r: Vec<char>)
    ensures
        r@ == lowercase_of(c),
{
    c.to_lowercase().collect()
}

/// The one character of `mapped`, or `c` where `mapped` holds none or
/// several.
pub open spec fn single_or(c: char, mapped: Seq<char>) -> char {
    if mapped.len() == 1 {
        mapped[0]
    } else {
        c
    }
}

/// The lower case of a character, where that is one character; else the
/// character itself.
pub open spec fn lower(c: char) -> char {
    single_or(c, lowercase_of(c))
}

/// A character as it is compared.
pub open spec fn fold(c: char, case_sensitive: bool) -> char {
    if case_sensitive {
        c
    } else {
        lower(c)
    }
}

/// A text as it is compared.
pub open spec fn folded(s: Seq<char>, case_sensitive: bool) -> Seq<char> {
    s.map_values(|c: char| fold(c, case_sensitive))
}

/// Where `needle`, which is compared as it stands, is first found in `line`:
/// the bytes of `line` that hold the characters which match it.
pub open spec fn span_of(line: Seq<char>, needle: Seq<char>, case_sensitive: bool) -> MatchResult {
    let hay = folded(line, case_sensitive);
    if occurs(hay, needle) {
        let i = first_index(hay, needle);
        MatchResult::Span {
            start: offset(line, i) as usize,
            end: offset(line, i + needle.len()) as usize,
        }
    } else {
        MatchResult::NoMatch
    }
}

/// Whether a place lies within a line and splits no character of it.
pub open spec fn fits(line: Seq<char>, found: MatchResult) -> bool {
    found matches MatchResult::Span { start, end } ==> cuts(line, start as int, end as int)
}

/// Where `query` is first found in `line`.
pub open spec fn located(line: Seq<char>, query: Seq<char>, case_sensitive: bool) -> MatchResult {
    span_of(line, folded(query, case_sensitive), case_sensitive)
}

/// What becomes of a line in which the query was or was not found.
pub open spec fn decided(found: MatchResult, invert: bool) -> Decision {
    match found {
        MatchResult::Span { .. } => if invert {
            Decision::Skip
        } else {
            Decision::Report(found)
        },
        MatchResult::NoMatch => if invert {
            Decision::Report(MatchResult::NoMatch)
        } else {
            Decision::Skip
        },
    }
}

/// What becomes of `line` when `query` is searched for.
pub open spec fn decision(
    line: Seq<char>,
    query: Seq<char>,
    case_sensitive: bool,
    invert: bool,
) -> Decision {
    decided(located(line, query, case_sensitive), invert)
}

/// Without inversion a line is reported exactly if the bytes of the query
/// stand somewhere in the bytes of the line, both taken as they are compared.
pub proof fn lemma_reported_iff_bytes_occur(
    line: Seq<char>,
    query: Seq<char>,
    case_sensitive: bool,
)
    ensures
        decision(line, query, case_sensitive, false) is Report <==> occurs(
            encode_utf8(folded(line, case_sensitive)),
            encode_utf8(folded(query, case_sensitive)),
        ),
{
    lemma_occurs_in_bytes(folded(line, case_sensitive), folded(query, case_sensitive));
}

/// Of the search and the inverted search for the same query, exactly one
/// reports a given line.
pub proof fn lemma_invert_is_complement(line: Seq<char>, query: Seq<char>, case_sensitive: bool)
    ensures
        decision(line, query, case_sensitive, false) is Report != decision(
            line,
            query,
            case_sensitive,
            true,
        ) is Report,
{
}

/// An inverted search reports a line without a place in it.
pub proof fn lemma_inverted_report_has_no_span(
    line: Seq<char>,
    query: Seq<char>,
    case_sensitive: bool,
)
    ensures
        decision(line, query, case_sensitive, true) matches Decision::Report(found)
            ==> found is NoMatch,
{
}

/// The place of a match lies within the line, splits no character, and the
/// text at that place is the query as far as the search compares them: the
/// query itself where case matters, the query up to case where it does not.
pub proof fn lemma_span_holds_query(
    line: Seq<char>,
    query: Seq<char>,
    case_sensitive: bool,
    invert: bool,
)
    requires
        byte_len(line) <= usize::MAX,
    ensures
        decision(line, query, case_sensitive, invert) matches Decision::Report(
            MatchResult::Span { start, end },
        ) ==> {
            &&& 0 <= start <= end <= byte_len(line)
            &&& cuts(line, start as int, end as int)
            &&& folded(slice(line, start as int, end as int), case_sensitive) == folded(
                query,
                case_sensitive,
            )
            &&& case_sensitive ==> slice(line, start as int, end as int) == query
        },
{
    let hay = folded(line, case_sensitive);
    let needle = folded(query, case_sensitive);
    if occurs(hay, needle) {
        lemma_first_index(hay, needle);
        let i = first_index(hay, needle);
        let j = i + needle.len();
        lemma_encode_parts(line, i, j);
        lemma_slice_between(line, i, j);
        assert(folded(line.subrange(i, j), case_sensitive) =~= hay.subrange(i, j));
        if case_sensitive {
            assert(folded(line.subrange(i, j), true) =~= line.subrange(i, j));
            assert(folded(query, true) =~= query);
        }
    }
}

/// Chooses the lower case of `c` from what the standard library gave for it.
pub fn pick_single(c: char, mapped: &[char]) -> (r: char)
    ensures
        r == single_or(c, mapped@),
{
    if mapped.len() == 1 {
        mapped[0]
    } else {
        c
    }
}

/// A character as it is compared.
pub fn fold_char(c: char, case_sensitive: bool) -> (r: char)
    ensures
        r == fold(c, case_sensitive),
{
    if case_sensitive {
        c
    } else {
        let mapped = lowercase_chars(c);
        pick_single(c, mapped.as_slice())
    }
}

/// The characters of a text as they are compared.
pub fn fold_chars(chars: &[char], case_sensitive: bool) -> (r: Vec<char>)
    ensures
        r@ == folded(chars@, case_sensitive),
{
    let mut out: Vec<char> = Vec::new();
    let mut i: usize = 0;
    while i < chars.len()
        invariant
            i <= chars.len(),
            out@ == folded(chars@, case_sensitive).take(i as int),
        decreases chars.len() - i,
    {
        out.push(fold_char(chars[i], case_sensitive));
        assert(out@ =~= folded(chars@, case_sensitive).take(i + 1));
        i += 1;
    }
    assert(out@ =~= folded(chars@, case_sensitive));
    out
}

/// Whether `needle` stands in `hay` from index `i` on.
fn stands_at(hay: &[char], needle: &[char], i: usize) -> (r: bool)
    requires
        i + needle@.len() <= hay@.len(),
    ensures
        r == occurs_at(hay@, needle@, i as int),
{
    let size = hay.len();
    let mut k: usize = 0;
    while k < needle.len()
        invariant
            k <= needle@.len(),
            i + needle@.len() <= hay@.len(),
            hay@.len() == size,
            forall|j: int| 0 <= j < k ==> hay@[i + j] == needle@[j],
        decreases needle.len() - k,
    {
        if hay[i + k] != needle[k] {
            assert(hay@.subrange(i as int, i + needle@.len())[k as int] != needle@[k as int]);
            return false;
        }
        k += 1;
    }
    assert(hay@.subrange(i as int, i + needle@.len()) =~= needle@);
    true
}

/// The first index from which `needle` stands in `hay`.
pub fn locate(hay: &[char], needle: &[char]) -> (r: Option<usize>)
    ensures
        match r {
            Some(i) => is_first(hay@, needle@, i as int),
            None => !occurs(hay@, needle@),
        },
{
    if needle.len() > hay.len() {
        return None;
    }
    let last = hay.len() - needle.len();
    let mut i: usize = 0;
    while i < last
        invariant
            i <= last,
            last + needle@.len() == hay@.len(),
            forall|j: int| 0 <= j < i ==> !occurs_at(hay@, needle@, j),
        decreases last - i,
    {
        if stands_at(hay, needle, i) {
            return Some(i);
        }
        i += 1;
    }
    if stands_at(hay, needle, last) {
        Some(last)
    } else {
        None
    }
}

/// Where `needle` is first found in `line`. The needle is compared as it
/// stands: for a search that ignores case it has been folded before.
pub fn seek(line: &str, needle: &[char], case_sensitive: bool) -> (m: MatchResult)
    ensures
        m == span_of(line@, needle@, case_sensitive),
        fits(line@, m),
{
    if needle.len() > line.as_bytes().len() {
        proof {
            lemma_chars_within_bytes(line@);
        }
        return MatchResult::NoMatch;
    }
    let chars = chars_of(line);
    let hay = fold_chars(chars.as_slice(), case_sensitive);
    match locate(hay.as_slice(), needle) {
        Some(i) => {
            proof {
                lemma_first_index(hay@, needle@);
                lemma_encode_parts(line@, i as int, i + needle@.len());
                lemma_slice_between(line@, i as int, i + needle@.len());
            }
            let start = width_between(chars.as_slice(), 0, i);
            let length = width_between(chars.as_slice(), i, i + needle.len());
            assert(line@.take(0) =~= Seq::<char>::empty());
            MatchResult::Span { start, end: start + length }
        },
        None => MatchResult::NoMatch,
    }
}

/// What becomes of a line in which the query was or was not found.
pub fn decide(found: MatchResult, invert: bool) -> (d: Decision)
    ensures
        d == decided(found, invert),
        d matches Decision::Report(shown) ==> shown == found,
{
    match found {
        MatchResult::Span { .. } => if invert {
            Decision::Skip
        } else {
            Decision::Report(found)
        },
        MatchResult::NoMatch => if invert {
            Decision::Report(MatchResult::NoMatch)
        } else {
            Decision::Skip
        },
    }
}

/// Whether a place lies within a line and splits no character of it.
pub fn fits_line(found: MatchResult, line: &str) -> (r: bool)
    ensures
        r == fits(line@, found),
{
    match found {
        MatchResult::NoMatch => true,
        MatchResult::Span { start, end } => {
            let size = line.as_bytes().len();
            start <= end && end <= size && line.is_char_boundary(start) && line.is_char_boundary(
                end,
            )
        },
    }
}

/// Decides whether `line` is reported, and finds the bytes of it that hold
/// the query.
///
/// An empty query is found at the start of every line.
pub fn evaluate(line: &str, config: &Config) -> (d: Decision)
    ensures
        d == decision(line@, config.query@, config.case_sensitive, config.invert_match),
        d matches Decision::Report(found) ==> fits(line@, found),
{
    let query = chars_of(config.query.as_str());
    let needle = fold_chars(query.as_slice(), config.case_sensitive);
    let found = seek(line, needle.as_slice(), config.case_sensitive);
    decide(found, config.invert_match)
}

} // verus!
