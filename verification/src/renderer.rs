//! How a reported line is written out.
//!
//! A line is written as the path of its file, its number and its text, in
//! this order; the first two only where the options ask for them. Where the
//! options ask for it, the text that matched is set off.

use colored::Colorize;
use vstd::prelude::*;
use vstd::string::{StrSliceExecFns, StringExecFns};
use vstd::utf8::{encode_utf8, encode_utf8_decode_utf8, encode_utf8_valid_utf8};
use crate::config::Config;
use crate::matcher::{fits, MatchResult};
use crate::text::{byte_len, lemma_cut_again, slice};

verus! {

/// The character of a decimal digit.
pub open spec fn digit(d: nat) -> char {
    "0123456789"@[d as int]
}

/// A number in decimal, without leading zeros.
pub open spec fn digits(n: nat) -> Seq<char>
    decreases n,
{
    if n < 10 {
        seq![digit(n)]
    } else {
        digits(n / 10).push(digit(n % 10))
    }
}

/// What stands between a prefix and what follows it.
pub open spec fn separator() -> Seq<char> {
    seq![':', ' ']
}

/// The path of the file, as it stands before a line.
pub open spec fn label_part(config: Config, file_label: Seq<char>) -> Seq<char> {
    if config.print_file_names {
        file_label + separator()
    } else {
        Seq::empty()
    }
}

/// The number of the line, as it stands before a line. Lines are counted from
/// one; `line_index` counts them from zero.
pub open spec fn number_part(config: Config, line_index: nat) -> Seq<char> {
    if config.print_line_numbers {
        digits(line_index + 1) + separator()
    } else {
        Seq::empty()
    }
}

/// Whether the matched text is set off.
pub open spec fn is_highlighted(config: Config, found: MatchResult) -> bool {
    config.color_output && found is Span
}

/// The text that matched.
pub open spec fn matched_text(line: Seq<char>, found: MatchResult) -> Seq<char> {
    match found {
        MatchResult::Span { start, end } => slice(line, start as int, end as int),
        MatchResult::NoMatch => Seq::empty(),
    }
}

/// The text of a line, with `emphasized` in place of the bytes that matched
/// where the match is set off.
pub open spec fn body_part(
    line: Seq<char>,
    found: MatchResult,
    config: Config,
    emphasized: Seq<char>,
) -> Seq<char> {
    match found {
        MatchResult::Span { start, end } if config.color_output => slice(line, 0, start as int)
            + emphasized + slice(line, end as int, byte_len(line) as int),
        _ => line,
    }
}

/// A line as it is written out.
pub open spec fn composed(
    line: Seq<char>,
    found: MatchResult,
    line_index: nat,
    config: Config,
    file_label: Seq<char>,
    emphasized: Seq<char>,
) -> Seq<char> {
    label_part(config, file_label) + number_part(config, line_index) + body_part(
        line,
        found,
        config,
        emphasized,
    )
}

/// Whether a text holds the escape character, with which the control
/// sequences of a terminal begin.
pub open spec fn has_escape(text: Seq<char>) -> bool {
    text.contains('\u{1b}')
}

/// A text between the control sequence for a red foreground and the one that
/// resets the terminal.
pub open spec fn in_red(text: Seq<char>) -> Seq<char> {
    seq!['\u{1b}', '[', '3', '1', 'm'] + text + seq!['\u{1b}', '[', '0', 'm']
}

/// Whether `emphasized` can be what setting off `text` gives: for a text
/// without the escape character, the text as it is or the text in red.
pub open spec fn is_emphasis(text: Seq<char>, emphasized: Seq<char>) -> bool {
    !has_escape(text) ==> emphasized == text || emphasized == in_red(text)
}

/// Calls `Colorize::red` of `colored` and takes the result as a `String`.
///
/// `colored` decides by the environment and by its own global switch whether
/// it colours at all, so two calls on one text may differ. Either it leaves
/// the text as it is, or it puts the sequence for a red foreground before it
/// and the reset sequence behind it. Where the text itself holds a reset
/// sequence it changes the text too; of a text with the escape character
/// nothing is claimed here.
#[verifier::external_body]
fn emphasize(text: &str) -> (r: String)
    ensures
        is_emphasis(text@, r@),
{
    text.red().to_string()
}

/// The string of a decimal digit.
fn digit_str(d: u128) -> (s: &'static str)
    requires
        d < 10,
    ensures
        s@ == seq![digit(d as nat)],
{
    proof {
        reveal_strlit("0123456789");
    }
    let from = d as usize;
    let s = "0123456789".substring_ascii(from, from + 1);
    assert(s@ =~= seq![digit(d as nat)]);
    s
}

/// A number in decimal.
pub fn decimal(n: u128) -> (s: String)
    ensures
        s@ == digits(n as nat),
    decreases n,
{
    if n < 10 {
        String::from_str(digit_str(n))
    } else {
        let mut s = decimal(n / 10);
        s.append(digit_str(n % 10));
        assert(s@ =~= digits(n as nat));
        s
    }
}

/// Appends what stands between a prefix and what follows it.
fn push_separator(out: &mut String)
    ensures
        final(out)@ == old(out)@ + separator(),
{
    proof {
        reveal_strlit(": ");
    }
    out.append(": ");
    assert(out@ =~= old(out)@ + separator());
}

/// Writes a line out, with `emphasized` in place of the text that matched
/// where the options ask for the match to be set off.
pub fn compose(
    line: &str,
    found: MatchResult,
    line_index: usize,
    config: &Config,
    file_label: &str,
    emphasized: &str,
) -> (out: String)
    requires
        config.color_output ==> fits(line@, found),
    ensures
        out@ == composed(line@, found, line_index as nat, *config, file_label@, emphasized@),
{
    let mut out = String::new();
    if config.print_file_names {
        out.append(file_label);
        push_separator(&mut out);
    }
    if config.print_line_numbers {
        let number = decimal(line_index as u128 + 1);
        out.append(number.as_str());
        push_separator(&mut out);
    }
    let ghost prefix = out@;
    assert(prefix =~= label_part(*config, file_label@) + number_part(*config, line_index as nat));
    match found {
        MatchResult::Span { start, end } if config.color_output => {
            proof {
                encode_utf8_valid_utf8(line@);
                lemma_cut_again(encode_utf8(line@), start as int, end as int);
            }
            let (head, rest) = line.split_at(start);
            let (_, tail) = rest.split_at(end - start);
            proof {
                encode_utf8_decode_utf8(head@);
                encode_utf8_decode_utf8(tail@);
                assert(encode_utf8(tail@) =~= encode_utf8(line@).subrange(
                    end as int,
                    byte_len(line@) as int,
                ));
            }
            out.append(head);
            out.append(emphasized);
            out.append(tail);
        },
        _ => {
            out.append(line);
        },
    }
    out
}

/// Writes a line out: the path of its file and its number where the options
/// ask for them, then its text, with the text that matched set off where the
/// options ask for that and the line has a match.
pub fn render(
    line: &str,
    found: MatchResult,
    line_index: usize,
    config: &Config,
    file_label: &str,
) -> (out: String)
    requires
        config.color_output ==> fits(line@, found),
    ensures
        !is_highlighted(*config, found) ==> out@ == label_part(*config, file_label@) + number_part(
            *config,
            line_index as nat,
        ) + line@,
        exists|emphasized: Seq<char>|
            is_emphasis(matched_text(line@, found), emphasized) && out@ == composed(
                line@,
                found,
                line_index as nat,
                *config,
                file_label@,
                emphasized,
            ),
{
    match found {
        MatchResult::Span { start, end } if config.color_output => {
            proof {
                encode_utf8_valid_utf8(line@);
                lemma_cut_again(encode_utf8(line@), start as int, end as int);
            }
            let (_, rest) = line.split_at(start);
            let (matched, _) = rest.split_at(end - start);
            proof {
                encode_utf8_decode_utf8(matched@);
                assert(encode_utf8(matched@) =~= encode_utf8(line@).subrange(
                    start as int,
                    end as int,
                ));
            }
            let emphasized = emphasize(matched);
            assert(matched@ == matched_text(line@, found));
            assert(is_emphasis(matched_text(line@, found), emphasized@));
            compose(line, found, line_index, config, file_label, emphasized.as_str())
        },
        _ => {
            let out = compose(line, found, line_index, config, file_label, "");
            assert(is_emphasis(matched_text(line@, found), matched_text(line@, found)));
            assert(out@ == composed(
                line@,
                found,
                line_index as nat,
                *config,
                file_label@,
                matched_text(line@, found),
            ));
            out
        },
    }
}

} // verus!
