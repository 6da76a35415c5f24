//! The search of one text: which of its lines are written out, and how.

use vstd::prelude::*;
use crate::config::Config;
use crate::lines::{lines_of, split_lines};
use crate::matcher::{
    decide, decision, fold_chars, folded, located, seek, Decision, MatchResult,
};
use crate::renderer::{composed, digits, is_emphasis, label_part, matched_text, render, separator};
use crate::text::{chars_of, str_texts, texts};

verus! {

/// Whether a line is reported in a search with the options `config`.
pub open spec fn is_reported(line: Seq<char>, config: Config) -> bool {
    decision(line, config.query@, config.case_sensitive, config.invert_match) is Report
}

/// What is shown of the query in a reported line: where it was found, or
/// nothing in an inverted search.
pub open spec fn shown(line: Seq<char>, config: Config) -> MatchResult {
    if config.invert_match {
        MatchResult::NoMatch
    } else {
        located(line, config.query@, config.case_sensitive)
    }
}

/// The indices of the lines that are reported, in rising order.
pub open spec fn reported(lines: Seq<Seq<char>>, config: Config) -> Seq<int>
    decreases lines.len(),
{
    if lines.len() == 0 {
        Seq::empty()
    } else {
        let before = reported(lines.drop_last(), config);
        if is_reported(lines.last(), config) {
            before.push(lines.len() - 1)
        } else {
            before
        }
    }
}

/// Whether `out` is the line `line`, the line with index `index` of its
/// file, as it is written out. Where the match is set off, what stands for
/// the matched text is whatever setting it off gave.
pub open spec fn is_written(
    out: Seq<char>,
    line: Seq<char>,
    index: int,
    config: Config,
    file_label: Seq<char>,
) -> bool {
    exists|emphasized: Seq<char>|
        is_emphasis(matched_text(line, shown(line, config)), emphasized) && out == composed(
            line,
            shown(line, config),
            index as nat,
            config,
            file_label,
            emphasized,
        )
}

/// Whether `out` is what the search of the text `contents` writes out: its
/// reported lines, each once and in the order of the text, each with its own
/// index in the text.
pub open spec fn is_search_output(
    out: Seq<Seq<char>>,
    config: Config,
    file_label: Seq<char>,
    contents: Seq<char>,
) -> bool {
    let lines = lines_of(contents);
    let indices = reported(lines, config);
    &&& out.len() == indices.len()
    &&& forall|j: int|
        0 <= j < out.len() ==> is_written(
            #[trigger] out[j],
            lines[indices[j]],
            indices[j],
            config,
            file_label,
        )
}

/// The reported indices are those of the reported lines, each once, in
/// rising order.
pub proof fn lemma_reported(lines: Seq<Seq<char>>, config: Config)
    ensures
        reported(lines, config).len() <= lines.len(),
        forall|j: int|
            0 <= j < reported(lines, config).len() ==> {
                let k = #[trigger] reported(lines, config)[j];
                0 <= k < lines.len() && is_reported(lines[k], config)
            },
        forall|i: int, j: int|
            0 <= i < j < reported(lines, config).len() ==> reported(lines, config)[i] < reported(
                lines,
                config,
            )[j],
        forall|k: int|
            0 <= k < lines.len() && is_reported(#[trigger] lines[k], config) ==> reported(
                lines,
                config,
            ).contains(k),
    decreases lines.len(),
{
    if lines.len() > 0 {
        let shorter = lines.drop_last();
        let before = reported(shorter, config);
        let all = reported(lines, config);
        lemma_reported(shorter, config);
        assert forall|k: int| 0 <= k < lines.len() && is_reported(
            #[trigger] lines[k],
            config,
        ) implies all.contains(k) by {
            if k < lines.len() - 1 {
                assert(shorter[k] == lines[k]);
                let j = choose|j: int| 0 <= j < before.len() && before[j] == k;
                assert(all[j] == k);
            } else {
                assert(all[all.len() - 1] == k);
            }
        }
        assert forall|j: int| 0 <= j < all.len() implies {
            let k = #[trigger] all[j];
            0 <= k < lines.len() && is_reported(lines[k], config)
        } by {
            if j < before.len() {
                assert(all[j] == before[j]);
                assert(shorter[before[j]] == lines[before[j]]);
            }
        }
    }
}

/// Lines are numbered from one and by their place in the file, whether or
/// not the lines before them were reported: the line with index `index` is
/// written with the number `index + 1`, behind the path of the file where
/// that is written too.
pub proof fn lemma_written_number(
    out: Seq<char>,
    line: Seq<char>,
    index: int,
    config: Config,
    file_label: Seq<char>,
)
    requires
        0 <= index,
        config.print_line_numbers,
        is_written(out, line, index, config, file_label),
    ensures
        ({
            let from = label_part(config, file_label).len() as int;
            let number = digits((index + 1) as nat) + separator();
            from + number.len() <= out.len() && out.subrange(from, from + number.len()) == number
        }),
{
    let from = label_part(config, file_label).len() as int;
    let number = digits((index + 1) as nat) + separator();
    assert(out.subrange(from, from + number.len()) =~= number);
}

/// Searches the text `contents` and writes out its reported lines. Each
/// line is written with its own number in the text, counted from one.
pub fn search_text(config: &Config, file_label: &str, contents: &str) -> (out: Vec<String>)
    ensures
        is_search_output(texts(out@), *config, file_label@, contents@),
{
    let lines = split_lines(contents);
    let query = chars_of(config.query.as_str());
    let needle = fold_chars(query.as_slice(), config.case_sensitive);
    let mut out: Vec<String> = Vec::new();
    let ghost all = lines_of(contents@);
    let mut k: usize = 0;
    assert(all.take(0) =~= Seq::<Seq<char>>::empty());
    while k < lines.len()
        invariant
            k <= lines.len(),
            all == str_texts(lines@),
            needle@ == folded(config.query@, config.case_sensitive),
            out@.len() == reported(all.take(k as int), *config).len(),
            forall|j: int|
                0 <= j < out@.len() ==> is_written(
                    #[trigger] texts(out@)[j],
                    all[reported(all.take(k as int), *config)[j]],
                    reported(all.take(k as int), *config)[j],
                    *config,
                    file_label@,
                ),
        decreases lines.len() - k,
    {
        let line = lines[k];
        let ghost before = reported(all.take(k as int), *config);
        proof {
            assert(all.take(k + 1).drop_last() =~= all.take(k as int));
            assert(all.take(k + 1).last() == line@);
        }
        let found = seek(line, needle.as_slice(), config.case_sensitive);
        match decide(found, config.invert_match) {
            Decision::Report(found) => {
                let text = render(line, found, k, config, file_label);
                let ghost earlier = texts(out@);
                out.push(text);
                proof {
                    let after = reported(all.take(k + 1), *config);
                    assert(after == before.push(k as int));
                    assert(texts(out@) =~= earlier.push(text@));
                    assert(found == shown(line@, *config));
                    assert(is_written(text@, line@, k as int, *config, file_label@));
                    assert forall|j: int| 0 <= j < out@.len() implies is_written(
                        #[trigger] texts(out@)[j],
                        all[after[j]],
                        after[j],
                        *config,
                        file_label@,
                    ) by {
                        if j < earlier.len() {
                            assert(texts(out@)[j] == earlier[j]);
                            assert(after[j] == before[j]);
                        }
                    }
                }
            },
            Decision::Skip => {},
        }
        k += 1;
    }
    assert(all.take(lines.len() as int) =~= all);
    out
}

} // verus!
