//! The options of one run, and how the command line gives them.

use vstd::prelude::*;
use crate::text::{same_text, texts};

verus! {

/// What to search for, where, and how to report it.
#[derive(Clone, Debug, PartialEq, Eq)]
pub struct Config {
    /// The literal text to look for.
    pub query: String,
    /// The files and directories to search, in the order given.
    pub file_paths: Vec<String>,
    /// Whether letter case matters.
    pub case_sensitive: bool,
    /// Whether each reported line starts with its number.
    pub print_line_numbers: bool,
    /// Whether to report the lines that do not hold the query.
    pub invert_match: bool,
    /// Whether a directory is searched at every depth.
    pub recursive_dir_search: bool,
    /// Whether each reported line starts with the path of its file.
    pub print_file_names: bool,
    /// Whether the matched text is set off in the output.
    pub color_output: bool,
    /// Whether usage help was asked for.
    pub show_help: bool,
}

/// A `Config` as plain values.
pub struct ConfigView {
    pub query: Seq<char>,
    pub file_paths: Seq<Seq<char>>,
    pub case_sensitive: bool,
    pub print_line_numbers: bool,
    pub invert_match: bool,
    pub recursive_dir_search: bool,
    pub print_file_names: bool,
    pub color_output: bool,
    pub show_help: bool,
}

impl View for Config {
    type V = ConfigView;

    open spec fn view(&self) -> ConfigView {
        ConfigView {
            query: self.query@,
            file_paths: texts(self.file_paths@),
            case_sensitive: self.case_sensitive,
            print_line_numbers: self.print_line_numbers,
            invert_match: self.invert_match,
            recursive_dir_search: self.recursive_dir_search,
            print_file_names: self.print_file_names,
            color_output: self.color_output,
            show_help: self.show_help,
        }
    }
}

/// Whether an argument is one of the switches.
pub open spec fn is_flag(arg: Seq<char>) -> bool {
    ||| arg == "-i"@
    ||| arg == "-n"@
    ||| arg == "-v"@
    ||| arg == "-r"@
    ||| arg == "-f"@
    ||| arg == "-c"@
    ||| arg == "-h"@
    ||| arg == "--help"@
}

/// The test that keeps the arguments which are no switch.
pub open spec fn not_flag() -> spec_fn(Seq<char>) -> bool {
    |arg: Seq<char>| !is_flag(arg)
}

/// The arguments that are no switch, in their order: the program's own name,
/// then the query, then the paths.
pub open spec fn words(args: Seq<Seq<char>>) -> Seq<Seq<char>> {
    args.filter(not_flag())
}

/// Whether the words name a query and at least one path.
pub open spec fn is_complete(args: Seq<Seq<char>>) -> bool {
    words(args).len() >= 3
}

/// The options that an argument vector stands for.
///
/// A switch counts wherever it stands and however often. Without both a query
/// and a path the query and the paths are empty, so that nothing is searched.
pub open spec fn parsed(args: Seq<Seq<char>>) -> ConfigView {
    ConfigView {
        query: if is_complete(args) {
            words(args)[1]
        } else {
            Seq::empty()
        },
        file_paths: if is_complete(args) {
            words(args).skip(2)
        } else {
            Seq::empty()
        },
        case_sensitive: !args.contains("-i"@),
        print_line_numbers: args.contains("-n"@),
        invert_match: args.contains("-v"@),
        recursive_dir_search: args.contains("-r"@),
        print_file_names: args.contains("-f"@),
        color_output: args.contains("-c"@),
        show_help: args.contains("-h"@) || args.contains("--help"@),
    }
}

proof fn lemma_flags_differ()
    ensures
        "-i"@[1] == 'i',
        "-n"@[1] == 'n',
        "-v"@[1] == 'v',
        "-r"@[1] == 'r',
        "-f"@[1] == 'f',
        "-c"@[1] == 'c',
        "-h"@[1] == 'h',
        "--help"@[1] == '-',
{
    reveal_strlit("-i");
    reveal_strlit("-n");
    reveal_strlit("-v");
    reveal_strlit("-r");
    reveal_strlit("-f");
    reveal_strlit("-c");
    reveal_strlit("-h");
    reveal_strlit("--help");
}

proof fn lemma_words_push(args: Seq<Seq<char>>, arg: Seq<char>)
    ensures
        words(args.push(arg)) == if is_flag(arg) {
            words(args)
        } else {
            words(args).push(arg)
        },
{
    reveal(Seq::filter);
    assert(args.push(arg).drop_last() =~= args);
}

proof fn lemma_contains_push(args: Seq<Seq<char>>, arg: Seq<char>, flag: Seq<char>)
    ensures
        args.push(arg).contains(flag) <==> args.contains(flag) || arg == flag,
{
    let longer = args.push(arg);
    if args.contains(flag) {
        let i = choose|i: int| 0 <= i < args.len() && args[i] == flag;
        assert(longer[i] == flag);
    }
    if arg == flag {
        assert(longer[args.len() as int] == flag);
    }
}

impl Config {
    /// Reads the options from an argument vector, the program's own name
    /// included.
    pub fn new(args: &[String]) -> (config: Config)
        ensures
            config@ == parsed(texts(args@)),
    {
        let mut case_sensitive = true;
        let mut print_line_numbers = false;
        let mut invert_match = false;
        let mut recursive_dir_search = false;
        let mut print_file_names = false;
        let mut color_output = false;
        let mut help_short = false;
        let mut help_long = false;
        let mut kept: Vec<String> = Vec::new();

        let ghost all = texts(args@);
        assert(all.take(0) =~= Seq::<Seq<char>>::empty());
        assert(texts(kept@) =~= words(all.take(0))) by {
            reveal(Seq::filter);
        }
        let mut i: usize = 0;
        while i < args.len()
            invariant
                i <= args.len(),
                all == texts(args@),
                texts(kept@) == words(all.take(i as int)),
                case_sensitive == !all.take(i as int).contains("-i"@),
                print_line_numbers == all.take(i as int).contains("-n"@),
                invert_match == all.take(i as int).contains("-v"@),
                recursive_dir_search == all.take(i as int).contains("-r"@),
                print_file_names == all.take(i as int).contains("-f"@),
                color_output == all.take(i as int).contains("-c"@),
                help_short == all.take(i as int).contains("-h"@),
                help_long == all.take(i as int).contains("--help"@),
            decreases args.len() - i,
        {
            let arg = &args[i];
            let ghost before = all.take(i as int);
            proof {
                lemma_flags_differ();
                assert(all.take(i + 1) =~= before.push(arg@));
                lemma_words_push(before, arg@);
                lemma_contains_push(before, arg@, "-i"@);
                lemma_contains_push(before, arg@, "-n"@);
                lemma_contains_push(before, arg@, "-v"@);
                lemma_contains_push(before, arg@, "-r"@);
                lemma_contains_push(before, arg@, "-f"@);
                lemma_contains_push(before, arg@, "-c"@);
                lemma_contains_push(before, arg@, "-h"@);
                lemma_contains_push(before, arg@, "--help"@);
            }
            if same_text(arg.as_str(), "-i") {
                case_sensitive = false;
            } else if same_text(arg.as_str(), "-n") {
                print_line_numbers = true;
            } else if same_text(arg.as_str(), "-v") {
                invert_match = true;
            } else if same_text(arg.as_str(), "-r") {
                recursive_dir_search = true;
            } else if same_text(arg.as_str(), "-f") {
                print_file_names = true;
            } else if same_text(arg.as_str(), "-c") {
                color_output = true;
            } else if same_text(arg.as_str(), "-h") {
                help_short = true;
            } else if same_text(arg.as_str(), "--help") {
                help_long = true;
            } else {
                let ghost shorter = texts(kept@);
                kept.push(arg.clone());
                assert(texts(kept@) =~= shorter.push(arg@));
            }
            i += 1;
        }
        assert(all.take(args.len() as int) =~= all);

        let mut query = String::new();
        let mut file_paths: Vec<String> = Vec::new();
        if kept.len() >= 3 {
            query = kept[1].clone();
            let mut k: usize = 2;
            while k < kept.len()
                invariant
                    2 <= k <= kept.len(),
                    texts(file_paths@) == texts(kept@).subrange(2, k as int),
                decreases kept.len() - k,
            {
                let ghost shorter = texts(file_paths@);
                file_paths.push(kept[k].clone());
                assert(texts(file_paths@) =~= shorter.push(kept[k as int]@));
                assert(texts(kept@).subrange(2, k + 1) =~= texts(kept@).subrange(2, k as int).push(
                    kept[k as int]@,
                ));
                k += 1;
            }
            assert(texts(kept@).subrange(2, kept.len() as int) =~= texts(kept@).skip(2));
        } else {
            assert(texts(file_paths@) =~= Seq::<Seq<char>>::empty());
        }
        Config {
            query,
            file_paths,
            case_sensitive,
            print_line_numbers,
            invert_match,
            recursive_dir_search,
            print_file_names,
            color_output,
            show_help: help_short || help_long,
        }
    }
}

} // verus!
