use linegrep::config::Config;
use linegrep::search::search_text;

fn argv(words: &[&str]) -> Vec<String> {
    words.iter().map(|w| w.to_string()).collect()
}

const GREETINGS: &str = "Hello\nworld\nHELLO again\n";

#[test]
fn lines_are_numbered_by_their_place_in_the_file() {
    let config = Config::new(&argv(&["grep", "-i", "-n", "hello", "a.txt"]));
    assert_eq!(
        search_text(&config, "a.txt", GREETINGS),
        vec!["1: Hello".to_string(), "3: HELLO again".to_string()]
    );
}

#[test]
fn the_inverted_search_writes_the_other_lines() {
    let config = Config::new(&argv(&["grep", "-i", "-n", "-v", "hello", "a.txt"]));
    assert_eq!(
        search_text(&config, "a.txt", GREETINGS),
        vec!["2: world".to_string()]
    );
}

#[test]
fn case_matters_by_default() {
    let config = Config::new(&argv(&["grep", "hello", "a.txt"]));
    assert_eq!(search_text(&config, "a.txt", GREETINGS), Vec::<String>::new());
    let config = Config::new(&argv(&["grep", "Hello", "a.txt"]));
    assert_eq!(
        search_text(&config, "a.txt", GREETINGS),
        vec!["Hello".to_string()]
    );
}

#[test]
fn numbers_rise_by_one_from_one() {
    let config = Config::new(&argv(&["grep", "-n", "x", "a.txt"]));
    let text = "x\nx\nx\nx\nx\nx\nx\nx\nx\nx\nx\nx";
    let expected: Vec<String> = (1..=12).map(|n| format!("{n}: x")).collect();
    assert_eq!(search_text(&config, "a.txt", text), expected);
}

#[test]
fn numbers_begin_anew_with_each_text() {
    let config = Config::new(&argv(&["grep", "-n", "x", "a.txt", "b.txt"]));
    assert_eq!(
        search_text(&config, "a.txt", "a\nx\n"),
        vec!["2: x".to_string()]
    );
    assert_eq!(
        search_text(&config, "b.txt", "x\na\nx"),
        vec!["1: x".to_string(), "3: x".to_string()]
    );
}

#[test]
fn the_path_is_written_where_asked_for() {
    let config = Config::new(&argv(&["grep", "-f", "-n", "-i", "hello", "a.txt"]));
    assert_eq!(
        search_text(&config, "dir/a.txt", GREETINGS),
        vec![
            "dir/a.txt: 1: Hello".to_string(),
            "dir/a.txt: 3: HELLO again".to_string()
        ]
    );
}

#[test]
fn matches_are_set_off_line_by_line() {
    colored::control::set_override(true);
    let config = Config::new(&argv(&["grep", "-c", "-i", "hello", "a.txt"]));
    assert_eq!(
        search_text(&config, "a.txt", GREETINGS),
        vec![
            "\u{1b}[31mHello\u{1b}[0m".to_string(),
            "\u{1b}[31mHELLO\u{1b}[0m again".to_string()
        ]
    );
}

#[test]
fn an_inverted_search_sets_nothing_off() {
    colored::control::set_override(true);
    let config = Config::new(&argv(&["grep", "-c", "-v", "-i", "hello", "a.txt"]));
    assert_eq!(
        search_text(&config, "a.txt", GREETINGS),
        vec!["world".to_string()]
    );
}

#[test]
fn an_empty_text_gives_nothing() {
    let config = Config::new(&argv(&["grep", "-v", "x", "a.txt"]));
    assert_eq!(search_text(&config, "a.txt", ""), Vec::<String>::new());
}

#[test]
fn an_empty_query_reports_every_line() {
    let mut config = Config::new(&argv(&["grep", "-n", "x", "a.txt"]));
    config.query = String::new();
    assert_eq!(
        search_text(&config, "a.txt", "a\n\nb"),
        vec!["1: a".to_string(), "2: ".to_string(), "3: b".to_string()]
    );
}

#[test]
fn line_ends_are_no_part_of_what_is_written() {
    let config = Config::new(&argv(&["grep", "b", "a.txt"]));
    assert_eq!(
        search_text(&config, "a.txt", "ab\r\nbc\ncd\r\n"),
        vec!["ab".to_string(), "bc".to_string()]
    );
}
