use linegrep::lines::split_lines;

fn same_as_std(text: &str) {
    let expected: Vec<&str> = text.lines().collect();
    assert_eq!(split_lines(text), expected, "for {text:?}");
}

#[test]
fn an_empty_text_has_no_lines() {
    assert_eq!(split_lines(""), Vec::<&str>::new());
}

#[test]
fn a_text_without_a_line_feed_is_one_line() {
    assert_eq!(split_lines("hello"), vec!["hello"]);
}

#[test]
fn a_final_line_feed_begins_no_line() {
    assert_eq!(split_lines("a\nb\n"), vec!["a", "b"]);
    assert_eq!(split_lines("a\nb"), vec!["a", "b"]);
}

#[test]
fn empty_lines_are_lines() {
    assert_eq!(split_lines("\n"), vec![""]);
    assert_eq!(split_lines("\n\n"), vec!["", ""]);
    assert_eq!(split_lines("a\n\nb"), vec!["a", "", "b"]);
}

#[test]
fn a_carriage_return_before_the_line_feed_is_dropped() {
    assert_eq!(split_lines("a\r\nb\r\n"), vec!["a", "b"]);
    assert_eq!(split_lines("\r\n"), vec![""]);
}

#[test]
fn only_one_carriage_return_is_dropped() {
    assert_eq!(split_lines("a\r\r\nb"), vec!["a\r", "b"]);
}

#[test]
fn a_carriage_return_elsewhere_stays() {
    assert_eq!(split_lines("a\rb\nc"), vec!["a\rb", "c"]);
    assert_eq!(split_lines("a\n\rb"), vec!["a", "\rb"]);
    assert_eq!(split_lines("a\r"), vec!["a\r"]);
    assert_eq!(split_lines("a\nb\r"), vec!["a", "b\r"]);
}

#[test]
fn lines_of_many_bytes_are_kept_whole() {
    assert_eq!(
        split_lines("héllo\nwörld\r\n\u{212A}\n日本語"),
        vec!["héllo", "wörld", "\u{212A}", "日本語"]
    );
}

#[test]
fn the_lines_are_those_of_the_standard_library() {
    let texts = [
        "",
        "a",
        "a\n",
        "a\nb",
        "a\r\nb\r\n",
        "\n",
        "\n\n",
        "\r",
        "\r\n",
        "\r\n\r\n",
        "a\r",
        "a\r\n\r",
        "a\n\rb",
        "\r\r\n",
        "é\nü",
        "Hello\nworld\nHELLO again\n",
        "no newline at the end\r\n  indented\n\n\nlast",
        "\u{10FFFF}\n\u{7FF}\r\n\u{800}",
    ];
    for text in texts {
        same_as_std(text);
    }
}
