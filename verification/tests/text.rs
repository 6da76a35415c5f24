use linegrep::text::{char_width, chars_of, same_text, width_between};

#[test]
fn same_text_compares_the_whole_text() {
    assert!(same_text("", ""));
    assert!(same_text("-i", "-i"));
    assert!(same_text("héllo", "héllo"));
    assert!(!same_text("-i", "-n"));
    assert!(!same_text("-i", "-"));
    assert!(!same_text("", "a"));
    assert!(!same_text("héllo", "hello"));
}

#[test]
fn chars_of_gives_the_characters_in_order() {
    assert_eq!(chars_of(""), Vec::<char>::new());
    assert_eq!(chars_of("aé日"), vec!['a', 'é', '日']);
}

#[test]
fn a_character_takes_one_to_four_bytes() {
    for c in ['\0', 'a', '\u{7f}', '\u{80}', 'é', '\u{7ff}', '\u{800}', '日', '\u{ffff}',
        '\u{10000}', '\u{10ffff}', '\u{d7ff}', '\u{e000}']
    {
        assert_eq!(char_width(c), c.len_utf8());
    }
}

#[test]
fn widths_add_up() {
    let chars: Vec<char> = "aé日\u{10000}b".chars().collect();
    assert_eq!(width_between(&chars, 0, 0), 0);
    assert_eq!(width_between(&chars, 0, 1), 1);
    assert_eq!(width_between(&chars, 0, 2), 3);
    assert_eq!(width_between(&chars, 1, 4), 9);
    assert_eq!(width_between(&chars, 0, 5), 11);
    assert_eq!(width_between(&chars, 5, 5), 0);
}
