use neit_grammar::text::{split_lines, to_chars, trimmed};

fn text_samples() -> Vec<&'static str> {
    vec![
        "",
        "a",
        "\n",
        "\r\n",
        "\r",
        "a\n",
        "a\nb",
        "a\r\nb\r\n",
        "a\r\n\r\nb",
        "a\rb\nc",
        "a\r\r\nb",
        "\n\n\n",
        "\r\n\r\n",
        "a\n\nb\n",
        "last\r",
        "one\ntwo\r",
        "fn~define\n# note\n\nmay ~ perhaps\r\n",
        "  padded  ",
        "\t tab and space \u{A0}",
        "\u{3000}wide\u{3000}",
        "\u{2028}\u{2029}",
        "   ",
        "\u{85}x\u{85}",
        "inner  space",
        " \n x \n ",
        "été\nnaïve\r\n可",
    ]
}

#[test]
fn lines_agree_with_std() {
    for sample in text_samples() {
        let expected: Vec<String> = sample.lines().map(|l| l.to_string()).collect();
        assert_eq!(split_lines(sample), expected, "{:?}", sample);
    }
}

#[test]
fn trim_agrees_with_std() {
    for sample in text_samples() {
        assert_eq!(trimmed(sample), sample.trim(), "{:?}", sample);
    }
}

#[test]
fn lines_of_the_empty_text() {
    assert_eq!(split_lines(""), Vec::<String>::new());
}

#[test]
fn final_line_ending_is_optional() {
    assert_eq!(split_lines("a\nb"), vec!["a".to_string(), "b".to_string()]);
    assert_eq!(split_lines("a\nb\n"), vec!["a".to_string(), "b".to_string()]);
    assert_eq!(split_lines("a\nb\n\n"), vec!["a".to_string(), "b".to_string(), String::new()]);
}

#[test]
fn carriage_return_belongs_to_the_line_ending_only_before_a_line_feed() {
    assert_eq!(split_lines("a\r\nb"), vec!["a".to_string(), "b".to_string()]);
    assert_eq!(split_lines("a\rb"), vec!["a\rb".to_string()]);
    assert_eq!(split_lines("a\r"), vec!["a\r".to_string()]);
    assert_eq!(split_lines("a\r\r\n"), vec!["a\r".to_string()]);
    assert_eq!(split_lines("\r\n"), vec![String::new()]);
}

#[test]
fn trim_takes_whitespace_from_both_ends_only() {
    assert_eq!(trimmed("  a b  "), "a b");
    assert_eq!(trimmed("\t\r\n a"), "a");
    assert_eq!(trimmed("a \u{A0}\u{3000}"), "a");
    assert_eq!(trimmed(" \t "), "");
    assert_eq!(trimmed(""), "");
    assert_eq!(trimmed("..a.."), "..a..");
    assert_eq!(trimmed("\u{200B}a"), "\u{200B}a");
}

#[test]
fn characters_come_out_in_order() {
    assert_eq!(to_chars("a é可\n"), vec!['a', ' ', 'é', '可', '\n']);
    assert_eq!(to_chars(""), Vec::<char>::new());
}
