use neit_grammar::grammar::{parse_entry, parse_grammar, process_grammar_file};
use neit_grammar::{Grammar, MalformedGrammarLine};

fn mapping(def: &str, new: &str) -> Grammar {
    Grammar { def: def.to_string(), new: new.to_string() }
}

fn rejected(path: &str, line_number: usize, line: &str) -> MalformedGrammarLine {
    MalformedGrammarLine { path: path.to_string(), line_number, line: line.to_string() }
}

#[test]
fn plain_entry() {
    assert_eq!(parse_entry("g", 1, "fn~define"), Ok(Some(mapping("fn", "define"))));
}

#[test]
fn parts_are_trimmed() {
    assert_eq!(parse_entry("g", 1, "  fn \t~  define  "), Ok(Some(mapping("fn", "define"))));
    assert_eq!(
        parse_entry("g", 1, "\u{3000}fn\u{A0}~\u{2003}define\u{85}"),
        Ok(Some(mapping("fn", "define")))
    );
    assert_eq!(parse_entry("g", 1, "a b ~ c  d"), Ok(Some(mapping("a b", "c  d"))));
}

#[test]
fn comment_gives_no_entry() {
    assert_eq!(parse_entry("g", 1, "#"), Ok(None));
    assert_eq!(parse_entry("g", 1, "# fn~define"), Ok(None));
    assert_eq!(parse_entry("g", 1, "#a~b~c"), Ok(None));
    assert_eq!(parse_entry("g", 1, "#no separator"), Ok(None));
}

#[test]
fn hash_after_the_first_character_is_no_comment() {
    assert_eq!(parse_entry("g", 1, " #a~b"), Ok(Some(mapping("#a", "b"))));
    assert_eq!(parse_entry("g", 4, " # note"), Err(rejected("g", 4, " # note")));
    assert_eq!(parse_entry("g", 1, "a~#b"), Ok(Some(mapping("a", "#b"))));
}

#[test]
fn empty_parts_are_accepted() {
    assert_eq!(parse_entry("g", 1, "~"), Ok(Some(mapping("", ""))));
    assert_eq!(parse_entry("g", 1, "a~"), Ok(Some(mapping("a", ""))));
    assert_eq!(parse_entry("g", 1, "~b"), Ok(Some(mapping("", "b"))));
    assert_eq!(parse_entry("g", 1, "  ~  "), Ok(Some(mapping("", ""))));
}

#[test]
fn line_without_separator_is_rejected() {
    assert_eq!(parse_entry("g.grm", 3, "fn define"), Err(rejected("g.grm", 3, "fn define")));
    assert_eq!(parse_entry("g.grm", 9, ""), Err(rejected("g.grm", 9, "")));
    assert_eq!(parse_entry("g.grm", 2, "   "), Err(rejected("g.grm", 2, "   ")));
}

#[test]
fn line_with_more_separators_is_rejected() {
    assert_eq!(parse_entry("g.grm", 1, "a~b~c"), Err(rejected("g.grm", 1, "a~b~c")));
    assert_eq!(parse_entry("g.grm", 1, "~~"), Err(rejected("g.grm", 1, "~~")));
    assert_eq!(parse_entry("g.grm", 1, "a~b~"), Err(rejected("g.grm", 1, "a~b~")));
    assert_eq!(parse_entry("g.grm", 1, "a~~b"), Err(rejected("g.grm", 1, "a~~b")));
    assert_eq!(parse_entry("g.grm", 1, "a~b~c~d~e"), Err(rejected("g.grm", 1, "a~b~c~d~e")));
}

#[test]
fn path_and_number_are_handed_on() {
    assert_eq!(parse_entry("", 0, "x"), Err(rejected("", 0, "x")));
    assert_eq!(
        parse_entry("dir/é.grm", usize::MAX, "x"),
        Err(rejected("dir/é.grm", usize::MAX, "x"))
    );
}

#[test]
fn entries_agree_with_split_and_trim() {
    let samples = [
        "fn~define", " a ~ b ", "~", "a~", "~b", "a", "", "a~b~c", "~~", " # c", "x ~y~", "\t~\t",
        "é ~ 可", "a\u{A0}~\u{A0}b", "a~b\r",
    ];
    for line in samples {
        let parts: Vec<&str> = line.split('~').collect();
        let expected = if parts.len() == 2 {
            Ok(Some(mapping(parts[0].trim(), parts[1].trim())))
        } else {
            Err(rejected("p", 5, line))
        };
        assert_eq!(parse_entry("p", 5, line), expected, "{:?}", line);
    }
}

#[test]
fn whole_text() {
    let content = "# keywords\nfn~define\nmay ~ perhaps\n# done\nmust~always\n";
    assert_eq!(
        parse_grammar("g", content),
        Ok(vec![mapping("fn", "define"), mapping("may", "perhaps"), mapping("must", "always")])
    );
}

#[test]
fn empty_text_has_no_entries() {
    assert_eq!(parse_grammar("g", ""), Ok(vec![]));
    assert_eq!(parse_grammar("g", "# only a comment"), Ok(vec![]));
    assert_eq!(parse_grammar("g", "#\n#\n"), Ok(vec![]));
}

#[test]
fn line_endings() {
    assert_eq!(
        parse_grammar("g", "fn~define\r\nmay~perhaps\r\n"),
        Ok(vec![mapping("fn", "define"), mapping("may", "perhaps")])
    );
    assert_eq!(
        parse_grammar("g", "fn~define\nmay~perhaps"),
        Ok(vec![mapping("fn", "define"), mapping("may", "perhaps")])
    );
    assert_eq!(parse_grammar("g", "fn~define\r"), Ok(vec![mapping("fn", "define")]));
}

#[test]
fn duplicates_are_kept_in_order() {
    assert_eq!(
        parse_grammar("g", "a~w\nb~w\na~w"),
        Ok(vec![mapping("a", "w"), mapping("b", "w"), mapping("a", "w")])
    );
}

#[test]
fn empty_line_is_rejected() {
    assert_eq!(parse_grammar("g", "fn~define\n\nmay~perhaps"), Err(rejected("g", 2, "")));
    assert_eq!(parse_grammar("g", "\n"), Err(rejected("g", 1, "")));
    assert_eq!(parse_grammar("g", "fn~define\n\n"), Err(rejected("g", 2, "")));
    assert_eq!(parse_grammar("g", "fn~define\r\n   \r\n"), Err(rejected("g", 2, "   ")));
}

#[test]
fn every_line_counts() {
    assert_eq!(parse_grammar("g", "# one\n# two\nbad"), Err(rejected("g", 3, "bad")));
    assert_eq!(parse_grammar("g", "a~b\n# two\nc~d\n#\na~b~c\n"), Err(rejected("g", 5, "a~b~c")));
    assert_eq!(parse_grammar("g", "bad"), Err(rejected("g", 1, "bad")));
}

#[test]
fn first_invalid_line_is_reported() {
    assert_eq!(parse_grammar("g", "a~b\nfirst\nsecond~x~y\nthird"), Err(rejected("g", 2, "first")));
    assert_eq!(parse_grammar("g", "a~b~c\nok~fine"), Err(rejected("g", 1, "a~b~c")));
}

#[test]
fn reported_line_has_no_line_ending() {
    assert_eq!(parse_grammar("g", "a~b\r\nbad line\r\nc~d"), Err(rejected("g", 2, "bad line")));
    assert_eq!(parse_grammar("g", "bad\r"), Err(rejected("g", 1, "bad\r")));
}

#[test]
fn entries_are_added_to_the_end() {
    let mut table = vec![mapping("x", "y")];
    assert_eq!(process_grammar_file("g", "fn~define\n#\nmay~perhaps", &mut table), Ok(()));
    assert_eq!(table, vec![mapping("x", "y"), mapping("fn", "define"), mapping("may", "perhaps")]);
    assert_eq!(process_grammar_file("h", "must~always", &mut table), Ok(()));
    assert_eq!(
        table,
        vec![
            mapping("x", "y"),
            mapping("fn", "define"),
            mapping("may", "perhaps"),
            mapping("must", "always"),
        ]
    );
    assert_eq!(process_grammar_file("h", "", &mut table), Ok(()));
    assert_eq!(table.len(), 4);
}

#[test]
fn invalid_text_adds_nothing() {
    let mut table = vec![mapping("x", "y")];
    assert_eq!(
        process_grammar_file("g", "fn~define\nbad\nmay~perhaps", &mut table),
        Err(rejected("g", 2, "bad"))
    );
    assert_eq!(table, vec![mapping("x", "y")]);
}
