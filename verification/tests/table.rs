use neit_grammar::table::{gen_grm, replace_word};
use neit_grammar::Grammar;

fn table_entry(def: &str, new: &str) -> Grammar {
    Grammar { def: def.to_string(), new: new.to_string() }
}

#[test]
fn built_in_table_is_the_eight_keywords() {
    let expected: Vec<Grammar> = ["fn", "may", "must", "=", "pub", "takein", "println", "print"]
        .iter()
        .map(|k| table_entry(k, k))
        .collect();
    assert_eq!(gen_grm(), expected);
}

#[test]
fn built_in_aliases_resolve_to_themselves() {
    let defaults = gen_grm();
    let other = vec![table_entry("fn", "define"), table_entry("x", "y")];
    for g in &defaults {
        assert_eq!(replace_word(&g.new, &[], &defaults), g.new);
        assert_eq!(replace_word(&g.new, &other, &defaults), g.new);
    }
}

#[test]
fn entry_of_the_first_table_wins_over_built_in() {
    let defaults = gen_grm();
    let user = vec![table_entry("function", "fn"), table_entry("output", "print")];
    assert_eq!(replace_word("fn", &user, &defaults), "function");
    assert_eq!(replace_word("print", &user, &defaults), "output");
    assert_eq!(replace_word("println", &user, &defaults), "println");
}

#[test]
fn first_entry_with_the_alias_wins() {
    let user = vec![
        table_entry("one", "w"),
        table_entry("two", "w"),
        table_entry("three", "v"),
    ];
    let later = vec![table_entry("four", "v"), table_entry("five", "u")];
    assert_eq!(replace_word("w", &user, &later), "one");
    assert_eq!(replace_word("v", &user, &later), "three");
    assert_eq!(replace_word("u", &user, &later), "five");
    assert_eq!(replace_word("v", &[], &later), "four");
}

#[test]
fn unknown_word_stays() {
    let defaults = gen_grm();
    let user = vec![table_entry("fn", "define")];
    assert_eq!(replace_word("x", &user, &defaults), "x");
    assert_eq!(replace_word("", &user, &defaults), "");
    assert_eq!(replace_word("anything", &[], &[]), "anything");
}

#[test]
fn lookup_is_exact() {
    let user = vec![table_entry("fn", "define")];
    assert_eq!(replace_word("define", &user, &[]), "fn");
    assert_eq!(replace_word("Define", &user, &[]), "Define");
    assert_eq!(replace_word("defined", &user, &[]), "defined");
    assert_eq!(replace_word("defin", &user, &[]), "defin");
    assert_eq!(replace_word(" define", &user, &[]), " define");
    assert_eq!(replace_word("fn", &user, &[]), "fn");
}

#[test]
fn canonical_value_is_looked_up_by_alias_not_by_itself() {
    let user = vec![table_entry("a", "b"), table_entry("b", "c")];
    assert_eq!(replace_word("b", &user, &[]), "a");
    assert_eq!(replace_word("c", &user, &[]), "b");
    assert_eq!(replace_word("a", &user, &[]), "a");
}

#[test]
fn empty_alias_matches_the_empty_word_only() {
    let user = vec![table_entry("nothing", "")];
    assert_eq!(replace_word("", &user, &[]), "nothing");
    assert_eq!(replace_word("x", &user, &[]), "x");
}
