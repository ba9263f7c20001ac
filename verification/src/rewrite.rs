//! The scan that rewrites a source text: words outside quoted literals are
//! replaced, everything else is copied.

use crate::chars::{delimiter, is_delimiter};
use crate::table::{resolve, replace_word, Entry, Grammar};
use vstd::prelude::*;

verus! {

/// The state of a scan from left to right.
pub struct Scan {
    /// What has been written so far.
    pub out: Seq<char>,
    /// The word characters read since the last word was written.
    pub word: Seq<char>,
    /// Whether the scan stands inside a quoted literal.
    pub in_string: bool,
}

/// The state before the first character.
pub open spec fn start() -> Scan {
    Scan { out: Seq::empty(), word: Seq::empty(), in_string: false }
}

/// What a pending word adds to the output: its replacement, or nothing where
/// no word is pending.
pub open spec fn flushed(word: Seq<char>, table: Seq<Entry>) -> Seq<char> {
    if word.len() > 0 {
        resolve(word, table)
    } else {
        Seq::empty()
    }
}

/// The state after one more character.
///
/// A quote is copied and switches between literal and ordinary text; it does
/// not end a pending word. Inside a literal every character is copied.
/// Outside, a delimiter has the pending word written, replaced, and is then
/// copied itself; any other character joins the pending word.
pub open spec fn step(s: Scan, c: char, table: Seq<Entry>) -> Scan {
    if c == '"' {
        Scan { out: s.out.push(c), word: s.word, in_string: !s.in_string }
    } else if s.in_string {
        Scan { out: s.out.push(c), word: s.word, in_string: true }
    } else if delimiter(c) {
        Scan {
            out: (s.out + flushed(s.word, table)).push(c),
            word: Seq::empty(),
            in_string: false,
        }
    } else {
        Scan { out: s.out, word: s.word.push(c), in_string: false }
    }
}

/// The state after the characters of `text`, read from `s` on.
pub open spec fn scan_from(s: Scan, text: Seq<char>, table: Seq<Entry>) -> Scan
    decreases text.len(),
{
    if text.len() == 0 {
        s
    } else {
        step(scan_from(s, text.drop_last(), table), text.last(), table)
    }
}

/// The state after the whole of `text`.
pub open spec fn scan(text: Seq<char>, table: Seq<Entry>) -> Scan {
    scan_from(start(), text, table)
}

/// What is written once the input has ended in state `s`: a word that is
/// still pending is written like any other.
pub open spec fn finish(s: Scan, table: Seq<Entry>) -> Seq<char> {
    s.out + flushed(s.word, table)
}

/// The rewritten text.
pub open spec fn rewrite(text: Seq<char>, table: Seq<Entry>) -> Seq<char> {
    finish(scan(text, table), table)
}

/// Rewrites `content`: each word outside a quoted literal is replaced by
/// what `usrgrm`, and after it `defengine`, give for it.
pub fn process_neit_file(content: &str, usrgrm: &[Grammar], defengine: &[Grammar]) -> (r: String)
    ensures
        r@ == rewrite(content@, usrgrm.deep_view() + defengine.deep_view()),
{
    let ghost table = usrgrm.deep_view() + defengine.deep_view();
    let mut out = String::new();
    let mut word = String::new();
    let mut in_string = false;
    for c in it: content.chars()
        invariant
            it.seq() == content@,
            table == usrgrm.deep_view() + defengine.deep_view(),
            scan(content@.take(it.index()), table) == (Scan {
                out: out@,
                word: word@,
                in_string,
            }),
    {
        let ghost before = scan(content@.take(it.index()), table);
        assert(content@.take(it.index() + 1).drop_last() == content@.take(it.index()));
        if c == '"' {
            in_string = !in_string;
            out.push(c);
        } else if in_string {
            out.push(c);
        } else if is_delimiter(c) {
            if !word.as_str().is_empty() {
                let replaced = replace_word(word.as_str(), usrgrm, defengine);
                out.append(replaced.as_str());
                word = String::new();
            }
            out.push(c);
        } else {
            word.push(c);
        }
        assert(word@ =~= step(before, c, table).word);
    }
    assert(content@.take(content@.len() as int) == content@);
    if !word.as_str().is_empty() {
        let replaced = replace_word(word.as_str(), usrgrm, defengine);
        out.append(replaced.as_str());
    }
    out
}

/// The number of quote characters in `text`.
pub open spec fn quotes(text: Seq<char>) -> nat
    decreases text.len(),
{
    if text.len() == 0 {
        0
    } else if text.last() == '"' {
        quotes(text.drop_last()) + 1
    } else {
        quotes(text.drop_last())
    }
}

/// The same state with nothing written yet.
pub open spec fn unwritten(s: Scan) -> Scan {
    Scan { out: Seq::empty(), word: s.word, in_string: s.in_string }
}

/// Reading one character is one step.
pub proof fn lemma_scan_one(s: Scan, c: char, table: Seq<Entry>)
    ensures
        scan_from(s, seq![c], table) == step(s, c, table),
{
    assert(scan_from(s, seq![c].drop_last(), table) == s);
}

/// Reading `a` and then `b` is reading `a + b`.
pub proof fn lemma_scan_concat(s: Scan, a: Seq<char>, b: Seq<char>, table: Seq<Entry>)
    ensures
        scan_from(s, a + b, table) == scan_from(scan_from(s, a, table), b, table),
    decreases b.len(),
{
    if b.len() > 0 {
        assert((a + b).drop_last() == a + b.drop_last());
        lemma_scan_concat(s, a, b.drop_last(), table);
    }
}

/// What has been written is never changed: a scan only adds to it, and what
/// it adds does not depend on it.
pub proof fn lemma_scan_appends(s: Scan, text: Seq<char>, table: Seq<Entry>)
    ensures
        scan_from(s, text, table).out == s.out + scan_from(unwritten(s), text, table).out,
        scan_from(s, text, table).word == scan_from(unwritten(s), text, table).word,
        scan_from(s, text, table).in_string == scan_from(unwritten(s), text, table).in_string,
    decreases text.len(),
{
    if text.len() > 0 {
        lemma_scan_appends(s, text.drop_last(), table);
    }
}

/// A scan is inside a literal exactly when it began inside one and has read
/// an even number of quotes, or began outside and has read an odd number.
pub proof fn lemma_scan_in_string(s: Scan, text: Seq<char>, table: Seq<Entry>)
    ensures
        scan_from(s, text, table).in_string == (s.in_string != (quotes(text) % 2 == 1)),
    decreases text.len(),
{
    if text.len() > 0 {
        lemma_scan_in_string(s, text.drop_last(), table);
    }
}

/// Inside a literal, text without a quote is copied as it is and leaves the
/// pending word alone.
pub proof fn lemma_scan_literal(s: Scan, lit: Seq<char>, table: Seq<Entry>)
    requires
        s.in_string,
        forall|i: int| 0 <= i < lit.len() ==> lit[i] != '"',
    ensures
        scan_from(s, lit, table) == (Scan { out: s.out + lit, word: s.word, in_string: true }),
    decreases lit.len(),
{
    if lit.len() > 0 {
        lemma_scan_literal(s, lit.drop_last(), table);
        assert((s.out + lit.drop_last()).push(lit.last()) == s.out + lit);
    }
}

/// A text of word characters alone is one word.
pub proof fn lemma_rewrite_word(word: Seq<char>, table: Seq<Entry>)
    requires
        forall|i: int| 0 <= i < word.len() ==> !delimiter(word[i]),
    ensures
        rewrite(word, table) == flushed(word, table),
{
    lemma_scan_word(word, table);
}

proof fn lemma_scan_word(word: Seq<char>, table: Seq<Entry>)
    requires
        forall|i: int| 0 <= i < word.len() ==> !delimiter(word[i]),
    ensures
        scan(word, table) == (Scan { out: Seq::empty(), word, in_string: false }),
    decreases word.len(),
{
    if word.len() > 0 {
        lemma_scan_word(word.drop_last(), table);
        assert(word.drop_last().push(word.last()) == word);
    } else {
        assert(word == Seq::<char>::empty());
    }
}

/// Every character that is not a word character is copied: a quote, a
/// character inside a quoted literal, a delimiter. It is written after all
/// that the text before it has had written, and what the text after it adds
/// comes behind it.
pub proof fn lemma_copied(a: Seq<char>, c: char, b: Seq<char>, table: Seq<Entry>)
    requires
        c == '"' || quotes(a) % 2 == 1 || delimiter(c),
    ensures
        ({
            let before = scan(a, table).out;
            let written = scan(a + seq![c], table).out;
            let out = rewrite(a + seq![c] + b, table);
            &&& before.len() < written.len() <= out.len()
            &&& written.take(before.len() as int) == before
            &&& written.last() == c
            &&& out.take(written.len() as int) == written
        }),
{
    let sa = scan(a, table);
    lemma_scan_in_string(start(), a, table);
    lemma_scan_one(sa, c, table);
    lemma_scan_concat(start(), a, seq![c], table);
    lemma_scan_concat(start(), a + seq![c], b, table);
    lemma_scan_appends(scan(a + seq![c], table), b, table);
}

/// A delimiter outside a quoted literal is copied to the place between what
/// the text before it becomes and what the text after it becomes: the two are
/// rewritten apart from each other.
pub proof fn lemma_delimiter_kept(a: Seq<char>, c: char, b: Seq<char>, table: Seq<Entry>)
    requires
        quotes(a) % 2 == 0,
        delimiter(c),
        c != '"',
    ensures
        rewrite(a + seq![c] + b, table) == rewrite(a, table) + seq![c] + rewrite(b, table),
{
    let sa = scan(a, table);
    lemma_scan_in_string(start(), a, table);
    lemma_scan_one(sa, c, table);
    lemma_scan_concat(start(), a, seq![c], table);
    lemma_scan_concat(start(), a + seq![c], b, table);
    lemma_scan_appends(step(sa, c, table), b, table);
}

/// A quoted literal is copied character for character, its quotes with it:
/// the output is that of the text without the literal, with the literal set
/// in after what had been written when its opening quote was read.
///
/// The literal opens at a quote that follows an even number of quotes and
/// closes at the next one, so `lit` holds no quote. What `lit` holds
/// otherwise does not matter, aliases included.
pub proof fn lemma_literal_kept(a: Seq<char>, lit: Seq<char>, b: Seq<char>, table: Seq<Entry>)
    requires
        quotes(a) % 2 == 0,
        forall|i: int| 0 <= i < lit.len() ==> lit[i] != '"',
    ensures
        ({
            let written = scan(a, table).out;
            let without = rewrite(a + b, table);
            &&& written.len() <= without.len()
            &&& without.take(written.len() as int) == written
            &&& rewrite(a + seq!['"'] + lit + seq!['"'] + b, table) == written + seq!['"'] + lit
                + seq!['"'] + without.skip(written.len() as int)
        }),
{
    let q = seq!['"'];
    let sa = scan(a, table);
    lemma_scan_in_string(start(), a, table);
    let s1 = step(sa, '"', table);
    lemma_scan_one(sa, '"', table);
    lemma_scan_concat(start(), a, q, table);
    lemma_scan_literal(s1, lit, table);
    let s2 = scan_from(s1, lit, table);
    lemma_scan_concat(start(), a + q, lit, table);
    let s3 = step(s2, '"', table);
    lemma_scan_one(s2, '"', table);
    lemma_scan_concat(start(), a + q + lit, q, table);
    lemma_scan_concat(start(), a + q + lit + q, b, table);
    lemma_scan_concat(start(), a, b, table);
    lemma_scan_appends(s3, b, table);
    lemma_scan_appends(sa, b, table);
}

/// A literal that is never closed runs to the end of the text and is copied
/// like any other; a word that was pending when it opened is written after
/// it.
pub proof fn lemma_open_literal_kept(a: Seq<char>, lit: Seq<char>, table: Seq<Entry>)
    requires
        quotes(a) % 2 == 0,
        forall|i: int| 0 <= i < lit.len() ==> lit[i] != '"',
    ensures
        rewrite(a + seq!['"'] + lit, table) == scan(a, table).out + seq!['"'] + lit + flushed(
            scan(a, table).word,
            table,
        ),
{
    let q = seq!['"'];
    let sa = scan(a, table);
    lemma_scan_in_string(start(), a, table);
    let s1 = step(sa, '"', table);
    lemma_scan_one(sa, '"', table);
    lemma_scan_concat(start(), a, q, table);
    lemma_scan_literal(s1, lit, table);
    lemma_scan_concat(start(), a + q, lit, table);
}

} // verus!
