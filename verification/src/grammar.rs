//! Grammar texts: one entry per line, written `canonical~alias`.

use crate::table::{Entry, Grammar};
use crate::text::{
    find, is_trimmed, lemma_split_len, lemma_trim_is_trimmed, lines, occurrences, split,
    split_lines, substring, to_chars, trim, trim_bounds,
};
use vstd::prelude::*;

verus! {

/// A line of a grammar text that is neither a comment nor an entry.
#[derive(Debug, Clone, PartialEq, Eq)]
pub struct MalformedGrammarLine {
    /// The path of the grammar text, as the caller gave it.
    pub path: String,
    /// The number of the line in the text; the first line has the number one.
    pub line_number: usize,
    /// The line as it stands in the text, without its line ending.
    pub line: String,
}

/// What a `MalformedGrammarLine` says.
pub struct MalformedLine {
    pub path: Seq<char>,
    pub line_number: nat,
    pub line: Seq<char>,
}

impl View for MalformedGrammarLine {
    type V = MalformedLine;

    open spec fn view(&self) -> MalformedLine {
        MalformedLine {
            path: self.path@,
            line_number: self.line_number as nat,
            line: self.line@,
        }
    }
}

/// What one line of a grammar text is.
pub enum Line {
    /// The line starts with `#` and says nothing.
    Comment,
    /// The line has two parts around one `~`.
    Mapping(Entry),
    /// The line has one part, or more than two.
    Invalid,
}

/// The line starts with `#`.
pub open spec fn is_comment(line: Seq<char>) -> bool {
    line.len() > 0 && line[0] == '#'
}

/// Reads one line. Both parts of an entry are trimmed of whitespace.
pub open spec fn parsed_line(line: Seq<char>) -> Line {
    if is_comment(line) {
        Line::Comment
    } else {
        let parts = split(line, '~');
        if parts.len() == 2 {
            Line::Mapping(Entry { canonical: trim(parts[0]), alias: trim(parts[1]) })
        } else {
            Line::Invalid
        }
    }
}

/// The entries that `lines` hold, in the order of the lines.
pub open spec fn entries_of(lines: Seq<Seq<char>>) -> Seq<Entry>
    decreases lines.len(),
{
    if lines.len() == 0 {
        Seq::empty()
    } else {
        let before = entries_of(lines.drop_last());
        match parsed_line(lines.last()) {
            Line::Mapping(e) => before.push(e),
            _ => before,
        }
    }
}

/// The line at `k` is the first of `lines` that is invalid.
pub open spec fn first_invalid(lines: Seq<Seq<char>>, k: int) -> bool {
    &&& 0 <= k < lines.len()
    &&& parsed_line(lines[k]) is Invalid
    &&& forall|j: int| 0 <= j < k ==> !(parsed_line(lines[j]) is Invalid)
}

/// Reads a whole grammar text: the entries of all its lines, or its first
/// invalid line with the number of that line, counted from one over every
/// line of the text.
pub open spec fn parsed_grammar(path: Seq<char>, content: Seq<char>) -> Result<
    Seq<Entry>,
    MalformedLine,
> {
    let ls = lines(content);
    if exists|k: int| first_invalid(ls, k) {
        let k = choose|k: int| first_invalid(ls, k);
        Err(MalformedLine { path, line_number: (k + 1) as nat, line: ls[k] })
    } else {
        Ok(entries_of(ls))
    }
}

/// Reads one line of a grammar text. `file_path` and `line_number` are
/// handed on to the error and have no other use.
pub fn parse_entry(file_path: &str, line_number: usize, line: &str) -> (r: Result<
    Option<Grammar>,
    MalformedGrammarLine,
>)
    ensures
        match parsed_line(line@) {
            Line::Comment => r matches Ok(None),
            Line::Mapping(e) => r matches Ok(Some(g)) && g@ == e,
            Line::Invalid => r matches Err(err) && err@ == (MalformedLine {
                path: file_path@,
                line_number: line_number as nat,
                line: line@,
            }),
        },
{
    let chars = to_chars(line);
    let n = chars.len();
    if n > 0 && chars[0] == '#' {
        return Ok(None);
    }
    let ghost s = chars@;
    assert(s.skip(0) == s);
    let i = find(chars.as_slice(), 0, '~');
    if i < n {
        let ghost rest = s.skip(i + 1);
        let k = find(chars.as_slice(), i + 1, '~');
        if k == n {
            assert(split(rest, '~') == seq![rest]);
            let (a, b) = trim_bounds(chars.as_slice(), 0, i);
            let (c, d) = trim_bounds(chars.as_slice(), i + 1, n);
            let def = substring(chars.as_slice(), a, b);
            let new = substring(chars.as_slice(), c, d);
            return Ok(Some(Grammar { def, new }));
        }
        proof {
            lemma_split_len(s, '~');
            lemma_split_len(rest, '~');
            lemma_split_len(rest.skip(k - i), '~');
        }
    }
    Err(
        MalformedGrammarLine {
            path: file_path.to_owned(),
            line_number,
            line: line.to_owned(),
        },
    )
}

/// Two lines cannot both be the first invalid one.
proof fn lemma_first_invalid_unique(lines: Seq<Seq<char>>, k: int, m: int)
    requires
        first_invalid(lines, k),
        first_invalid(lines, m),
    ensures
        k == m,
{
}

/// A line is invalid exactly when it is no comment and holds no `~`, or
/// more than one.
pub proof fn lemma_invalid_line(line: Seq<char>)
    ensures
        parsed_line(line) is Invalid <==> !is_comment(line) && occurrences(line, '~') != 1,
{
    lemma_split_len(line, '~');
}

/// Where some line is invalid, one of them is the first.
proof fn lemma_first_invalid_exists(lines: Seq<Seq<char>>, k: int) -> (m: int)
    requires
        0 <= k < lines.len(),
        parsed_line(lines[k]) is Invalid,
    ensures
        0 <= m <= k,
        first_invalid(lines, m),
    decreases k,
{
    if exists|j: int| 0 <= j < k && parsed_line(lines[j]) is Invalid {
        let j = choose|j: int| 0 <= j < k && parsed_line(lines[j]) is Invalid;
        lemma_first_invalid_exists(lines, j)
    } else {
        k
    }
}

/// One invalid line fails the whole text, whatever its other lines hold.
/// The error cites the first invalid line of the text: its number, counted
/// from one, and the line itself.
pub proof fn lemma_invalid_line_fails(path: Seq<char>, content: Seq<char>, k: int)
    requires
        0 <= k < lines(content).len(),
        !is_comment(lines(content)[k]),
        occurrences(lines(content)[k], '~') != 1,
    ensures
        parsed_grammar(path, content) matches Err(e) && {
            &&& e.path == path
            &&& 1 <= e.line_number <= k + 1
            &&& e.line == lines(content)[e.line_number - 1]
            &&& first_invalid(lines(content), e.line_number - 1)
        },
{
    let ls = lines(content);
    lemma_invalid_line(ls[k]);
    let m = lemma_first_invalid_exists(ls, k);
    let c = choose|c: int| first_invalid(ls, c);
    lemma_first_invalid_unique(ls, c, m);
}

/// A text without an invalid line is read to its end, and every entry that
/// comes out of it is trimmed.
pub proof fn lemma_valid_grammar(path: Seq<char>, content: Seq<char>)
    requires
        forall|k: int|
            0 <= k < lines(content).len() ==> is_comment(#[trigger] lines(content)[k])
                || occurrences(lines(content)[k], '~') == 1,
    ensures
        parsed_grammar(path, content) == Ok::<Seq<Entry>, MalformedLine>(
            entries_of(lines(content)),
        ),
        forall|i: int|
            0 <= i < entries_of(lines(content)).len() ==> is_trimmed(
                (#[trigger] entries_of(lines(content))[i]).canonical,
            ) && is_trimmed(entries_of(lines(content))[i].alias),
{
    let ls = lines(content);
    assert forall|k: int| 0 <= k < ls.len() implies !(parsed_line(ls[k]) is Invalid) by {
        lemma_invalid_line(ls[k]);
    }
    lemma_entries_trimmed(ls);
}

proof fn lemma_entries_trimmed(lines: Seq<Seq<char>>)
    ensures
        forall|i: int|
            0 <= i < entries_of(lines).len() ==> is_trimmed(
                (#[trigger] entries_of(lines)[i]).canonical,
            ) && is_trimmed(entries_of(lines)[i].alias),
    decreases lines.len(),
{
    if lines.len() > 0 {
        let before = entries_of(lines.drop_last());
        lemma_entries_trimmed(lines.drop_last());
        let parts = split(lines.last(), '~');
        if parts.len() == 2 {
            lemma_trim_is_trimmed(parts[0]);
            lemma_trim_is_trimmed(parts[1]);
        }
        assert forall|i: int| 0 <= i < entries_of(lines).len() implies is_trimmed(
            (#[trigger] entries_of(lines)[i]).canonical,
        ) && is_trimmed(entries_of(lines)[i].alias) by {
            if i < before.len() {
                assert(entries_of(lines)[i] == before[i]);
            }
        }
    }
}

/// Reads a whole grammar text. `file_path` is handed on to the error and has
/// no other use.
pub fn parse_grammar(file_path: &str, content: &str) -> (r: Result<
    Vec<Grammar>,
    MalformedGrammarLine,
>)
    ensures
        match parsed_grammar(file_path@, content@) {
            Ok(entries) => r matches Ok(table) && table.deep_view() == entries,
            Err(e) => r matches Err(err) && err@ == e,
        },
{
    let found = split_lines(content);
    let ghost ls = lines(content@);
    let mut table: Vec<Grammar> = Vec::new();
    let mut i: usize = 0;
    while i < found.len()
        invariant
            i <= found@.len(),
            found.deep_view() == ls,
            ls == lines(content@),
            forall|j: int| 0 <= j < i ==> !(parsed_line(ls[j]) is Invalid),
            table.deep_view() == entries_of(ls.take(i as int)),
        decreases found@.len() - i,
    {
        assert(ls.take(i + 1).drop_last() == ls.take(i as int));
        match parse_entry(file_path, i + 1, found[i].as_str()) {
            Ok(Some(g)) => {
                table.push(g);
            },
            Ok(None) => {},
            Err(err) => {
                proof {
                    assert(first_invalid(ls, i as int));
                    let k = choose|k: int| first_invalid(ls, k);
                    lemma_first_invalid_unique(ls, k, i as int);
                }
                return Err(err);
            },
        }
        i += 1;
    }
    assert(ls.take(i as int) == ls);
    Ok(table)
}

/// Reads a grammar text and adds its entries to the end of `usrgrm`. Where a
/// line is invalid, `usrgrm` stays as it was.
pub fn process_grammar_file(file_path: &str, content: &str, usrgrm: &mut Vec<Grammar>) -> (r:
    Result<(), MalformedGrammarLine>)
    ensures
        match parsed_grammar(file_path@, content@) {
            Ok(entries) => r is Ok && final(usrgrm).deep_view() == old(usrgrm).deep_view()
                + entries,
            Err(e) => r matches Err(err) && err@ == e && final(usrgrm).deep_view() == old(
                usrgrm,
            ).deep_view(),
        },
{
    match parse_grammar(file_path, content) {
        Ok(mut table) => {
            usrgrm.append(&mut table);
            Ok(())
        },
        Err(err) => Err(err),
    }
}

} // verus!
