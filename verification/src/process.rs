//! From what was read from the files to the rewritten text, or to the first
//! fault.

use crate::grammar::{
    first_invalid, is_comment, lemma_invalid_line_fails, parsed_grammar, process_grammar_file,
    MalformedGrammarLine, MalformedLine,
};
use crate::rewrite::{process_neit_file, rewrite};
use crate::table::{default_table, gen_grm, Entry, Grammar};
use crate::text::{lines, occurrences};
use vstd::prelude::*;

verus! {

/// What reading a file gave.
#[derive(Debug, Clone, PartialEq, Eq)]
pub enum Loaded {
    /// The whole content of the file.
    Text(String),
    /// The file could not be opened.
    Missing,
    /// The file was opened and could not be read to its end; the text says
    /// why.
    Unreadable(String),
}

/// A file as the caller found it.
#[derive(Debug, Clone, PartialEq, Eq)]
pub struct Source {
    pub path: String,
    pub loaded: Loaded,
}

/// What a file is read for.
#[derive(Debug, Clone, Copy, PartialEq, Eq)]
pub enum FileKind {
    /// A grammar text.
    Grammar,
    /// The source text that is rewritten.
    Neit,
}

/// Why there is no output.
#[derive(Debug, Clone, PartialEq, Eq)]
pub enum Error {
    MissingFile { kind: FileKind, path: String },
    ReadFailure { kind: FileKind, path: String, reason: String },
    MalformedGrammarLine(MalformedGrammarLine),
}

/// What an `Error` says.
pub enum Fault {
    MissingFile { kind: FileKind, path: Seq<char> },
    ReadFailure { kind: FileKind, path: Seq<char>, reason: Seq<char> },
    MalformedGrammarLine(MalformedLine),
}

impl View for Error {
    type V = Fault;

    open spec fn view(&self) -> Fault {
        match self {
            Error::MissingFile { kind, path } => Fault::MissingFile { kind: *kind, path: path@ },
            Error::ReadFailure { kind, path, reason } => Fault::ReadFailure {
                kind: *kind,
                path: path@,
                reason: reason@,
            },
            Error::MalformedGrammarLine(line) => Fault::MalformedGrammarLine(line@),
        }
    }
}

/// The content of a file, or the fault of a file that has none.
pub open spec fn content_of(file: &Source, kind: FileKind) -> Result<Seq<char>, Fault> {
    match file.loaded {
        Loaded::Text(content) => Ok(content@),
        Loaded::Missing => Err(Fault::MissingFile { kind, path: file.path@ }),
        Loaded::Unreadable(reason) => Err(
            Fault::ReadFailure { kind, path: file.path@, reason: reason@ },
        ),
    }
}

/// The entries of one grammar file.
pub open spec fn file_entries(file: &Source) -> Result<Seq<Entry>, Fault> {
    match content_of(file, FileKind::Grammar) {
        Err(fault) => Err(fault),
        Ok(content) => match parsed_grammar(file.path@, content) {
            Ok(entries) => Ok(entries),
            Err(line) => Err(Fault::MalformedGrammarLine(line)),
        },
    }
}

/// The entries that the grammar files supply: those of the input grammar,
/// then those of the user grammar. An input grammar with an empty path
/// stands for none at all, and what was read for it is not looked at. A
/// fault of the input grammar goes before one of the user grammar.
pub open spec fn supplied_entries(input_file: &Source, user_grammar_file: Option<&Source>) -> Result<
    Seq<Entry>,
    Fault,
> {
    let first = if input_file.path@.len() == 0 {
        Ok(Seq::empty())
    } else {
        file_entries(input_file)
    };
    let second = match user_grammar_file {
        Some(file) => file_entries(file),
        None => Ok(Seq::empty()),
    };
    match (first, second) {
        (Err(fault), _) => Err(fault),
        (Ok(_), Err(fault)) => Err(fault),
        (Ok(a), Ok(b)) => Ok(a + b),
    }
}

/// What `process_files` returns: the source text rewritten by the supplied
/// entries followed by the built-in ones, or the empty text where no source
/// file is named. A fault of a grammar file goes before one of the source
/// file, and with any fault there is no output.
pub open spec fn processed(
    input_file: &Source,
    user_grammar_file: Option<&Source>,
    neit_file: Option<&Source>,
) -> Result<Seq<char>, Fault> {
    match supplied_entries(input_file, user_grammar_file) {
        Err(fault) => Err(fault),
        Ok(entries) => match neit_file {
            None => Ok(Seq::empty()),
            Some(file) => match content_of(file, FileKind::Neit) {
                Err(fault) => Err(fault),
                Ok(text) => Ok(rewrite(text, entries + default_table())),
            },
        },
    }
}

/// The content of a file, or the error of a file that has none.
fn content<'a>(file: &'a Source, kind: FileKind) -> (r: Result<&'a str, Error>)
    ensures
        match content_of(file, kind) {
            Ok(text) => r matches Ok(s) && s@ == text,
            Err(fault) => r matches Err(err) && err@ == fault,
        },
{
    match &file.loaded {
        Loaded::Text(content) => Ok(content.as_str()),
        Loaded::Missing => Err(Error::MissingFile { kind, path: file.path.clone() }),
        Loaded::Unreadable(reason) => Err(
            Error::ReadFailure { kind, path: file.path.clone(), reason: reason.clone() },
        ),
    }
}

/// Adds the entries of one grammar file to the end of `usrgrm`.
fn load_grammar(file: &Source, usrgrm: &mut Vec<Grammar>) -> (r: Result<(), Error>)
    ensures
        match file_entries(file) {
            Ok(entries) => r is Ok && final(usrgrm).deep_view() == old(usrgrm).deep_view()
                + entries,
            Err(fault) => r matches Err(err) && err@ == fault,
        },
{
    let text = content(file, FileKind::Grammar)?;
    match process_grammar_file(file.path.as_str(), text, usrgrm) {
        Ok(()) => Ok(()),
        Err(line) => Err(Error::MalformedGrammarLine(line)),
    }
}

/// Builds the table from the grammar files and rewrites the source text
/// with it.
pub fn process_files(
    input_file: &Source,
    user_grammar_file: Option<&Source>,
    neit_file: Option<&Source>,
) -> (r: Result<String, Error>)
    ensures
        match processed(input_file, user_grammar_file, neit_file) {
            Ok(text) => r matches Ok(out) && out@ == text,
            Err(fault) => r matches Err(err) && err@ == fault,
        },
{
    let defengine = gen_grm();
    let mut usrgrm: Vec<Grammar> = Vec::new();
    if !input_file.path.as_str().is_empty() {
        load_grammar(input_file, &mut usrgrm)?;
    }
    if let Some(file) = user_grammar_file {
        load_grammar(file, &mut usrgrm)?;
    }
    match neit_file {
        None => Ok(String::new()),
        Some(file) => {
            let text = content(file, FileKind::Neit)?;
            Ok(process_neit_file(text, usrgrm.as_slice(), defengine.as_slice()))
        },
    }
}

/// One line with no `~`, or with more than one, in a grammar file that is
/// read leaves no output, whatever the other lines and the source text
/// hold. Unless the input grammar has a fault that goes before it, the error
/// cites the first invalid line of that file: its path, the number of the
/// line and the line itself.
pub proof fn lemma_invalid_line_leaves_no_output(
    input_file: &Source,
    user_grammar_file: Option<&Source>,
    neit_file: Option<&Source>,
    file: &Source,
    k: int,
)
    requires
        (input_file.path@.len() > 0 && file == input_file) || user_grammar_file == Some(file),
        file.loaded is Text,
        0 <= k < lines(file.loaded->Text_0@).len(),
        !is_comment(lines(file.loaded->Text_0@)[k]),
        occurrences(lines(file.loaded->Text_0@)[k], '~') != 1,
    ensures
        processed(input_file, user_grammar_file, neit_file) is Err,
        file == input_file || input_file.path@.len() == 0 || file_entries(input_file) is Ok ==> (
        processed(input_file, user_grammar_file, neit_file) matches Err(
            Fault::MalformedGrammarLine(e),
        ) && {
            &&& e.path == file.path@
            &&& 1 <= e.line_number <= k + 1
            &&& e.line == lines(file.loaded->Text_0@)[e.line_number - 1]
            &&& first_invalid(lines(file.loaded->Text_0@), e.line_number - 1)
        }),
{
    lemma_invalid_line_fails(file.path@, file.loaded->Text_0@, k);
}

} // verus!
