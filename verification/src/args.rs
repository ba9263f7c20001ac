//! Command-line tokens: joining the tokens that a shell has split at a dot,
//! and reading the three paths out of them.

use crate::text::{substring, to_chars};
use vstd::prelude::*;

verus! {

/// A token that starts with a dot continues the token before it.
pub open spec fn continues(arg: Seq<char>) -> bool {
    arg.len() > 0 && arg[0] == '.'
}

/// The tokens after joining: each token that starts with a dot is appended
/// to what the tokens before it have become. The first token has nothing
/// before it and stays a token of its own, dot or no dot.
pub open spec fn combined(args: Seq<Seq<char>>) -> Seq<Seq<char>>
    decreases args.len(),
{
    if args.len() == 0 {
        Seq::empty()
    } else {
        let before = combined(args.drop_last());
        if before.len() > 0 && continues(args.last()) {
            before.update(before.len() - 1, before.last() + args.last())
        } else {
            before.push(args.last())
        }
    }
}

/// Joining never leaves a list of tokens empty.
pub proof fn lemma_combined_len(args: Seq<Seq<char>>)
    ensures
        combined(args).len() <= args.len(),
        args.len() > 0 ==> combined(args).len() > 0,
    decreases args.len(),
{
    if args.len() > 0 {
        lemma_combined_len(args.drop_last());
    }
}

fn starts_with_dot(arg: &str) -> (r: bool)
    ensures
        r == continues(arg@),
{
    !arg.is_empty() && arg.get_char(0) == '.'
}

/// Joins each token that starts with a dot onto the token before it.
pub fn combine_args(args: Vec<String>) -> (r: Vec<String>)
    ensures
        r.deep_view() == combined(args.deep_view()),
{
    let ghost all = args.deep_view();
    let mut r: Vec<String> = Vec::new();
    let mut i: usize = 0;
    while i < args.len()
        invariant
            i <= args.len(),
            all == args.deep_view(),
            r.deep_view() == combined(all.take(i as int)),
            0 < i < args.len() ==> !continues(all[i as int]),
        decreases args.len() - i,
    {
        let ghost done = r.deep_view();
        let ghost head = i;
        let mut arg = args[i].clone();
        proof {
            lemma_combined_len(all.take(i as int));
            assert(all.take(i + 1).drop_last() == all.take(i as int));
        }
        while i + 1 < args.len() && starts_with_dot(args[i + 1].as_str())
            invariant
                head <= i < args.len(),
                all == args.deep_view(),
                done == r.deep_view(),
                combined(all.take(i + 1)) == done.push(arg@),
            decreases args.len() - i,
        {
            assert(all.take(i + 2).drop_last() == all.take(i + 1));
            arg.append(args[i + 1].as_str());
            i += 1;
        }
        r.push(arg);
        i += 1;
    }
    assert(all.take(i as int) == all);
    r
}

/// The paths that an invocation names. A path that no token gave is empty.
#[derive(Debug, Clone, PartialEq, Eq)]
pub struct Invocation {
    /// The input grammar, given as `-i=<path>`.
    pub input_file: String,
    /// The user grammar, given as `-u=<path>`.
    pub user_grammar_file: String,
    /// The source text, given as `-nf=<path>`.
    pub neit_file: String,
}

/// What an `Invocation` holds.
pub struct Paths {
    pub input_file: Seq<char>,
    pub user_grammar_file: Seq<char>,
    pub neit_file: Seq<char>,
}

impl View for Invocation {
    type V = Paths;

    open spec fn view(&self) -> Paths {
        Paths {
            input_file: self.input_file@,
            user_grammar_file: self.user_grammar_file@,
            neit_file: self.neit_file@,
        }
    }
}

/// Why the tokens of a command line name no invocation.
#[derive(Debug, Clone, PartialEq, Eq)]
pub enum ArgumentError {
    /// There is no token after the program's name.
    MissingArguments,
    /// The token starts with none of the three flags.
    UnknownArgument(String),
}

/// What an `ArgumentError` says.
pub enum ArgumentFault {
    Missing,
    Unknown(Seq<char>),
}

impl View for ArgumentError {
    type V = ArgumentFault;

    open spec fn view(&self) -> ArgumentFault {
        match self {
            ArgumentError::MissingArguments => ArgumentFault::Missing,
            ArgumentError::UnknownArgument(arg) => ArgumentFault::Unknown(arg@),
        }
    }
}

/// `s` without `prefix` at its start, as often as it stands there.
pub open spec fn strip_prefixes(s: Seq<char>, prefix: Seq<char>) -> Seq<char>
    decreases s.len(),
{
    if prefix.len() > 0 && prefix.is_prefix_of(s) {
        strip_prefixes(s.skip(prefix.len() as int), prefix)
    } else {
        s
    }
}

/// The paths after one more token, or `None` where the token starts with no
/// flag. A flag given again replaces the path it gave before.
pub open spec fn with_arg(paths: Paths, arg: Seq<char>) -> Option<Paths> {
    if "-i="@.is_prefix_of(arg) {
        Some(Paths { input_file: strip_prefixes(arg, "-i="@), ..paths })
    } else if "-u="@.is_prefix_of(arg) {
        Some(Paths { user_grammar_file: strip_prefixes(arg, "-u="@), ..paths })
    } else if "-nf="@.is_prefix_of(arg) {
        Some(Paths { neit_file: strip_prefixes(arg, "-nf="@), ..paths })
    } else {
        None
    }
}

/// The paths after all of `args`, or the first of them that starts with no
/// flag.
pub open spec fn with_args(paths: Paths, args: Seq<Seq<char>>) -> Result<Paths, Seq<char>>
    decreases args.len(),
{
    if args.len() == 0 {
        Ok(paths)
    } else {
        match with_args(paths, args.drop_last()) {
            Err(arg) => Err(arg),
            Ok(before) => match with_arg(before, args.last()) {
                Some(after) => Ok(after),
                None => Err(args.last()),
            },
        }
    }
}

/// No path given.
pub open spec fn no_paths() -> Paths {
    Paths { input_file: Seq::empty(), user_grammar_file: Seq::empty(), neit_file: Seq::empty() }
}

/// What the tokens of a command line name. The first token is the program's
/// name and is passed over.
pub open spec fn parsed_args(args: Seq<Seq<char>>) -> Result<Paths, ArgumentFault> {
    if args.len() < 2 {
        Err(ArgumentFault::Missing)
    } else {
        match with_args(no_paths(), args.skip(1)) {
            Ok(paths) => Ok(paths),
            Err(arg) => Err(ArgumentFault::Unknown(arg)),
        }
    }
}

/// Whether `chars[from..]` starts with `prefix`.
fn has_prefix(chars: &[char], from: usize, prefix: &[char]) -> (r: bool)
    requires
        from <= chars.len(),
    ensures
        r == prefix@.is_prefix_of(chars@.skip(from as int)),
{
    if prefix.len() > chars.len() - from {
        return false;
    }
    let ghost rest = chars@.skip(from as int);
    let mut k: usize = 0;
    while k < prefix.len()
        invariant
            k <= prefix.len() <= chars.len() - from,
            rest == chars@.skip(from as int),
            forall|j: int| 0 <= j < k ==> prefix@[j] == rest[j],
        decreases prefix.len() - k,
    {
        if prefix[k] != chars[from + k] {
            return false;
        }
        k += 1;
    }
    true
}

/// The value of a flag: the token without the flag at its start, as often as
/// it stands there. `None` where the token does not start with the flag.
fn flag_value(chars: &[char], flag: &[char]) -> (r: Option<String>)
    ensures
        match r {
            Some(value) => flag@.is_prefix_of(chars@) && value@ == strip_prefixes(chars@, flag@),
            None => !flag@.is_prefix_of(chars@),
        },
{
    assert(chars@.skip(0) == chars@);
    if !has_prefix(chars, 0, flag) {
        return None;
    }
    let mut from: usize = 0;
    while flag.len() > 0 && has_prefix(chars, from, flag)
        invariant
            from <= chars.len(),
            strip_prefixes(chars@, flag@) == strip_prefixes(chars@.skip(from as int), flag@),
        decreases chars.len() - from,
    {
        assert(chars@.skip(from as int).skip(flag@.len() as int) == chars@.skip(
            from + flag@.len(),
        ));
        from += flag.len();
    }
    Some(substring(chars, from, chars.len()))
}

/// Reads the paths out of the tokens of a command line, the program's name
/// first.
pub fn parse_args(args: &[String]) -> (r: Result<Invocation, ArgumentError>)
    ensures
        match parsed_args(args.deep_view()) {
            Ok(paths) => r matches Ok(invocation) && invocation@ == paths,
            Err(e) => r matches Err(err) && err@ == e,
        },
{
    if args.len() < 2 {
        return Err(ArgumentError::MissingArguments);
    }
    let input_flag = to_chars("-i=");
    let user_flag = to_chars("-u=");
    let neit_flag = to_chars("-nf=");
    let ghost rest = args.deep_view().skip(1);
    let mut invocation = Invocation {
        input_file: String::new(),
        user_grammar_file: String::new(),
        neit_file: String::new(),
    };
    let mut i: usize = 1;
    while i < args.len()
        invariant
            1 <= i <= args.len(),
            rest == args.deep_view().skip(1),
            input_flag@ == "-i="@,
            user_flag@ == "-u="@,
            neit_flag@ == "-nf="@,
            with_args(no_paths(), rest.take(i - 1)) == Ok::<Paths, Seq<char>>(invocation@),
        decreases args.len() - i,
    {
        assert(rest.take(i as int).drop_last() == rest.take(i - 1));
        let chars = to_chars(args[i].as_str());
        if let Some(value) = flag_value(chars.as_slice(), input_flag.as_slice()) {
            invocation.input_file = value;
        } else if let Some(value) = flag_value(chars.as_slice(), user_flag.as_slice()) {
            invocation.user_grammar_file = value;
        } else if let Some(value) = flag_value(chars.as_slice(), neit_flag.as_slice()) {
            invocation.neit_file = value;
        } else {
            proof {
                lemma_with_args_fails(no_paths(), rest, i - 1);
            }
            return Err(ArgumentError::UnknownArgument(args[i].clone()));
        }
        i += 1;
    }
    assert(rest.take(i - 1) == rest);
    Ok(invocation)
}

/// Once a token is refused, the tokens after it are not read.
proof fn lemma_with_args_fails(paths: Paths, args: Seq<Seq<char>>, k: int)
    requires
        0 <= k < args.len(),
        with_args(paths, args.take(k + 1)) is Err,
    ensures
        with_args(paths, args) == with_args(paths, args.take(k + 1)),
    decreases args.len(),
{
    if args.len() == k + 1 {
        assert(args.take(k + 1) == args);
    } else {
        assert(args.drop_last().take(k + 1) == args.take(k + 1));
        lemma_with_args_fails(paths, args.drop_last(), k);
    }
}

} // verus!
