//! The grammar table and the lookup of a word in it.

use vstd::prelude::*;

verus! {

/// One entry of a grammar table: the word `new`, where it occurs in a source
/// text, is replaced by `def`.
#[derive(Debug, Clone, PartialEq, Eq)]
pub struct Grammar {
    /// The canonical keyword that is written to the output.
    pub def: String,
    /// The alias that is looked for in the source text.
    pub new: String,
}

/// What an entry says: `alias` stands for `canonical`.
pub struct Entry {
    pub canonical: Seq<char>,
    pub alias: Seq<char>,
}

impl View for Grammar {
    type V = Entry;

    open spec fn view(&self) -> Entry {
        Entry { canonical: self.def@, alias: self.new@ }
    }
}

impl DeepView for Grammar {
    type V = Entry;

    open spec fn deep_view(&self) -> Entry {
        self@
    }
}

/// The entry at `i` is the first of `table` whose alias is `word`.
pub open spec fn first_match(word: Seq<char>, table: Seq<Entry>, i: int) -> bool {
    &&& 0 <= i < table.len()
    &&& table[i].alias == word
    &&& forall|j: int| 0 <= j < i ==> table[j].alias != word
}

/// What `word` is replaced by: the canonical value of the first entry whose
/// alias is exactly `word`, or `word` itself where no entry has that alias.
pub open spec fn resolve(word: Seq<char>, table: Seq<Entry>) -> Seq<char> {
    if exists|i: int| first_match(word, table, i) {
        table[choose|i: int| first_match(word, table, i)].canonical
    } else {
        word
    }
}

/// The first entry with the alias decides, whatever follows it.
pub proof fn lemma_resolve_match(word: Seq<char>, table: Seq<Entry>, i: int)
    requires
        first_match(word, table, i),
    ensures
        resolve(word, table) == table[i].canonical,
{
}

/// A word that is no entry's alias stays as it is.
pub proof fn lemma_resolve_none(word: Seq<char>, table: Seq<Entry>)
    requires
        forall|j: int| 0 <= j < table.len() ==> table[j].alias != word,
    ensures
        resolve(word, table) == word,
{
}

/// Earlier entries shadow later ones: a table followed by another answers
/// for every word that it has an entry for, and leaves the others to the
/// one that follows.
pub proof fn lemma_resolve_concat(word: Seq<char>, first: Seq<Entry>, second: Seq<Entry>)
    ensures
        resolve(word, first + second) == if exists|i: int|
            0 <= i < first.len() && first[i].alias == word {
            resolve(word, first)
        } else {
            resolve(word, second)
        },
{
    let both = first + second;
    if exists|i: int| 0 <= i < first.len() && first[i].alias == word {
        let i = choose|i: int| 0 <= i < first.len() && first[i].alias == word;
        let k = lemma_first_match_exists(word, first, i);
        assert(forall|j: int| 0 <= j < k ==> both[j].alias != word);
        lemma_resolve_match(word, first, k);
        lemma_resolve_match(word, both, k);
    } else if exists|i: int| first_match(word, second, i) {
        let k = choose|i: int| first_match(word, second, i);
        let n = first.len() as int;
        assert(forall|j: int| 0 <= j < n + k ==> both[j].alias != word);
        lemma_resolve_match(word, second, k);
        lemma_resolve_match(word, both, n + k);
    } else {
        assert forall|j: int| 0 <= j < second.len() implies second[j].alias != word by {
            if second[j].alias == word {
                lemma_first_match_exists(word, second, j);
            }
        }
        assert(forall|j: int| 0 <= j < both.len() ==> both[j].alias != word);
        lemma_resolve_none(word, both);
        lemma_resolve_none(word, second);
    }
}

/// Where some entry has the alias, one of them is the first.
proof fn lemma_first_match_exists(word: Seq<char>, table: Seq<Entry>, i: int) -> (k: int)
    requires
        0 <= i < table.len(),
        table[i].alias == word,
    ensures
        0 <= k <= i,
        first_match(word, table, k),
    decreases i,
{
    if exists|j: int| 0 <= j < i && table[j].alias == word {
        let j = choose|j: int| 0 <= j < i && table[j].alias == word;
        lemma_first_match_exists(word, table, j)
    } else {
        i
    }
}

/// The replacement of `word`: the tables are searched in the order given,
/// `usrgrm` before `defengine`, each from its first entry on.
pub fn replace_word(word: &str, usrgrm: &[Grammar], defengine: &[Grammar]) -> (r: String)
    ensures
        r@ == resolve(word@, usrgrm.deep_view() + defengine.deep_view()),
{
    let ghost table = usrgrm.deep_view() + defengine.deep_view();
    let unchanged = word.to_owned();
    let mut i: usize = 0;
    while i < usrgrm.len()
        invariant
            i <= usrgrm@.len(),
            unchanged@ == word@,
            table == usrgrm.deep_view() + defengine.deep_view(),
            forall|j: int| 0 <= j < i ==> table[j].alias != word@,
        decreases usrgrm@.len() - i,
    {
        if usrgrm[i].new == unchanged {
            proof {
                lemma_resolve_match(word@, table, i as int);
            }
            return usrgrm[i].def.clone();
        }
        i += 1;
    }
    let mut k: usize = 0;
    while k < defengine.len()
        invariant
            i == usrgrm@.len(),
            k <= defengine@.len(),
            unchanged@ == word@,
            table == usrgrm.deep_view() + defengine.deep_view(),
            forall|j: int| 0 <= j < i + k ==> table[j].alias != word@,
        decreases defengine@.len() - k,
    {
        if defengine[k].new == unchanged {
            proof {
                lemma_resolve_match(word@, table, i + k);
            }
            return defengine[k].def.clone();
        }
        k += 1;
    }
    proof {
        lemma_resolve_none(word@, table);
    }
    unchanged
}

/// The entry that maps `word` to itself.
pub open spec fn identity(word: Seq<char>) -> Entry {
    Entry { canonical: word, alias: word }
}

/// The built-in table: an identity entry for each keyword of the language.
pub open spec fn default_table() -> Seq<Entry> {
    seq![
        identity("fn"@),
        identity("may"@),
        identity("must"@),
        identity("="@),
        identity("pub"@),
        identity("takein"@),
        identity("println"@),
        identity("print"@),
    ]
}

fn keyword(word: &str) -> (g: Grammar)
    ensures
        g@ == identity(word@),
{
    Grammar { def: word.to_owned(), new: word.to_owned() }
}

/// The built-in table.
pub fn gen_grm() -> (table: Vec<Grammar>)
    ensures
        table.deep_view() == default_table(),
{
    let mut table: Vec<Grammar> = Vec::new();
    table.push(keyword("fn"));
    table.push(keyword("may"));
    table.push(keyword("must"));
    table.push(keyword("="));
    table.push(keyword("pub"));
    table.push(keyword("takein"));
    table.push(keyword("println"));
    table.push(keyword("print"));
    table
}

/// A word that has a built-in entry and no entry of its own in `entries`
/// is replaced by itself.
pub proof fn lemma_default_is_identity(word: Seq<char>, entries: Seq<Entry>)
    requires
        exists|i: int| 0 <= i < default_table().len() && default_table()[i].alias == word,
        forall|j: int| 0 <= j < entries.len() ==> entries[j].alias != word,
    ensures
        resolve(word, entries + default_table()) == word,
{
    lemma_resolve_concat(word, entries, default_table());
    let i = choose|i: int| 0 <= i < default_table().len() && default_table()[i].alias == word;
    let k = lemma_first_match_exists(word, default_table(), i);
    lemma_resolve_match(word, default_table(), k);
}

/// An entry of `entries` goes before every built-in entry with the same
/// alias: the word is replaced by what the first of `entries` with that alias
/// says.
pub proof fn lemma_entry_shadows_default(word: Seq<char>, entries: Seq<Entry>, i: int)
    requires
        first_match(word, entries, i),
    ensures
        resolve(word, entries + default_table()) == entries[i].canonical,
{
    lemma_resolve_concat(word, entries, default_table());
    lemma_resolve_match(word, entries, i);
}

} // verus!
