//! Frequency tables: how often each run of one to four distinct letters
//! occurs in a corpus.

use crate::ngram::{
    code_gram, count_grams, counted_before, counted_entries, gram_code, is_gram,
    lemma_code_bounds, lemma_code_gives_gram, lemma_code_space_values, lemma_gram_gives_code,
    lemma_occurrences_bounds, occurrences, push_gram, windows, MAX_ARITY, MAX_CORPUS,
};
use crate::ranking::{ranks_before, top_ranked};
use vstd::prelude::*;

verus! {

/// Largest count that a table holds; a corpus has at most this many bytes.
pub const MAX_COUNT: i64 = 4_294_967_295;

/// Largest number of entries that a table may be asked to keep.
pub const MAX_SAMPLES_LIMIT: usize = 10_000;

/// Number of entries that a table keeps unless told otherwise.
pub const MAX_SAMPLES_PER_CATEGORY: usize = 1000;

/// A run of letters and the number of its occurrences, as contracts see it.
pub struct Gram {
    pub letters: Seq<u8>,
    pub count: int,
}

/// The four tables, as contracts see them.
pub struct Tables {
    pub singles: Seq<Gram>,
    pub doubles: Seq<Gram>,
    pub triples: Seq<Gram>,
    pub quadruples: Seq<Gram>,
}

pub open spec fn valid_entry(entry: Gram, arity: int) -> bool {
    &&& is_gram(entry.letters, arity)
    &&& 1 <= entry.count <= MAX_COUNT
}

/// A table of runs of `arity` letters: bounded in length, each run listed once.
pub open spec fn valid_table(table: Seq<Gram>, arity: int) -> bool {
    &&& table.len() <= MAX_SAMPLES_LIMIT
    &&& forall|i: int| 0 <= i < table.len() ==> valid_entry(#[trigger] table[i], arity)
    &&& forall|i: int, j: int|
        0 <= i < j < table.len() ==> (#[trigger] table[i]).letters != (#[trigger] table[j]).letters
}

/// Entry `a` is listed before entry `b`: the higher count first, and of two
/// runs with one count the one that is first in the alphabet (the ranks go by
/// the alphabet: `lemma_code_is_alphabetical`).
pub open spec fn listed_before(a: Gram, b: Gram) -> bool {
    a.count > b.count || (a.count == b.count && gram_code(a.letters) < gram_code(b.letters))
}

/// `table` has an entry for `letters`.
pub open spec fn lists(table: Seq<Gram>, letters: Seq<u8>) -> bool {
    exists|i: int| 0 <= i < table.len() && (#[trigger] table[i]).letters == letters
}

/// `table` is the frequency table of `corpus` for runs of `arity` letters, cut
/// after `limit` entries: each entry is a run of distinct letters with the
/// number of its occurrences, the entries stand in the order of
/// `listed_before`, and a run that occurs and is not listed comes after all
/// `limit` entries in that order.
pub open spec fn is_ranking(table: Seq<Gram>, corpus: Seq<u8>, arity: int, limit: int) -> bool {
    &&& table.len() <= limit
    &&& forall|i: int|
        0 <= i < table.len() ==> {
            &&& is_gram((#[trigger] table[i]).letters, arity)
            &&& table[i].count == occurrences(corpus, table[i].letters)
            &&& table[i].count >= 1
        }
    &&& forall|i: int, j: int|
        0 <= i < j < table.len() ==> listed_before(#[trigger] table[i], #[trigger] table[j])
    &&& forall|letters: Seq<u8>|
        is_gram(letters, arity) && #[trigger] occurrences(corpus, letters) >= 1 ==> lists(
            table,
            letters,
        ) || (table.len() == limit && forall|i: int|
            0 <= i < table.len() ==> listed_before(
                #[trigger] table[i],
                (Gram { letters, count: occurrences(corpus, letters) }),
            ))
}

/// The four tables are those of `corpus`, each cut after `limit` entries.
pub open spec fn ranks_corpus(tables: Tables, corpus: Seq<u8>, limit: int) -> bool {
    &&& is_ranking(tables.singles, corpus, 1, limit)
    &&& is_ranking(tables.doubles, corpus, 2, limit)
    &&& is_ranking(tables.triples, corpus, 3, limit)
    &&& is_ranking(tables.quadruples, corpus, 4, limit)
}

/// The table of a corpus within the limits is a valid table.
pub proof fn lemma_ranking_valid(table: Seq<Gram>, corpus: Seq<u8>, arity: int, limit: int)
    requires
        is_ranking(table, corpus, arity, limit),
        1 <= arity,
        limit <= MAX_SAMPLES_LIMIT,
        corpus.len() <= MAX_CORPUS,
    ensures
        valid_table(table, arity),
{
    assert forall|i: int| 0 <= i < table.len() implies valid_entry(#[trigger] table[i], arity) by {
        lemma_occurrences_bounds(corpus, table[i].letters, windows(corpus, arity));
    }
    assert forall|i: int, j: int| 0 <= i < j < table.len() implies (#[trigger] table[i]).letters
        != (#[trigger] table[j]).letters by {
        assert(listed_before(table[i], table[j]));
    }
}

/// The count that `table` holds for `letters`; zero where it has no entry for them.
pub open spec fn listed_count(table: Seq<Gram>, letters: Seq<u8>) -> int
    decreases table.len(),
{
    if table.len() == 0 {
        0
    } else if table.last().letters == letters {
        table.last().count
    } else {
        listed_count(table.drop_last(), letters)
    }
}

/// The table that holds the runs of `arity` letters; empty for any other length.
pub open spec fn table_of(tables: Tables, arity: int) -> Seq<Gram> {
    if arity == 1 {
        tables.singles
    } else if arity == 2 {
        tables.doubles
    } else if arity == 3 {
        tables.triples
    } else if arity == 4 {
        tables.quadruples
    } else {
        Seq::empty()
    }
}

proof fn lemma_listed_count(table: Seq<Gram>, letters: Seq<u8>)
    ensures
        !lists(table, letters) ==> listed_count(table, letters) == 0,
        lists(table, letters) ==> exists|i: int|
            0 <= i < table.len() && (#[trigger] table[i]).letters == letters && table[i].count
                == listed_count(table, letters),
    decreases table.len(),
{
    if table.len() > 0 {
        let front = table.drop_last();
        lemma_listed_count(front, letters);
        if table.last().letters == letters {
            assert(table[table.len() - 1].letters == letters);
        } else {
            if lists(table, letters) {
                let i = choose|i: int| 0 <= i < table.len() && (#[trigger] table[i]).letters == letters;
                assert(front[i].letters == letters);
                let k = choose|k: int|
                    0 <= k < front.len() && (#[trigger] front[k]).letters == letters && front[k].count
                        == listed_count(front, letters);
                assert(table[k] == front[k]);
            } else if lists(front, letters) {
                let k = choose|k: int| 0 <= k < front.len() && (#[trigger] front[k]).letters == letters;
                assert(table[k] == front[k]);
            }
        }
    }
}

/// What a table of a corpus says of a run: the number of its occurrences
/// where the run is listed, and zero where it is not. A table that is not
/// full lists every run of distinct letters that occurs, so there the count
/// is the number of occurrences for every such run; for anything that is no
/// run of distinct letters it is zero.
pub proof fn lemma_count_is_occurrences(
    table: Seq<Gram>,
    corpus: Seq<u8>,
    arity: int,
    limit: int,
    letters: Seq<u8>,
)
    requires
        is_ranking(table, corpus, arity, limit),
    ensures
        lists(table, letters) ==> listed_count(table, letters) == occurrences(corpus, letters)
            && is_gram(letters, arity),
        !lists(table, letters) ==> listed_count(table, letters) == 0,
        is_gram(letters, arity) && table.len() < limit ==> listed_count(table, letters)
            == occurrences(corpus, letters),
{
    lemma_listed_count(table, letters);
    if is_gram(letters, arity) && !lists(table, letters) {
        lemma_occurrences_bounds(corpus, letters, windows(corpus, letters.len() as int));
    }
}

pub open spec fn valid_tables(tables: Tables) -> bool {
    &&& valid_table(tables.singles, 1)
    &&& valid_table(tables.doubles, 2)
    &&& valid_table(tables.triples, 3)
    &&& valid_table(tables.quadruples, 4)
}

/// One entry of a frequency table.
pub struct Ngram {
    pub letters: Vec<u8>,
    pub count: i64,
}

impl View for Ngram {
    type V = Gram;

    open spec fn view(&self) -> Gram {
        Gram { letters: self.letters@, count: self.count as int }
    }
}

/// The entries of a table, each by its view.
pub open spec fn table_view(table: Seq<Ngram>) -> Seq<Gram> {
    table.map_values(|entry: Ngram| entry@)
}

/// Why a corpus was not analysed.
#[derive(Clone, Copy, PartialEq, Eq, Debug, Structural)]
pub enum CorpusError {
    /// The corpus has more than `MAX_CORPUS` bytes.
    TooLarge,
    /// More than `MAX_SAMPLES_LIMIT` entries were asked for.
    TooManySamples,
}

/// Tests whether a corpus of `size` bytes can be analysed with tables of
/// `max_samples` entries.
pub fn check_limits(size: usize, max_samples: usize) -> (checked: Result<(), CorpusError>)
    ensures
        match checked {
            Ok(_) => size <= MAX_CORPUS && max_samples <= MAX_SAMPLES_LIMIT,
            Err(CorpusError::TooLarge) => size > MAX_CORPUS,
            Err(CorpusError::TooManySamples) => size <= MAX_CORPUS && max_samples
                > MAX_SAMPLES_LIMIT,
        },
{
    if size > MAX_CORPUS {
        Err(CorpusError::TooLarge)
    } else if max_samples > MAX_SAMPLES_LIMIT {
        Err(CorpusError::TooManySamples)
    } else {
        Ok(())
    }
}

/// The table of `corpus` for runs of `arity` letters, cut after `limit` entries.
fn build_table(corpus: &[u8], arity: usize, limit: usize) -> (table: Vec<Ngram>)
    requires
        1 <= arity <= MAX_ARITY,
        corpus@.len() <= MAX_CORPUS,
    ensures
        is_ranking(table_view(table@), corpus@, arity as int, limit as int),
{
    let counts = count_grams(corpus, arity);
    proof {
        lemma_code_space_values();
    }
    let entries = counted_entries(&counts);
    let top = top_ranked(entries, limit);
    let mut table: Vec<Ngram> = Vec::new();
    let mut i: usize = 0;
    while i < top.len()
        invariant
            i <= top@.len(),
            table@.len() == i,
            forall|k: int|
                0 <= k < i ==> (#[trigger] table@[k])@ == (Gram {
                    letters: code_gram(top@[k].0 as int, arity as nat),
                    count: top@[k].1 as int,
                }),
        decreases top@.len() - i,
    {
        let mut letters: Vec<u8> = Vec::new();
        push_gram(&mut letters, top[i].0 as usize, arity);
        assert(letters@ =~= code_gram(top@[i as int].0 as int, arity as nat));
        table.push(Ngram { letters, count: top[i].1 });
        i += 1;
    }
    proof {
        let listed = table_view(table@);
        let span = windows(corpus@, arity as int);
        assert forall|k: int| 0 <= k < listed.len() implies {
            &&& is_gram((#[trigger] listed[k]).letters, arity as int)
            &&& listed[k].count == occurrences(corpus@, listed[k].letters)
            &&& listed[k].count >= 1
            &&& gram_code(listed[k].letters) == top@[k].0
            &&& listed[k].count == top@[k].1
        } by {
            assert(listed[k] == table@[k]@);
            assert(entries@.contains(top@[k]));
            let code = top@[k].0 as int;
            lemma_gram_gives_code(code, arity as nat);
            assert(counts@[code] == counted_before(corpus@, code_gram(code, arity as nat), span));
        }
        assert forall|k: int, m: int| 0 <= k < m < listed.len() implies listed_before(
            #[trigger] listed[k],
            #[trigger] listed[m],
        ) by {
            assert(ranks_before(top@[k], top@[m]));
        }
        assert forall|letters: Seq<u8>|
            is_gram(letters, arity as int) && #[trigger] occurrences(corpus@, letters)
                >= 1 implies lists(listed, letters) || (listed.len() == limit && forall|k: int|
            0 <= k < listed.len() ==> listed_before(
                #[trigger] listed[k],
                (Gram { letters, count: occurrences(corpus@, letters) }),
            )) by {
            lemma_code_bounds(letters);
            lemma_code_gives_gram(letters);
            lemma_occurrences_bounds(corpus@, letters, span);
            let code = gram_code(letters);
            assert(counts@[code] == counted_before(corpus@, code_gram(code, arity as nat), span));
            let entry = (code as u32, counts@[code]);
            assert(entries@.contains(entry));
            if top@.contains(entry) {
                let k = choose|k: int| 0 <= k < top@.len() && top@[k] == entry;
                assert(listed[k].letters == letters);
            } else {
                assert forall|k: int| 0 <= k < listed.len() implies listed_before(
                    #[trigger] listed[k],
                    (Gram { letters, count: occurrences(corpus@, letters) }),
                ) by {
                    assert(ranks_before(top@[k], entry));
                }
            }
        }
    }
    table
}

fn same_symbols(a: &Vec<u8>, b: &[u8]) -> (same: bool)
    ensures
        same == (a@ == b@),
{
    if a.len() != b.len() {
        return false;
    }
    let mut i: usize = 0;
    while i < a.len()
        invariant
            i <= a@.len(),
            a@.len() == b@.len(),
            forall|k: int| 0 <= k < i ==> a@[k] == b@[k],
        decreases a@.len() - i,
    {
        if a[i] != b[i] {
            return false;
        }
        i += 1;
    }
    assert(a@ =~= b@);
    true
}

fn count_in(table: &Vec<Ngram>, letters: &[u8]) -> (count: i64)
    ensures
        count == listed_count(table_view(table@), letters@),
{
    let mut i: usize = table.len();
    assert(table_view(table@).take(i as int) =~= table_view(table@));
    while i > 0
        invariant
            i <= table@.len(),
            listed_count(table_view(table@), letters@) == listed_count(
                table_view(table@).take(i as int),
                letters@,
            ),
        decreases i,
    {
        let ghost prefix = table_view(table@).take(i as int);
        i -= 1;
        assert(prefix.drop_last() =~= table_view(table@).take(i as int));
        assert(prefix.last() == table@[i as int]@);
        if same_symbols(&table[i].letters, letters) {
            return table[i].count;
        }
    }
    0
}

/// The frequency tables of one corpus, for runs of one, two, three and four letters.
pub struct FrequencyTables {
    singles: Vec<Ngram>,
    doubles: Vec<Ngram>,
    triples: Vec<Ngram>,
    quadruples: Vec<Ngram>,
}

impl View for FrequencyTables {
    type V = Tables;

    closed spec fn view(&self) -> Tables {
        Tables {
            singles: table_view(self.singles@),
            doubles: table_view(self.doubles@),
            triples: table_view(self.triples@),
            quadruples: table_view(self.quadruples@),
        }
    }
}

impl FrequencyTables {
    #[verifier::type_invariant]
    pub open spec fn well_formed(&self) -> bool {
        valid_tables(self@)
    }

    /// Counts the runs of one to four distinct letters of `corpus` and keeps,
    /// for each length, the `max_samples` most frequent.
    pub fn from_corpus(corpus: &[u8], max_samples: usize) -> (made: Result<
        FrequencyTables,
        CorpusError,
    >)
        ensures
            match made {
                Ok(tables) => {
                    &&& corpus@.len() <= MAX_CORPUS
                    &&& max_samples <= MAX_SAMPLES_LIMIT
                    &&& ranks_corpus(tables@, corpus@, max_samples as int)
                },
                Err(CorpusError::TooLarge) => corpus@.len() > MAX_CORPUS,
                Err(CorpusError::TooManySamples) => corpus@.len() <= MAX_CORPUS && max_samples
                    > MAX_SAMPLES_LIMIT,
            },
    {
        match check_limits(corpus.len(), max_samples) {
            Err(e) => {
                return Err(e);
            },
            Ok(_) => {},
        }
        let singles = build_table(corpus, 1, max_samples);
        let doubles = build_table(corpus, 2, max_samples);
        let triples = build_table(corpus, 3, max_samples);
        let quadruples = build_table(corpus, 4, max_samples);
        proof {
            lemma_ranking_valid(table_view(singles@), corpus@, 1, max_samples as int);
            lemma_ranking_valid(table_view(doubles@), corpus@, 2, max_samples as int);
            lemma_ranking_valid(table_view(triples@), corpus@, 3, max_samples as int);
            lemma_ranking_valid(table_view(quadruples@), corpus@, 4, max_samples as int);
        }
        Ok(FrequencyTables { singles, doubles, triples, quadruples })
    }

    /// The count that the tables hold for `letters`: zero where there is no
    /// entry for them.
    pub fn count_of(&self, letters: &[u8]) -> (count: i64)
        ensures
            count == listed_count(table_of(self@, letters@.len() as int), letters@),
    {
        let size = letters.len();
        if size == 1 {
            count_in(&self.singles, letters)
        } else if size == 2 {
            count_in(&self.doubles, letters)
        } else if size == 3 {
            count_in(&self.triples, letters)
        } else if size == 4 {
            count_in(&self.quadruples, letters)
        } else {
            0
        }
    }

    pub fn singles(&self) -> (table: &Vec<Ngram>)
        ensures
            table_view(table@) == self@.singles,
            valid_tables(self@),
    {
        proof {
            use_type_invariant(self);
        }
        &self.singles
    }

    pub fn doubles(&self) -> (table: &Vec<Ngram>)
        ensures
            table_view(table@) == self@.doubles,
            valid_tables(self@),
    {
        proof {
            use_type_invariant(self);
        }
        &self.doubles
    }

    pub fn triples(&self) -> (table: &Vec<Ngram>)
        ensures
            table_view(table@) == self@.triples,
            valid_tables(self@),
    {
        proof {
            use_type_invariant(self);
        }
        &self.triples
    }

    pub fn quadruples(&self) -> (table: &Vec<Ngram>)
        ensures
            table_view(table@) == self@.quadruples,
            valid_tables(self@),
    {
        proof {
            use_type_invariant(self);
        }
        &self.quadruples
    }
}

} // verus!
