//! Runs of distinct letters: how they are numbered, and how a corpus is
//! searched for them.

use crate::layout::{is_letter, is_lowercase_letter, FIRST_LETTER};
use vstd::prelude::*;

verus! {

/// Longest run that is counted.
pub const MAX_ARITY: usize = 4;

/// Largest number of bytes of a corpus.
pub const MAX_CORPUS: usize = 4_294_967_295;

/// Every symbol of `letters` is a letter.
pub open spec fn all_letters(letters: Seq<u8>) -> bool {
    forall|i: int| 0 <= i < letters.len() ==> is_letter(#[trigger] letters[i])
}

/// No symbol of `letters` occurs in it twice.
pub open spec fn all_distinct(letters: Seq<u8>) -> bool {
    forall|i: int, j: int|
        0 <= i < j < letters.len() ==> #[trigger] letters[i] != #[trigger] letters[j]
}

/// `letters` is a run that the tables count: `arity` letters, no two the same.
pub open spec fn is_gram(letters: Seq<u8>, arity: int) -> bool {
    &&& letters.len() == arity
    &&& all_letters(letters)
    &&& all_distinct(letters)
}

/// The rank of `letters` in alphabetical order among the runs of its length:
/// its letters read as the digits of a number in base 26.
pub open spec fn gram_code(letters: Seq<u8>) -> int
    decreases letters.len(),
{
    if letters.len() == 0 {
        0
    } else {
        gram_code(letters.drop_last()) * 26 + (letters.last() - FIRST_LETTER)
    }
}

/// The run of `arity` letters whose rank is `code`.
pub open spec fn code_gram(code: int, arity: nat) -> Seq<u8>
    decreases arity,
{
    if arity == 0 {
        Seq::empty()
    } else {
        code_gram(code / 26, (arity - 1) as nat).push((code % 26 + FIRST_LETTER) as u8)
    }
}

/// Number of runs of `arity` letters: 26 to the power of `arity`.
pub open spec fn code_space(arity: nat) -> int
    decreases arity,
{
    if arity == 0 {
        1
    } else {
        26 * code_space((arity - 1) as nat)
    }
}

/// The `arity` bytes of `corpus` that start at `at`.
pub open spec fn window(corpus: Seq<u8>, at: int, arity: int) -> Seq<u8> {
    corpus.subrange(at, at + arity)
}

/// Number of places in `corpus` where a run of `arity` bytes starts.
pub open spec fn windows(corpus: Seq<u8>, arity: int) -> int {
    if corpus.len() >= arity {
        corpus.len() - arity + 1
    } else {
        0
    }
}

/// Number of the first `n` windows of `corpus` that hold `letters`.
pub open spec fn occurrences_before(corpus: Seq<u8>, letters: Seq<u8>, n: int) -> int
    decreases n,
{
    if n <= 0 {
        0
    } else {
        occurrences_before(corpus, letters, n - 1) + if window(
            corpus,
            n - 1,
            letters.len() as int,
        ) == letters {
            1int
        } else {
            0int
        }
    }
}

/// Number of places in `corpus` where `letters` stand.
pub open spec fn occurrences(corpus: Seq<u8>, letters: Seq<u8>) -> int {
    occurrences_before(corpus, letters, windows(corpus, letters.len() as int))
}

/// What the first `n` windows add to the count of `letters`: their
/// occurrences for a run of distinct letters, nothing for anything else.
pub open spec fn counted_before(corpus: Seq<u8>, letters: Seq<u8>, n: int) -> int {
    if is_gram(letters, letters.len() as int) {
        occurrences_before(corpus, letters, n)
    } else {
        0
    }
}

proof fn lemma_front_letters(letters: Seq<u8>)
    requires
        all_letters(letters),
        letters.len() > 0,
    ensures
        all_letters(letters.drop_last()),
        is_letter(letters.last()),
{
    let front = letters.drop_last();
    assert forall|i: int| 0 <= i < front.len() implies is_letter(#[trigger] front[i]) by {
        assert(front[i] == letters[i]);
    }
    assert(is_letter(letters[letters.len() - 1]));
}

pub proof fn lemma_occurrences_bounds(corpus: Seq<u8>, letters: Seq<u8>, n: int)
    requires
        0 <= n,
    ensures
        0 <= occurrences_before(corpus, letters, n) <= n,
    decreases n,
{
    if n > 0 {
        lemma_occurrences_bounds(corpus, letters, n - 1);
    }
}

pub proof fn lemma_code_space_values()
    ensures
        code_space(0) == 1,
        code_space(1) == 26,
        code_space(2) == 676,
        code_space(3) == 17_576,
        code_space(4) == 456_976,
{
    reveal_with_fuel(code_space, 5);
}

/// A run of letters has a rank below the number of runs of its length.
pub proof fn lemma_code_bounds(letters: Seq<u8>)
    requires
        all_letters(letters),
    ensures
        0 <= gram_code(letters) < code_space(letters.len()),
    decreases letters.len(),
{
    if letters.len() > 0 {
        lemma_front_letters(letters);
        lemma_code_bounds(letters.drop_last());
    }
}

/// The rank of a run of letters gives the run back.
pub proof fn lemma_code_gives_gram(letters: Seq<u8>)
    requires
        all_letters(letters),
    ensures
        code_gram(gram_code(letters), letters.len()) == letters,
    decreases letters.len(),
{
    if letters.len() > 0 {
        let front = letters.drop_last();
        lemma_front_letters(letters);
        lemma_code_gives_gram(front);
        lemma_code_bounds(front);
        let digit = letters.last() - FIRST_LETTER;
        let code = gram_code(front) * 26 + digit;
        assert(code / 26 == gram_code(front));
        assert(code % 26 == digit);
        assert(code_gram(code, letters.len()) =~= letters);
    } else {
        assert(code_gram(0, 0) =~= letters);
    }
}

/// A rank below the number of runs gives a run of letters, and that run has the rank.
pub proof fn lemma_gram_gives_code(code: int, arity: nat)
    requires
        0 <= code < code_space(arity),
    ensures
        code_gram(code, arity).len() == arity,
        all_letters(code_gram(code, arity)),
        gram_code(code_gram(code, arity)) == code,
    decreases arity,
{
    if arity > 0 {
        lemma_gram_gives_code(code / 26, (arity - 1) as nat);
        let front = code_gram(code / 26, (arity - 1) as nat);
        let letters = code_gram(code, arity);
        assert(letters.drop_last() =~= front);
        assert forall|i: int| 0 <= i < letters.len() implies is_letter(#[trigger] letters[i]) by {
            if i < front.len() {
                assert(letters[i] == front[i]);
            }
        }
    }
}

/// Two ranks below the number of runs that give the same run are the same rank.
pub proof fn lemma_codes_differ(code: int, other: int, arity: nat)
    requires
        0 <= code < code_space(arity),
        0 <= other < code_space(arity),
        code != other,
    ensures
        code_gram(code, arity) != code_gram(other, arity),
{
    lemma_gram_gives_code(code, arity);
    lemma_gram_gives_code(other, arity);
}

/// `a` comes before `b` in the alphabet: where the two first differ, `a` has
/// the earlier letter.
pub open spec fn alphabetically_before(a: Seq<u8>, b: Seq<u8>) -> bool {
    exists|k: int|
        0 <= k < a.len() && k < b.len() && #[trigger] a.take(k) == b.take(k) && a[k] < b[k]
}

/// Among runs of one length the ranks go by the alphabet.
pub proof fn lemma_code_is_alphabetical(a: Seq<u8>, b: Seq<u8>)
    requires
        all_letters(a),
        all_letters(b),
        a.len() == b.len(),
    ensures
        gram_code(a) < gram_code(b) <==> alphabetically_before(a, b),
    decreases a.len(),
{
    if a.len() > 0 {
        let fa = a.drop_last();
        let fb = b.drop_last();
        let n = a.len() - 1;
        lemma_front_letters(a);
        lemma_front_letters(b);
        lemma_code_is_alphabetical(fa, fb);
        lemma_code_bounds(fa);
        lemma_code_bounds(fb);
        if gram_code(a) < gram_code(b) {
            if gram_code(fa) < gram_code(fb) {
                let k = choose|k: int|
                    0 <= k < fa.len() && k < fb.len() && #[trigger] fa.take(k) == fb.take(k)
                        && fa[k] < fb[k];
                assert(a.take(k) =~= fa.take(k));
                assert(b.take(k) =~= fb.take(k));
                assert(a[k] == fa[k] && b[k] == fb[k]);
            } else {
                assert(gram_code(fa) == gram_code(fb));
                lemma_code_gives_gram(fa);
                lemma_code_gives_gram(fb);
                assert(a.take(n) =~= fa);
                assert(b.take(n) =~= fb);
                assert(a[n] < b[n]);
            }
        }
        if alphabetically_before(a, b) {
            let k = choose|k: int|
                0 <= k < a.len() && k < b.len() && #[trigger] a.take(k) == b.take(k) && a[k]
                    < b[k];
            if k < n {
                assert(fa.take(k) =~= a.take(k));
                assert(fb.take(k) =~= b.take(k));
                assert(a[k] == fa[k] && b[k] == fb[k]);
                assert(alphabetically_before(fa, fb));
            } else {
                assert(a.take(n) =~= fa);
                assert(b.take(n) =~= fb);
            }
        }
    } else {
        if alphabetically_before(a, b) {
            let k = choose|k: int|
                0 <= k < a.len() && k < b.len() && #[trigger] a.take(k) == b.take(k) && a[k]
                    < b[k];
        }
    }
}

/// Number of runs of `arity` letters.
pub fn code_space_of(arity: usize) -> (space: usize)
    requires
        1 <= arity <= MAX_ARITY,
    ensures
        space == code_space(arity as nat),
        space <= 456_976,
{
    proof {
        lemma_code_space_values();
    }
    if arity == 1 {
        26
    } else if arity == 2 {
        676
    } else if arity == 3 {
        17_576
    } else {
        456_976
    }
}

/// The rank of the run that starts at `at`, if it is a run of distinct letters.
pub fn window_code(corpus: &[u8], at: usize, arity: usize) -> (code: Option<usize>)
    requires
        1 <= arity <= MAX_ARITY,
        at + arity <= corpus@.len(),
    ensures
        code.is_some() == is_gram(window(corpus@, at as int, arity as int), arity as int),
        code matches Some(c) ==> c == gram_code(window(corpus@, at as int, arity as int)) && c
            < code_space(arity as nat),
{
    let ghost whole = window(corpus@, at as int, arity as int);
    let size = corpus.len();
    let mut code: usize = 0;
    let mut j: usize = 0;
    proof {
        lemma_code_space_values();
    }
    while j < arity
        invariant
            j <= arity <= MAX_ARITY,
            size == corpus@.len(),
            at + arity <= size,
            whole == window(corpus@, at as int, arity as int),
            is_gram(window(corpus@, at as int, j as int), j as int),
            code == gram_code(window(corpus@, at as int, j as int)),
            code < code_space(j as nat),
            code_space(j as nat) <= 17_576 || j == 4,
        decreases arity - j,
    {
        let symbol = corpus[at + j];
        assert(whole[j as int] == symbol);
        if !is_lowercase_letter(symbol) {
            return None;
        }
        let mut k: usize = 0;
        while k < j
            invariant
                k <= j < arity,
                size == corpus@.len(),
                at + arity <= size,
                symbol == whole[j as int],
                whole == window(corpus@, at as int, arity as int),
                forall|m: int| 0 <= m < k ==> #[trigger] whole[m] != symbol,
            decreases j - k,
        {
            if corpus[at + k] == symbol {
                assert(whole[k as int] == whole[j as int]);
                return None;
            }
            k += 1;
        }
        proof {
            let shorter = window(corpus@, at as int, j as int);
            let longer = window(corpus@, at as int, j + 1);
            assert(longer.drop_last() =~= shorter);
            assert(longer.last() == symbol);
            assert forall|m: int| 0 <= m < longer.len() implies is_letter(#[trigger] longer[m]) by {
                if m < j {
                    assert(longer[m] == shorter[m]);
                }
            }
            assert forall|m: int, n: int| 0 <= m < n < longer.len() implies #[trigger] longer[m]
                != #[trigger] longer[n] by {
                if n < j {
                    assert(longer[m] == shorter[m]);
                    assert(longer[n] == shorter[n]);
                } else {
                    assert(longer[m] == whole[m]);
                }
            }
            lemma_code_bounds(longer);
            lemma_code_space_values();
            reveal_with_fuel(code_space, 2);
        }
        code = code * 26 + (symbol - FIRST_LETTER) as usize;
        j += 1;
    }
    assert(window(corpus@, at as int, j as int) == whole);
    Some(code)
}

/// Appends to `letters` the run of `arity` letters whose rank is `code`.
pub fn push_gram(letters: &mut Vec<u8>, code: usize, arity: usize)
    ensures
        final(letters)@ == old(letters)@ + code_gram(code as int, arity as nat),
    decreases arity,
{
    if arity > 0 {
        push_gram(letters, code / 26, arity - 1);
        letters.push((code % 26) as u8 + FIRST_LETTER);
        assert(letters@ =~= old(letters)@ + code_gram(code as int, arity as nat));
    } else {
        assert(letters@ =~= old(letters)@ + code_gram(code as int, arity as nat));
    }
}

/// Counts every run of `arity` distinct letters of `corpus`. The result has
/// one count for each rank, in the order of the ranks.
pub fn count_grams(corpus: &[u8], arity: usize) -> (counts: Vec<i64>)
    requires
        1 <= arity <= MAX_ARITY,
        corpus@.len() <= MAX_CORPUS,
    ensures
        counts@.len() == code_space(arity as nat),
        forall|code: int|
            0 <= code < counts@.len() ==> #[trigger] counts@[code] == counted_before(
                corpus@,
                code_gram(code, arity as nat),
                windows(corpus@, arity as int),
            ),
{
    let space = code_space_of(arity);
    let mut counts: Vec<i64> = Vec::new();
    let mut filled: usize = 0;
    while filled < space
        invariant
            filled <= space,
            counts@.len() == filled,
            forall|code: int| 0 <= code < filled ==> #[trigger] counts@[code] == 0,
        decreases space - filled,
    {
        counts.push(0);
        filled += 1;
    }
    if corpus.len() < arity {
        return counts;
    }
    let last = corpus.len() - arity;
    let mut at: usize = 0;
    while at <= last
        invariant
            1 <= arity <= MAX_ARITY,
            last + arity == corpus@.len(),
            corpus@.len() <= MAX_CORPUS,
            at <= last + 1,
            space == code_space(arity as nat),
            counts@.len() == space,
            forall|code: int|
                0 <= code < space ==> #[trigger] counts@[code] == counted_before(
                    corpus@,
                    code_gram(code, arity as nat),
                    at as int,
                ),
        decreases last + 1 - at,
    {
        let ghost before = counts@;
        let ghost seen = window(corpus@, at as int, arity as int);
        match window_code(corpus, at, arity) {
            Some(code) => {
                proof {
                    lemma_gram_gives_code(code as int, arity as nat);
                    lemma_code_gives_gram(seen);
                    lemma_occurrences_bounds(corpus@, seen, at as int);
                }
                let count = counts[code];
                counts.set(code, count + 1);
                assert forall|other: int| 0 <= other < space implies #[trigger] counts@[other]
                    == counted_before(corpus@, code_gram(other, arity as nat), at + 1) by {
                    lemma_gram_gives_code(other, arity as nat);
                    if other != code {
                        lemma_codes_differ(other, code as int, arity as nat);
                        assert(counts@[other] == before[other]);
                    }
                }
            },
            None => {
                assert forall|other: int| 0 <= other < space implies #[trigger] counts@[other]
                    == counted_before(corpus@, code_gram(other, arity as nat), at + 1) by {
                    lemma_gram_gives_code(other, arity as nat);
                    assert(counts@[other] == before[other]);
                }
            },
        }
        at += 1;
    }
    counts
}

/// The ranks whose count is above zero, in ascending order, each with its count.
pub fn counted_entries(counts: &Vec<i64>) -> (entries: Vec<(u32, i64)>)
    requires
        counts@.len() <= 456_976,
    ensures
        forall|i: int|
            0 <= i < entries@.len() ==> (#[trigger] entries@[i]).0 < counts@.len() && entries@[i].1
                == counts@[entries@[i].0 as int] && entries@[i].1 > 0,
        forall|i: int, j: int|
            0 <= i < j < entries@.len() ==> (#[trigger] entries@[i]).0 < (#[trigger] entries@[j]).0,
        forall|code: int|
            0 <= code < counts@.len() && #[trigger] counts@[code] > 0 ==> entries@.contains(
                (code as u32, counts@[code]),
            ),
        entries@.no_duplicates(),
{
    let mut entries: Vec<(u32, i64)> = Vec::new();
    let mut code: usize = 0;
    while code < counts.len()
        invariant
            code <= counts@.len() <= 456_976,
            forall|i: int|
                0 <= i < entries@.len() ==> (#[trigger] entries@[i]).0 < code && entries@[i].1
                    == counts@[entries@[i].0 as int] && entries@[i].1 > 0,
            forall|i: int, j: int|
                0 <= i < j < entries@.len() ==> (#[trigger] entries@[i]).0 < (
                #[trigger] entries@[j]).0,
            forall|c: int|
                0 <= c < code && #[trigger] counts@[c] > 0 ==> entries@.contains(
                    (c as u32, counts@[c]),
                ),
        decreases counts@.len() - code,
    {
        let count = counts[code];
        if count > 0 {
            let ghost before = entries@;
            entries.push((code as u32, count));
            assert forall|c: int| 0 <= c < code + 1 && #[trigger] counts@[c] > 0 implies entries@.contains(
                (c as u32, counts@[c]),
            ) by {
                if c < code {
                    let k = choose|k: int|
                        0 <= k < before.len() && before[k] == (c as u32, counts@[c]);
                    assert(entries@[k] == before[k]);
                } else {
                    assert(entries@[before.len() as int] == (c as u32, counts@[c]));
                }
            }
        }
        code += 1;
    }
    entries
}

} // verus!
