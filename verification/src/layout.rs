//! The key grid: three rows of ten cells that hold the 26 lowercase letters
//! and four blanks.

use crate::random::{lemma_continues_itself, reduced, RandomSource};
use crate::text::symbols_text;
use vstd::multiset::*;
use vstd::prelude::*;
use vstd::seq_lib::*;

verus! {

/// Number of rows of the grid.
pub const ROWS: usize = 3;

/// Number of cells in a row.
pub const COLUMNS: usize = 10;

/// Number of cells of the grid.
pub const KEYS: usize = 30;

/// The symbol that a freshly shuffled layout puts into its four spare cells (`_`).
pub const BLANK: u8 = 95;

/// The letter `a`.
pub const FIRST_LETTER: u8 = 97;

/// The letter `z`.
pub const LAST_LETTER: u8 = 122;

/// A symbol is a letter when it is one of the ASCII letters `a` to `z`.
/// Every other symbol counts as a blank.
pub open spec fn is_letter(symbol: u8) -> bool {
    FIRST_LETTER <= symbol <= LAST_LETTER
}

/// Index of the cell at `row` and `column` in the row-major sequence of cells.
pub open spec fn cell(row: int, column: int) -> int {
    row * COLUMNS as int + column
}

/// The grid invariant over the row-major sequence of cells: thirty cells, and
/// each letter sits in exactly one of them. The four cells that are left hold
/// blanks (see `lemma_four_blanks`).
pub open spec fn valid_layout(keys: Seq<u8>) -> bool {
    &&& keys.len() == KEYS
    &&& forall|letter: u8| is_letter(letter) ==> #[trigger] keys.to_multiset().count(letter) == 1
}

/// The cells of `keys` after the contents of cells `from` and `to` changed places.
pub open spec fn swapped(keys: Seq<u8>, from: int, to: int) -> Seq<u8> {
    keys.update(to, keys[from]).update(from, keys[to])
}

/// The 26 letters in alphabetical order, followed by four `_`.
pub open spec fn alphabet_with_blanks() -> Seq<u8> {
    Seq::new(KEYS as nat, |i: int| if i < 26 { (FIRST_LETTER + i) as u8 } else { BLANK })
}

/// Number of cells among the first `n` of `keys` that hold a letter below `bound`.
pub open spec fn letters_below(keys: Seq<u8>, bound: int, n: int) -> int
    decreases n,
{
    if n <= 0 {
        0
    } else {
        letters_below(keys, bound, n - 1) + if FIRST_LETTER <= keys[n - 1] < bound {
            1int
        } else {
            0int
        }
    }
}

/// Number of cells of `keys` that hold a letter.
pub open spec fn letter_cells(keys: Seq<u8>) -> int {
    letters_below(keys, LAST_LETTER + 1, keys.len() as int)
}

/// Number of cells of `keys` that hold a blank.
pub open spec fn blank_cells(keys: Seq<u8>) -> int {
    keys.len() - letter_cells(keys)
}

pub fn is_lowercase_letter(symbol: u8) -> (yes: bool)
    ensures
        yes == is_letter(symbol),
{
    FIRST_LETTER <= symbol && symbol <= LAST_LETTER
}

/// A symbol that occurs at two different cells occurs at least twice in the multiset.
pub proof fn lemma_two_cells_count(keys: Seq<u8>, i: int, j: int)
    requires
        0 <= i < j < keys.len(),
        keys[i] == keys[j],
    ensures
        keys.to_multiset().count(keys[i]) >= 2,
{
    broadcast use group_multiset_axioms;

    let rest = keys.remove(j);
    to_multiset_remove(keys, j);
    assert(rest[i] == keys[i]);
    assert(rest.contains(keys[i]));
    to_multiset_contains(rest, keys[i]);
    to_multiset_contains(keys, keys[i]);
}

/// The cell that holds `symbol`; for a letter of a valid layout there is one
/// such cell, for any other symbol the choice among its cells is left open.
pub open spec fn position_of(keys: Seq<u8>, symbol: u8) -> int {
    choose|i: int| 0 <= i < keys.len() && keys[i] == symbol
}

/// `cells` lists, for each letter in alphabetical order, its position in `keys`.
pub open spec fn locates(cells: Seq<usize>, keys: Seq<u8>) -> bool {
    &&& cells.len() == 26
    &&& forall|letter: u8|
        is_letter(letter) ==> cells[letter - FIRST_LETTER] == #[trigger] position_of(keys, letter)
            && position_of(keys, letter) < KEYS
}

/// A letter's position is the one cell where it is seen.
pub proof fn lemma_position_of(keys: Seq<u8>, symbol: u8, i: int)
    requires
        valid_layout(keys),
        is_letter(symbol),
        0 <= i < keys.len(),
        keys[i] == symbol,
    ensures
        position_of(keys, symbol) == i,
{
    lemma_letter_position(keys, symbol);
}

/// In a valid layout every letter is found, and found at one cell only.
pub proof fn lemma_letter_position(keys: Seq<u8>, letter: u8)
    requires
        valid_layout(keys),
        is_letter(letter),
    ensures
        keys.contains(letter),
        forall|i: int, j: int|
            0 <= i < keys.len() && 0 <= j < keys.len() && keys[i] == letter && keys[j] == letter
                ==> i == j,
{
    assert(keys.to_multiset().count(letter) == 1);
    to_multiset_contains(keys, letter);
    assert forall|i: int, j: int|
        0 <= i < keys.len() && 0 <= j < keys.len() && keys[i] == letter && keys[j]
            == letter implies i == j by {
        if i < j {
            lemma_two_cells_count(keys, i, j);
        } else if j < i {
            lemma_two_cells_count(keys, j, i);
        }
    }
}

/// A symbol that sits at cell `i` and nowhere else occurs exactly once.
pub proof fn lemma_single_cell_count(keys: Seq<u8>, i: int)
    requires
        0 <= i < keys.len(),
        forall|j: int| 0 <= j < keys.len() && j != i ==> keys[j] != keys[i],
    ensures
        keys.to_multiset().count(keys[i]) == 1,
{
    broadcast use group_multiset_axioms;

    let rest = keys.remove(i);
    to_multiset_remove(keys, i);
    to_multiset_contains(rest, keys[i]);
    to_multiset_contains(keys, keys[i]);
    assert(keys.contains(keys[i]));
    if rest.contains(keys[i]) {
        let k = choose|k: int| 0 <= k < rest.len() && rest[k] == keys[i];
        if k < i {
            assert(keys[k] == keys[i]);
        } else {
            assert(keys[k + 1] == keys[i]);
        }
    }
}

/// Thirty cells are a valid layout when `index` gives, for each letter, a cell
/// that holds it, and every cell that holds a letter is the one `index` gives.
pub proof fn lemma_valid_by_index(keys: Seq<u8>, index: Seq<int>)
    requires
        keys.len() == KEYS,
        index.len() == 26,
        forall|k: int|
            0 <= k < 26 ==> 0 <= #[trigger] index[k] < KEYS && keys[index[k]] == k + FIRST_LETTER,
        forall|i: int|
            0 <= i < KEYS && is_letter(#[trigger] keys[i]) ==> index[keys[i] - FIRST_LETTER] == i,
    ensures
        valid_layout(keys),
{
    assert forall|letter: u8| is_letter(letter) implies #[trigger] keys.to_multiset().count(letter)
        == 1 by {
        let i = index[letter - FIRST_LETTER];
        assert(keys[i] == letter);
        assert forall|j: int| 0 <= j < keys.len() && j != i implies keys[j] != keys[i] by {
            if keys[j] == keys[i] {
                assert(index[keys[j] - FIRST_LETTER] == j);
            }
        }
        lemma_single_cell_count(keys, i);
    }
}

/// Exchanging two cells keeps the multiset of symbols, and so the grid invariant.
pub proof fn lemma_swap_keeps_symbols(keys: Seq<u8>, from: int, to: int)
    requires
        0 <= from < keys.len(),
        0 <= to < keys.len(),
    ensures
        swapped(keys, from, to).to_multiset() == keys.to_multiset(),
        valid_layout(keys) ==> valid_layout(swapped(keys, from, to)),
{
    broadcast use group_multiset_axioms;

    let step = keys.update(to, keys[from]);
    to_multiset_update(keys, to, keys[from]);
    to_multiset_update(step, from, keys[to]);
    to_multiset_contains(keys, keys[from]);
    to_multiset_contains(keys, keys[to]);
    assert(keys.contains(keys[from]));
    assert(keys.contains(keys[to]));
    assert(swapped(keys, from, to).to_multiset() =~= keys.to_multiset());
}

proof fn lemma_letters_below_step(keys: Seq<u8>, bound: int, n: int)
    requires
        0 <= n <= keys.len(),
        FIRST_LETTER <= bound <= LAST_LETTER,
    ensures
        letters_below(keys, bound + 1, n) == letters_below(keys, bound, n) + keys.take(
            n,
        ).to_multiset().count(bound as u8),
    decreases n,
{
    broadcast use group_multiset_axioms;

    if n <= 0 {
        assert(keys.take(n) =~= Seq::<u8>::empty());
        to_multiset_len(keys.take(n));
        assert(keys.take(n).to_multiset().len() == 0);
    } else {
        lemma_letters_below_step(keys, bound, n - 1);
        assert(keys.take(n) =~= keys.take(n - 1).push(keys[n - 1]));
        to_multiset_build(keys.take(n - 1), keys[n - 1]);
    }
}

proof fn lemma_letters_below_all(keys: Seq<u8>, bound: int)
    requires
        valid_layout(keys),
        FIRST_LETTER <= bound <= LAST_LETTER + 1,
    ensures
        letters_below(keys, bound, keys.len() as int) == bound - FIRST_LETTER,
    decreases bound,
{
    if bound == FIRST_LETTER {
        lemma_letters_below_none(keys, keys.len() as int);
    } else {
        lemma_letters_below_all(keys, bound - 1);
        lemma_letters_below_step(keys, bound - 1, keys.len() as int);
        assert(keys.take(keys.len() as int) =~= keys);
        assert(is_letter((bound - 1) as u8));
    }
}

proof fn lemma_letters_below_none(keys: Seq<u8>, n: int)
    ensures
        letters_below(keys, FIRST_LETTER as int, n) == 0,
    decreases n,
{
    if n > 0 {
        lemma_letters_below_none(keys, n - 1);
    }
}

/// The symbols of a valid layout are the 26 letters, once each, and four blanks.
pub proof fn lemma_four_blanks(keys: Seq<u8>)
    requires
        valid_layout(keys),
    ensures
        letter_cells(keys) == 26,
        blank_cells(keys) == 4,
{
    lemma_letters_below_all(keys, LAST_LETTER + 1);
}

/// Whatever order the alphabet and its four blanks come in, they are a valid layout.
pub proof fn lemma_permuted_alphabet_valid(keys: Seq<u8>)
    requires
        keys.to_multiset() == alphabet_with_blanks().to_multiset(),
    ensures
        valid_layout(keys),
{
    let alphabet = alphabet_with_blanks();
    to_multiset_len(keys);
    to_multiset_len(alphabet);
    let index = Seq::new(26, |k: int| k);
    assert forall|k: int| 0 <= k < 26 implies 0 <= #[trigger] index[k] < KEYS && alphabet[index[k]]
        == k + FIRST_LETTER by {}
    lemma_valid_by_index(alphabet, index);
}

/// The cells of the QWERTY layout.
pub open spec fn qwerty_keys() -> Seq<u8> {
    seq![
        'q' as u8, 'w' as u8, 'e' as u8, 'r' as u8, 't' as u8,
        'y' as u8, 'u' as u8, 'i' as u8, 'o' as u8, 'p' as u8,
        'a' as u8, 's' as u8, 'd' as u8, 'f' as u8, 'g' as u8,
        'h' as u8, 'j' as u8, 'k' as u8, 'l' as u8, ';' as u8,
        'z' as u8, 'x' as u8, 'c' as u8, 'v' as u8, 'b' as u8,
        'n' as u8, 'm' as u8, ',' as u8, '.' as u8, '/' as u8,
    ]
}

pub proof fn lemma_qwerty_valid()
    ensures
        valid_layout(qwerty_keys()),
{
    // the cell of each letter, from `a` to `z`
    let index: Seq<int> = seq![
        10, 24, 22, 12, 2, 13, 14, 15, 7, 16, 17, 18, 26,
        25, 8, 9, 0, 3, 11, 4, 6, 23, 1, 21, 5, 20,
    ];
    lemma_valid_by_index(qwerty_keys(), index);
}

/// The cells of the Dvorak layout.
pub open spec fn dvorak_keys() -> Seq<u8> {
    seq![
        '\'' as u8, ',' as u8, '.' as u8, 'p' as u8, 'y' as u8,
        'f' as u8, 'g' as u8, 'c' as u8, 'r' as u8, 'l' as u8,
        'a' as u8, 'o' as u8, 'e' as u8, 'u' as u8, 'i' as u8,
        'd' as u8, 'h' as u8, 't' as u8, 'n' as u8, 's' as u8,
        ';' as u8, 'q' as u8, 'j' as u8, 'k' as u8, 'x' as u8,
        'b' as u8, 'm' as u8, 'w' as u8, 'v' as u8, 'z' as u8,
    ]
}

pub proof fn lemma_dvorak_valid()
    ensures
        valid_layout(dvorak_keys()),
{
    // the cell of each letter, from `a` to `z`
    let index: Seq<int> = seq![
        10, 25, 7, 15, 12, 5, 6, 16, 14, 22, 23, 9, 26,
        18, 11, 3, 21, 8, 19, 17, 13, 28, 27, 24, 4, 29,
    ];
    lemma_valid_by_index(dvorak_keys(), index);
}

/// The cells of the Colemak layout.
pub open spec fn colemak_keys() -> Seq<u8> {
    seq![
        'q' as u8, 'w' as u8, 'f' as u8, 'p' as u8, 'g' as u8,
        'j' as u8, 'l' as u8, 'u' as u8, 'y' as u8, ';' as u8,
        'a' as u8, 'r' as u8, 's' as u8, 't' as u8, 'd' as u8,
        'h' as u8, 'n' as u8, 'e' as u8, 'i' as u8, 'o' as u8,
        'z' as u8, 'x' as u8, 'c' as u8, 'v' as u8, 'b' as u8,
        'k' as u8, 'm' as u8, ',' as u8, '.' as u8, '/' as u8,
    ]
}

pub proof fn lemma_colemak_valid()
    ensures
        valid_layout(colemak_keys()),
{
    // the cell of each letter, from `a` to `z`
    let index: Seq<int> = seq![
        10, 24, 22, 14, 17, 2, 4, 15, 18, 5, 25, 6, 26,
        16, 19, 3, 0, 11, 12, 13, 7, 23, 1, 21, 8, 20,
    ];
    lemma_valid_by_index(colemak_keys(), index);
}

/// The cells of the Workman layout.
pub open spec fn workman_keys() -> Seq<u8> {
    seq![
        'q' as u8, 'd' as u8, 'r' as u8, 'w' as u8, 'b' as u8,
        'j' as u8, 'f' as u8, 'u' as u8, 'p' as u8, ';' as u8,
        'a' as u8, 's' as u8, 'h' as u8, 't' as u8, 'g' as u8,
        'y' as u8, 'n' as u8, 'e' as u8, 'o' as u8, 'i' as u8,
        'z' as u8, 'x' as u8, 'm' as u8, 'c' as u8, 'v' as u8,
        'k' as u8, 'l' as u8, ',' as u8, '.' as u8, '/' as u8,
    ]
}

pub proof fn lemma_workman_valid()
    ensures
        valid_layout(workman_keys()),
{
    // the cell of each letter, from `a` to `z`
    let index: Seq<int> = seq![
        10, 4, 23, 1, 17, 6, 14, 12, 19, 5, 25, 26, 22,
        16, 18, 8, 0, 2, 11, 13, 7, 24, 3, 21, 15, 20,
    ];
    lemma_valid_by_index(workman_keys(), index);
}

/// Why a key lookup came back empty-handed.
#[derive(Clone, Copy, PartialEq, Eq, Debug, Structural)]
pub enum LayoutError {
    /// The symbol is in none of the cells.
    NotFound,
}

/// A candidate layout: its name and the thirty symbols of its cells, row by row.
pub struct Keyboard {
    name: String,
    keys: Vec<u8>,
}

impl View for Keyboard {
    type V = Seq<u8>;

    closed spec fn view(&self) -> Seq<u8> {
        self.keys@
    }
}

impl Clone for Keyboard {
    fn clone(&self) -> (copy: Self)
        ensures
            copy@ == self@,
            copy.name_view() == self.name_view(),
    {
        proof {
            use_type_invariant(self);
        }
        let keys = self.keys.clone();
        assert(keys@ =~= self.keys@);
        Keyboard { name: self.name.clone(), keys }
    }
}

impl Keyboard {
    #[verifier::type_invariant]
    pub open spec fn well_formed(&self) -> bool {
        valid_layout(self@)
    }

    /// The layout's name as a sequence of characters.
    pub closed spec fn name_view(&self) -> Seq<char> {
        self.name@
    }

    /// The symbol at `row` and `column`.
    pub open spec fn at(&self, row: int, column: int) -> u8 {
        self@[cell(row, column)]
    }

    /// Builds a layout from thirty symbols given row by row. `None` when they
    /// are not thirty, or some letter is missing or repeated.
    pub fn new(name: &str, keys: Vec<u8>) -> (made: Option<Keyboard>)
        ensures
            made.is_some() == valid_layout(keys@),
            made matches Some(kb) ==> kb@ == keys@ && kb.name_view() == name@,
    {
        if is_valid_layout(&keys) {
            Some(Keyboard { name: String::from_str(name), keys })
        } else {
            None
        }
    }

    pub fn qwerty() -> (kb: Keyboard)
        ensures
            kb@ == qwerty_keys(),
            valid_layout(kb@),
            kb.name_view() == "qwerty"@,
    {
        let keys: Vec<u8> = vec![
            'q' as u8, 'w' as u8, 'e' as u8, 'r' as u8, 't' as u8,
            'y' as u8, 'u' as u8, 'i' as u8, 'o' as u8, 'p' as u8,
            'a' as u8, 's' as u8, 'd' as u8, 'f' as u8, 'g' as u8,
            'h' as u8, 'j' as u8, 'k' as u8, 'l' as u8, ';' as u8,
            'z' as u8, 'x' as u8, 'c' as u8, 'v' as u8, 'b' as u8,
            'n' as u8, 'm' as u8, ',' as u8, '.' as u8, '/' as u8,
        ];
        proof {
            assert(keys@ =~= qwerty_keys());
            lemma_qwerty_valid();
        }
        Keyboard { name: String::from_str("qwerty"), keys }
    }

    pub fn dvorak() -> (kb: Keyboard)
        ensures
            kb@ == dvorak_keys(),
            valid_layout(kb@),
            kb.name_view() == "dvorak"@,
    {
        let keys: Vec<u8> = vec![
            '\'' as u8, ',' as u8, '.' as u8, 'p' as u8, 'y' as u8,
            'f' as u8, 'g' as u8, 'c' as u8, 'r' as u8, 'l' as u8,
            'a' as u8, 'o' as u8, 'e' as u8, 'u' as u8, 'i' as u8,
            'd' as u8, 'h' as u8, 't' as u8, 'n' as u8, 's' as u8,
            ';' as u8, 'q' as u8, 'j' as u8, 'k' as u8, 'x' as u8,
            'b' as u8, 'm' as u8, 'w' as u8, 'v' as u8, 'z' as u8,
        ];
        proof {
            assert(keys@ =~= dvorak_keys());
            lemma_dvorak_valid();
        }
        Keyboard { name: String::from_str("dvorak"), keys }
    }

    pub fn colemak() -> (kb: Keyboard)
        ensures
            kb@ == colemak_keys(),
            valid_layout(kb@),
            kb.name_view() == "colemak"@,
    {
        let keys: Vec<u8> = vec![
            'q' as u8, 'w' as u8, 'f' as u8, 'p' as u8, 'g' as u8,
            'j' as u8, 'l' as u8, 'u' as u8, 'y' as u8, ';' as u8,
            'a' as u8, 'r' as u8, 's' as u8, 't' as u8, 'd' as u8,
            'h' as u8, 'n' as u8, 'e' as u8, 'i' as u8, 'o' as u8,
            'z' as u8, 'x' as u8, 'c' as u8, 'v' as u8, 'b' as u8,
            'k' as u8, 'm' as u8, ',' as u8, '.' as u8, '/' as u8,
        ];
        proof {
            assert(keys@ =~= colemak_keys());
            lemma_colemak_valid();
        }
        Keyboard { name: String::from_str("colemak"), keys }
    }

    pub fn workman() -> (kb: Keyboard)
        ensures
            kb@ == workman_keys(),
            valid_layout(kb@),
            kb.name_view() == "workman"@,
    {
        let keys: Vec<u8> = vec![
            'q' as u8, 'd' as u8, 'r' as u8, 'w' as u8, 'b' as u8,
            'j' as u8, 'f' as u8, 'u' as u8, 'p' as u8, ';' as u8,
            'a' as u8, 's' as u8, 'h' as u8, 't' as u8, 'g' as u8,
            'y' as u8, 'n' as u8, 'e' as u8, 'o' as u8, 'i' as u8,
            'z' as u8, 'x' as u8, 'm' as u8, 'c' as u8, 'v' as u8,
            'k' as u8, 'l' as u8, ',' as u8, '.' as u8, '/' as u8,
        ];
        proof {
            assert(keys@ =~= workman_keys());
            lemma_workman_valid();
        }
        Keyboard { name: String::from_str("workman"), keys }
    }

    /// A layout in random order: the alphabet and four `_`, shuffled.
    pub fn random_layout(source: &mut RandomSource) -> (kb: Keyboard)
        ensures
            kb@.to_multiset() == alphabet_with_blanks().to_multiset(),
            valid_layout(kb@),
            kb.name_view() == "random"@,
            final(source).continues(*old(source)),
            final(source).drawn_since(*old(source)).len() == 0,
    {
        let mut keys: Vec<u8> = Vec::new();
        let mut i: usize = 0;
        while i < KEYS
            invariant
                i <= KEYS,
                keys@.len() == i,
                forall|k: int| 0 <= k < i ==> keys@[k] == alphabet_with_blanks()[k],
            decreases KEYS - i,
        {
            if i < 26 {
                keys.push(FIRST_LETTER + i as u8);
            } else {
                keys.push(BLANK);
            }
            i += 1;
        }
        assert(keys@ =~= alphabet_with_blanks());
        source.shuffle(&mut keys);
        proof {
            lemma_permuted_alphabet_valid(keys@);
            lemma_continues_itself(*source);
        }
        Keyboard { name: String::from_str("random"), keys }
    }

    pub fn name(&self) -> (name: &String)
        ensures
            name@ == self.name_view(),
    {
        &self.name
    }

    /// The thirty symbols, row by row.
    pub fn keys(&self) -> (keys: &Vec<u8>)
        ensures
            keys@ == self@,
            valid_layout(self@),
    {
        proof {
            use_type_invariant(self);
        }
        &self.keys
    }

    pub fn key_at(&self, row: usize, column: usize) -> (symbol: u8)
        requires
            row < ROWS,
            column < COLUMNS,
        ensures
            symbol == self.at(row as int, column as int),
    {
        proof {
            use_type_invariant(self);
        }
        self.keys[row * COLUMNS + column]
    }

    /// For each letter, in alphabetical order, the cell that holds it.
    pub fn letter_positions(&self) -> (cells: Vec<usize>)
        ensures
            locates(cells@, self@),
            valid_layout(self@),
    {
        proof {
            use_type_invariant(self);
        }
        let mut cells: Vec<usize> = Vec::new();
        let mut k: usize = 0;
        while k < 26
            invariant
                k <= 26,
                cells@.len() == k,
            decreases 26 - k,
        {
            cells.push(0);
            k += 1;
        }
        let mut i: usize = 0;
        while i < KEYS
            invariant
                i <= KEYS,
                cells@.len() == 26,
                valid_layout(self.keys@),
                forall|j: int|
                    0 <= j < i && is_letter(#[trigger] self.keys@[j]) ==> cells@[self.keys@[j]
                        - FIRST_LETTER] == j,
            decreases KEYS - i,
        {
            let symbol = self.keys[i];
            if is_lowercase_letter(symbol) {
                cells.set((symbol - FIRST_LETTER) as usize, i);
                assert forall|j: int|
                    0 <= j < i + 1 && is_letter(#[trigger] self.keys@[j]) implies cells@[self.keys@[j]
                    - FIRST_LETTER] == j by {
                    if j < i && self.keys@[j] == symbol {
                        lemma_letter_position(self.keys@, symbol);
                    }
                }
            }
            i += 1;
        }
        assert forall|letter: u8| is_letter(letter) implies cells@[letter - FIRST_LETTER]
            == #[trigger] position_of(self@, letter) && position_of(self@, letter) < KEYS by {
            lemma_letter_position(self.keys@, letter);
            let p = position_of(self.keys@, letter);
            assert(0 <= p < KEYS && self.keys@[p] == letter);
        }
        cells
    }

    /// Row and column of the first cell, row by row, that holds `key`.
    pub fn find_key(&self, key: u8) -> (found: Result<(usize, usize), LayoutError>)
        ensures
            match found {
                Ok((row, column)) => {
                    &&& row < ROWS
                    &&& column < COLUMNS
                    &&& self.at(row as int, column as int) == key
                    &&& forall|i: int| 0 <= i < cell(row as int, column as int) ==> self@[i] != key
                },
                Err(e) => e == LayoutError::NotFound && !self@.contains(key),
            },
            is_letter(key) ==> found.is_ok(),
    {
        proof {
            use_type_invariant(self);
        }
        let mut row: usize = 0;
        while row < ROWS
            invariant
                row <= ROWS,
                self.keys@.len() == KEYS,
                forall|i: int| 0 <= i < row * COLUMNS ==> self.keys@[i] != key,
            decreases ROWS - row,
        {
            let mut column: usize = 0;
            while column < COLUMNS
                invariant
                    row < ROWS,
                    column <= COLUMNS,
                    self.keys@.len() == KEYS,
                    forall|i: int| 0 <= i < row * COLUMNS + column ==> self.keys@[i] != key,
                decreases COLUMNS - column,
            {
                if self.keys[row * COLUMNS + column] == key {
                    return Ok((row, column));
                }
                column += 1;
            }
            row += 1;
        }
        proof {
            if is_letter(key) {
                lemma_letter_position(self.keys@, key);
            }
        }
        Err(LayoutError::NotFound)
    }

    /// Exchanges the contents of two cells. The two may be the same cell, and
    /// the layout is then left as it was.
    pub fn swap_keys(&mut self, from: (usize, usize), to: (usize, usize))
        requires
            from.0 < ROWS,
            from.1 < COLUMNS,
            to.0 < ROWS,
            to.1 < COLUMNS,
        ensures
            final(self)@ == swapped(
                old(self)@,
                cell(from.0 as int, from.1 as int),
                cell(to.0 as int, to.1 as int),
            ),
            final(self)@.to_multiset() == old(self)@.to_multiset(),
            valid_layout(final(self)@),
            final(self).name_view() == old(self).name_view(),
    {
        proof {
            use_type_invariant(&*self);
        }
        let source = from.0 * COLUMNS + from.1;
        let target = to.0 * COLUMNS + to.1;
        let moved = self.keys[source];
        let displaced = self.keys[target];
        let mut keys = self.keys.clone();
        assert(keys@ =~= self.keys@);
        keys.set(target, moved);
        keys.set(source, displaced);
        proof {
            lemma_swap_keeps_symbols(self.keys@, source as int, target as int);
        }
        self.keys = keys;
    }

    /// The thirty symbols as text, row after row.
    pub fn to_text(&self) -> (text: String)
        ensures
            text@ == symbols_text(self@),
    {
        let mut text = String::new();
        let mut i: usize = 0;
        while i < self.keys.len()
            invariant
                i <= self.keys.len(),
                text@ == symbols_text(self.keys@.take(i as int)),
            decreases self.keys.len() - i,
        {
            text.push(self.keys[i] as char);
            assert(self.keys@.take(i + 1) =~= self.keys@.take(i as int).push(self.keys@[i as int]));
            i += 1;
        }
        assert(self.keys@.take(i as int) =~= self.keys@);
        text
    }
}

/// The cell that two drawn numbers stand for: the first gives the row, the
/// second the column.
pub open spec fn cell_of_draws(row_draw: u64, column_draw: u64) -> (usize, usize) {
    (reduced(row_draw, 3) as usize, reduced(column_draw, 10) as usize)
}

/// Draws two cells from `source`, each by its row and column. Four numbers
/// are drawn for them: row and column of the first cell, then row and column
/// of the second. The two may turn out to be one cell.
pub fn draw_cells(source: &mut RandomSource) -> (cells: ((usize, usize), (usize, usize)))
    ensures
        final(source).continues(*old(source)),
        final(source).drawn_since(*old(source)).len() == 4,
        cells.0 == cell_of_draws(
            final(source).drawn_since(*old(source))[0],
            final(source).drawn_since(*old(source))[1],
        ),
        cells.1 == cell_of_draws(
            final(source).drawn_since(*old(source))[2],
            final(source).drawn_since(*old(source))[3],
        ),
        cells.0.0 < ROWS,
        cells.0.1 < COLUMNS,
        cells.1.0 < ROWS,
        cells.1.1 < COLUMNS,
{
    let ghost start = *source;
    let from_row = source.below(3) as usize;
    let ghost one = *source;
    let from_column = source.below(10) as usize;
    let ghost two = *source;
    let to_row = source.below(3) as usize;
    let ghost three = *source;
    let to_column = source.below(10) as usize;
    proof {
        let n = start.drawn().len() as int;
        let all = source.drawn();
        assert(three.drawn() =~= all.take(n + 3));
        assert(two.drawn() =~= three.drawn().take(n + 2));
        assert(one.drawn() =~= two.drawn().take(n + 1));
        assert(start.drawn() =~= one.drawn().take(n));
        assert(all.take(n) =~= start.drawn());
        assert(one.drawn_since(start)[0] == all[n]);
        assert(two.drawn_since(one)[0] == all[n + 1]);
        assert(three.drawn_since(two)[0] == all[n + 2]);
        assert(source.drawn_since(three)[0] == all[n + 3]);
    }
    ((from_row, from_column), (to_row, to_column))
}

/// The cells of `keys` after the exchange that four drawn numbers stand for:
/// the first two give the one cell, the last two the other.
pub open spec fn drawn_swap(keys: Seq<u8>, draws: Seq<u64>) -> Seq<u8> {
    let from = cell_of_draws(draws[0], draws[1]);
    let to = cell_of_draws(draws[2], draws[3]);
    swapped(keys, cell(from.0 as int, from.1 as int), cell(to.0 as int, to.1 as int))
}

/// Exchanges the contents of two cells of `kb`, for which four numbers are
/// drawn from `source`. A draw of one cell twice leaves the layout as it was.
pub fn random_swap(kb: &mut Keyboard, source: &mut RandomSource)
    ensures
        final(source).continues(*old(source)),
        final(source).drawn_since(*old(source)).len() == 4,
        final(kb)@ == drawn_swap(old(kb)@, final(source).drawn_since(*old(source))),
        final(kb)@.to_multiset() == old(kb)@.to_multiset(),
        valid_layout(final(kb)@),
        final(kb).name_view() == old(kb).name_view(),
{
    let (from, to) = draw_cells(source);
    kb.swap_keys(from, to);
}

/// Number of cells among the first `n` of `keys` that hold `symbol`.
pub open spec fn symbol_count(keys: Seq<u8>, symbol: u8, n: int) -> int {
    keys.take(n).to_multiset().count(symbol) as int
}

fn count_symbol(keys: &Vec<u8>, symbol: u8) -> (n: usize)
    ensures
        n == keys@.to_multiset().count(symbol),
{
    let mut n: usize = 0;
    let mut i: usize = 0;
    proof {
        assert(keys@.take(0) =~= Seq::<u8>::empty());
        to_multiset_len(keys@.take(0));
        broadcast use group_multiset_axioms;

    }
    while i < keys.len()
        invariant
            i <= keys.len(),
            n <= i,
            n == symbol_count(keys@, symbol, i as int),
        decreases keys.len() - i,
    {
        proof {
            broadcast use group_multiset_axioms;

            assert(keys@.take(i + 1) =~= keys@.take(i as int).push(keys@[i as int]));
            to_multiset_build(keys@.take(i as int), keys@[i as int]);
        }
        if keys[i] == symbol {
            n += 1;
        }
        i += 1;
    }
    assert(keys@.take(i as int) =~= keys@);
    n
}

/// Tests the grid invariant on `keys`.
pub fn is_valid_layout(keys: &Vec<u8>) -> (valid: bool)
    ensures
        valid == valid_layout(keys@),
{
    if keys.len() != KEYS {
        return false;
    }
    let mut letter: u8 = FIRST_LETTER;
    while letter <= LAST_LETTER
        invariant
            FIRST_LETTER <= letter <= LAST_LETTER + 1,
            keys@.len() == KEYS,
            forall|l: u8|
                FIRST_LETTER <= l < letter ==> #[trigger] keys@.to_multiset().count(l) == 1,
        decreases LAST_LETTER + 1 - letter,
    {
        if count_symbol(keys, letter) != 1 {
            return false;
        }
        letter += 1;
    }
    true
}

} // verus!
