//! The scoring engine: from frequency tables, weights and a layout to one number.

use crate::frequency::{
    table_view, valid_entry, valid_table, valid_tables, FrequencyTables, Gram, Ngram, Tables,
    MAX_COUNT, MAX_SAMPLES_LIMIT,
};
use crate::frequency::lists;
use crate::layout::{
    is_letter, lemma_letter_position, lemma_position_of, lemma_swap_keeps_symbols, locates,
    position_of, swapped, valid_layout, Keyboard, FIRST_LETTER, KEYS,
};
use crate::text::{decimal, push_decimal, push_symbols, symbols_text};
use crate::weights::{Weights, MAX_FLAT_PENALTY, MAX_WEIGHT};
use vstd::prelude::*;

verus! {

pub const TOP_ROW: usize = 0;

pub const MIDDLE_ROW: usize = 1;

pub const BOTTOM_ROW: usize = 2;

/// Largest magnitude of what one table entry adds to one part of a score.
pub const TERM_LIMIT: i64 = 128_849_018_850_000;

/// Largest magnitude of one part of a score.
pub const CATEGORY_LIMIT: i64 = 1_288_490_188_500_000_000;

/// Largest magnitude of the once-per-letter penalties of a score.
pub const FLAT_LIMIT: i64 = 10_000_000_000_000_000;

/// Largest magnitude of a score.
pub const SCORE_LIMIT: i64 = 7_740_941_131_000_000_000;

/// Row of the cell at position `p`.
pub open spec fn row_of(p: int) -> int {
    p / 10
}

/// Column of the cell at position `p`.
pub open spec fn column_of(p: int) -> int {
    p % 10
}

/// The cell is struck by the left hand's four fingers (columns 0 to 3).
pub open spec fn left_hand(p: int) -> bool {
    column_of(p) <= 3
}

/// The cell is struck by the right hand's four fingers (columns 6 to 9).
pub open spec fn right_hand(p: int) -> bool {
    column_of(p) >= 6
}

/// From cell `p` to cell `q` is one step toward the index finger, within one
/// hand's half of `row`.
pub open spec fn inward_step(row: int, p: int, q: int) -> bool {
    &&& row_of(p) == row
    &&& row_of(q) == row
    &&& (left_hand(p) && left_hand(q) && q == p + 1) || (right_hand(p) && right_hand(q) && q + 1
        == p)
}

/// From cell `p` to cell `q` is one step away from the index finger, within
/// one hand's half of `row`.
pub open spec fn outward_step(row: int, p: int, q: int) -> bool {
    inward_step(row, q, p)
}

/// No pair of cells is a step on both rows, nor a step inward and outward.
pub proof fn lemma_steps_exclude_each_other(p: int, q: int)
    requires
        0 <= p < KEYS,
        0 <= q < KEYS,
    ensures
        !(inward_step(MIDDLE_ROW as int, p, q) && outward_step(MIDDLE_ROW as int, p, q)),
        !(inward_step(TOP_ROW as int, p, q) && outward_step(TOP_ROW as int, p, q)),
        !((inward_step(MIDDLE_ROW as int, p, q) || outward_step(MIDDLE_ROW as int, p, q)) && (
        inward_step(TOP_ROW as int, p, q) || outward_step(TOP_ROW as int, p, q))),
{
}

/// Weight of one occurrence of a letter at cell `p`.
pub open spec fn single_weight(w: Weights, p: int) -> int {
    if row_of(p) == TOP_ROW {
        w.single_top as int
    } else if row_of(p) == MIDDLE_ROW {
        w.single_middle as int
    } else {
        w.single_bottom as int
    }
}

/// Bonus of one occurrence of two letters at cells `a` and `b`, typed in that
/// order. Two cells meet at most one of the four cases
/// (`lemma_steps_exclude_each_other`).
pub open spec fn double_weight(w: Weights, a: int, b: int) -> int {
    if inward_step(MIDDLE_ROW as int, a, b) {
        w.double_middle_inward as int
    } else if outward_step(MIDDLE_ROW as int, a, b) {
        w.double_middle_outward as int
    } else if inward_step(TOP_ROW as int, a, b) {
        w.double_top_inward as int
    } else if outward_step(TOP_ROW as int, a, b) {
        w.double_top_outward as int
    } else {
        0
    }
}

/// Two middle-row keys toward the index finger, then the bottom-row key
/// below that hand's reach: columns 0, 1 or 1, 2 and then bottom 2 for the
/// left hand, columns 9, 8 or 8, 7 and then bottom 6 for the right.
pub open spec fn jroll_inward(a: int, b: int, c: int) -> bool {
    ||| a == 10 && b == 11 && c == 22
    ||| a == 11 && b == 12 && c == 22
    ||| a == 19 && b == 18 && c == 26
    ||| a == 18 && b == 17 && c == 26
}

/// The bottom-row key first, then two middle-row keys away from the index finger.
pub open spec fn jroll_outward(a: int, b: int, c: int) -> bool {
    ||| a == 22 && b == 12 && c == 11
    ||| a == 26 && b == 17 && c == 18
}

/// Bonus of one occurrence of three letters at cells `a`, `b`, `c`.
pub open spec fn triple_weight(w: Weights, a: int, b: int, c: int) -> int {
    if inward_step(MIDDLE_ROW as int, a, b) && inward_step(MIDDLE_ROW as int, b, c) {
        w.triple_middle_inward as int
    } else if outward_step(MIDDLE_ROW as int, a, b) && outward_step(MIDDLE_ROW as int, b, c) {
        w.triple_middle_outward as int
    } else if inward_step(TOP_ROW as int, a, b) && inward_step(TOP_ROW as int, b, c) {
        w.triple_top_inward as int
    } else if outward_step(TOP_ROW as int, a, b) && outward_step(TOP_ROW as int, b, c) {
        w.triple_top_outward as int
    } else if jroll_inward(a, b, c) {
        w.jroll_inward as int
    } else if jroll_outward(a, b, c) {
        w.jroll_outward as int
    } else {
        0
    }
}

/// Three middle-row keys toward the index finger, then the bottom-row key
/// below it.
pub open spec fn long_jroll_inward(a: int, b: int, c: int, d: int) -> bool {
    ||| a == 11 && b == 12 && c == 13 && d == 23
    ||| a == 19 && b == 18 && c == 17 && d == 26
}

/// Bonus of one occurrence of four letters at cells `a`, `b`, `c`, `d`.
pub open spec fn quadruple_weight(w: Weights, a: int, b: int, c: int, d: int) -> int {
    if inward_step(MIDDLE_ROW as int, a, b) && inward_step(MIDDLE_ROW as int, b, c) && inward_step(
        MIDDLE_ROW as int,
        c,
        d,
    ) {
        w.quadruple_middle_inward as int
    } else if outward_step(MIDDLE_ROW as int, a, b) && outward_step(MIDDLE_ROW as int, b, c)
        && outward_step(MIDDLE_ROW as int, c, d) {
        w.quadruple_middle_outward as int
    } else if inward_step(TOP_ROW as int, a, b) && inward_step(TOP_ROW as int, b, c)
        && inward_step(TOP_ROW as int, c, d) {
        w.quadruple_top_inward as int
    } else if outward_step(TOP_ROW as int, a, b) && outward_step(TOP_ROW as int, b, c)
        && outward_step(TOP_ROW as int, c, d) {
        w.quadruple_top_outward as int
    } else if long_jroll_inward(a, b, c, d) {
        w.long_jroll_inward as int
    } else {
        0
    }
}

/// One of the two centre columns.
pub open spec fn center_column(p: int) -> bool {
    column_of(p) == 4 || column_of(p) == 5
}

/// An outer corner of the grid: the little finger stretched up or down.
pub open spec fn pinkie_cell(p: int) -> bool {
    p == 0 || p == 9 || p == 20 || p == 29
}

/// The cells of the bottom row next to the centre columns, which a finger
/// reaches by curling inward.
pub open spec fn curl_cell(p: int) -> bool {
    p == 23 || p == 26
}

/// The three rightmost cells of the bottom row.
pub open spec fn protected_cell(p: int) -> bool {
    p == 27 || p == 28 || p == 29
}

/// Penalty of one occurrence of a letter at cell `p` (the charge for a
/// protected cell, which no count multiplies, is not part of it).
pub open spec fn position_penalty(w: Weights, p: int) -> int {
    (if !center_column(p) {
        0
    } else if row_of(p) == TOP_ROW {
        w.center_top_penalty as int
    } else if row_of(p) == MIDDLE_ROW {
        w.center_middle_penalty as int
    } else {
        w.center_bottom_penalty as int
    }) + (if pinkie_cell(p) {
        w.pinkie_penalty as int
    } else {
        0
    }) + (if curl_cell(p) {
        w.minor_finger_curl_penalty as int
    } else {
        0
    })
}

/// Penalty of one occurrence of two letters at cells `a` and `b`: for a jump
/// between top and bottom row, and for one finger moving along its column.
pub open spec fn move_penalty(w: Weights, a: int, b: int) -> int {
    (if (row_of(a) == TOP_ROW && row_of(b) == BOTTOM_ROW) || (row_of(a) == BOTTOM_ROW && row_of(b)
        == TOP_ROW) {
        w.two_row_move_penalty as int
    } else {
        0
    }) + (if column_of(a) == column_of(b) && row_of(a) != row_of(b) {
        w.same_finger_penalty as int
    } else {
        0
    })
}

pub open spec fn single_weights(w: Weights, keys: Seq<u8>) -> spec_fn(Seq<u8>) -> int {
    |g: Seq<u8>| single_weight(w, position_of(keys, g[0]))
}

pub open spec fn double_weights(w: Weights, keys: Seq<u8>) -> spec_fn(Seq<u8>) -> int {
    |g: Seq<u8>| double_weight(w, position_of(keys, g[0]), position_of(keys, g[1]))
}

pub open spec fn triple_weights(w: Weights, keys: Seq<u8>) -> spec_fn(Seq<u8>) -> int {
    |g: Seq<u8>|
        triple_weight(w, position_of(keys, g[0]), position_of(keys, g[1]), position_of(keys, g[2]))
}

pub open spec fn quadruple_weights(w: Weights, keys: Seq<u8>) -> spec_fn(Seq<u8>) -> int {
    |g: Seq<u8>|
        quadruple_weight(
            w,
            position_of(keys, g[0]),
            position_of(keys, g[1]),
            position_of(keys, g[2]),
            position_of(keys, g[3]),
        )
}

pub open spec fn position_penalties(w: Weights, keys: Seq<u8>) -> spec_fn(Seq<u8>) -> int {
    |g: Seq<u8>| position_penalty(w, position_of(keys, g[0]))
}

pub open spec fn move_penalties(w: Weights, keys: Seq<u8>) -> spec_fn(Seq<u8>) -> int {
    |g: Seq<u8>| move_penalty(w, position_of(keys, g[0]), position_of(keys, g[1]))
}

/// Sum over the first `n` entries of `table` of count times `weight` of the letters.
pub open spec fn weighted_total(table: Seq<Gram>, weight: spec_fn(Seq<u8>) -> int, n: int) -> int
    decreases n,
{
    if n <= 0 {
        0
    } else {
        weighted_total(table, weight, n - 1) + table[n - 1].count * weight(table[n - 1].letters)
    }
}

/// Number of the first `n` letters of `singles` that sit in a protected cell of `keys`.
pub open spec fn protected_letters(singles: Seq<Gram>, keys: Seq<u8>, n: int) -> int
    decreases n,
{
    if n <= 0 {
        0
    } else {
        protected_letters(singles, keys, n - 1) + if protected_cell(
            position_of(keys, singles[n - 1].letters[0]),
        ) {
            1int
        } else {
            0int
        }
    }
}

pub open spec fn singles_score(t: Tables, w: Weights, keys: Seq<u8>) -> int {
    weighted_total(t.singles, single_weights(w, keys), t.singles.len() as int)
}

pub open spec fn doubles_score(t: Tables, w: Weights, keys: Seq<u8>) -> int {
    weighted_total(t.doubles, double_weights(w, keys), t.doubles.len() as int)
}

pub open spec fn triples_score(t: Tables, w: Weights, keys: Seq<u8>) -> int {
    weighted_total(t.triples, triple_weights(w, keys), t.triples.len() as int)
}

pub open spec fn quadruples_score(t: Tables, w: Weights, keys: Seq<u8>) -> int {
    weighted_total(t.quadruples, quadruple_weights(w, keys), t.quadruples.len() as int)
}

/// The charge for letters in protected cells: the fixed penalty, once for
/// each counted letter that sits in one.
pub open spec fn protected_charge(t: Tables, w: Weights, keys: Seq<u8>) -> int {
    w.bottom_right_penalty * protected_letters(t.singles, keys, t.singles.len() as int)
}

pub open spec fn penalties_score(t: Tables, w: Weights, keys: Seq<u8>) -> int {
    weighted_total(t.singles, position_penalties(w, keys), t.singles.len() as int)
        + protected_charge(t, w, keys) + weighted_total(
        t.doubles,
        move_penalties(w, keys),
        t.doubles.len() as int,
    )
}

/// The score of the layout `keys` under tables `t` and weights `w`.
pub open spec fn score(t: Tables, w: Weights, keys: Seq<u8>) -> int {
    singles_score(t, w, keys) + doubles_score(t, w, keys) + triples_score(t, w, keys) + (if w.use_quadruple_roll {
        quadruples_score(t, w, keys)
    } else {
        0
    }) + penalties_score(t, w, keys)
}

proof fn lemma_term_bound(count: int, weight: int)
    requires
        1 <= count <= MAX_COUNT,
        -3 * MAX_WEIGHT <= weight <= 3 * MAX_WEIGHT,
    ensures
        -TERM_LIMIT <= count * weight <= TERM_LIMIT,
{
    assert(-TERM_LIMIT <= count * weight <= TERM_LIMIT) by (nonlinear_arith)
        requires
            1 <= count <= 4_294_967_295,
            -30_000 <= weight <= 30_000,
            TERM_LIMIT == 128_849_018_850_000,
    ;
}

proof fn lemma_weighted_total_bounds(
    table: Seq<Gram>,
    weight: spec_fn(Seq<u8>) -> int,
    arity: int,
    n: int,
)
    requires
        valid_table(table, arity),
        0 <= n <= table.len(),
        forall|g: Seq<u8>| -3 * MAX_WEIGHT <= #[trigger] weight(g) <= 3 * MAX_WEIGHT,
    ensures
        -(n * TERM_LIMIT) <= weighted_total(table, weight, n) <= n * TERM_LIMIT,
    decreases n,
{
    if n > 0 {
        lemma_weighted_total_bounds(table, weight, arity, n - 1);
        assert(valid_entry(table[n - 1], arity));
        lemma_term_bound(table[n - 1].count, weight(table[n - 1].letters));
    }
}

proof fn lemma_protected_letters_bounds(singles: Seq<Gram>, keys: Seq<u8>, n: int)
    requires
        0 <= n,
    ensures
        0 <= protected_letters(singles, keys, n) <= n,
    decreases n,
{
    if n > 0 {
        lemma_protected_letters_bounds(singles, keys, n - 1);
    }
}

/// Under valid tables and weights the score of any layout is within `SCORE_LIMIT`.
pub proof fn lemma_score_bounds(t: Tables, w: Weights, keys: Seq<u8>)
    requires
        valid_tables(t),
        w.valid(),
    ensures
        -SCORE_LIMIT <= score(t, w, keys) <= SCORE_LIMIT,
{
    lemma_weighted_total_bounds(t.singles, single_weights(w, keys), 1, t.singles.len() as int);
    lemma_weighted_total_bounds(t.doubles, double_weights(w, keys), 2, t.doubles.len() as int);
    lemma_weighted_total_bounds(t.triples, triple_weights(w, keys), 3, t.triples.len() as int);
    lemma_weighted_total_bounds(
        t.quadruples,
        quadruple_weights(w, keys),
        4,
        t.quadruples.len() as int,
    );
    lemma_weighted_total_bounds(t.singles, position_penalties(w, keys), 1, t.singles.len() as int);
    lemma_weighted_total_bounds(t.doubles, move_penalties(w, keys), 2, t.doubles.len() as int);
    lemma_protected_letters_bounds(t.singles, keys, t.singles.len() as int);
    let charged = protected_letters(t.singles, keys, t.singles.len() as int);
    let flat = w.bottom_right_penalty as int;
    assert(-FLAT_LIMIT <= flat * charged <= FLAT_LIMIT) by (nonlinear_arith)
        requires
            0 <= charged <= 10_000,
            -1_000_000_000_000 <= flat <= 1_000_000_000_000,
            FLAT_LIMIT == 10_000_000_000_000_000,
    ;
}

/// Where the tables are empty, every layout scores nothing.
pub proof fn lemma_empty_tables_score_nothing(t: Tables, w: Weights, keys: Seq<u8>)
    requires
        t.singles.len() == 0,
        t.doubles.len() == 0,
        t.triples.len() == 0,
        t.quadruples.len() == 0,
    ensures
        score(t, w, keys) == 0,
{
}

/// The score of `keys` with the charge for protected cells left out.
pub open spec fn unprotected_score(t: Tables, w: Weights, keys: Seq<u8>) -> int {
    score(t, w, keys) - protected_charge(t, w, keys)
}

proof fn lemma_protected_letters_after_move(
    singles: Seq<Gram>,
    keys: Seq<u8>,
    from: int,
    to: int,
    at: int,
    n: int,
)
    requires
        valid_table(singles, 1),
        valid_layout(keys),
        protected_cell(from),
        0 <= to < KEYS,
        !protected_cell(to),
        0 <= at < singles.len(),
        singles[at].letters == seq![keys[from]],
        !lists(singles, seq![keys[to]]),
        0 <= n <= singles.len(),
    ensures
        protected_letters(singles, swapped(keys, from, to), n) == protected_letters(
            singles,
            keys,
            n,
        ) - if at < n {
            1int
        } else {
            0int
        },
    decreases n,
{
    if n > 0 {
        lemma_protected_letters_after_move(singles, keys, from, to, at, n - 1);
        let after = swapped(keys, from, to);
        lemma_swap_keeps_symbols(keys, from, to);
        let entry = singles[n - 1];
        assert(valid_entry(entry, 1));
        let letter = entry.letters[0];
        assert(is_letter(letter));
        assert(valid_entry(singles[at], 1));
        assert(singles[at].letters[0] == keys[from]);
        lemma_letter_position(keys, letter);
        let p = position_of(keys, letter);
        if n - 1 == at {
            lemma_position_of(keys, letter, from);
            assert(after[to] == letter);
            lemma_position_of(after, letter, to);
        } else {
            if letter == keys[from] {
                assert(entry.letters =~= singles[at].letters);
            }
            if letter == keys[to] {
                assert(entry.letters =~= seq![keys[to]]);
                assert(lists(singles, seq![keys[to]]));
            }
            assert(p != from && p != to);
            assert(after[p] == letter);
            lemma_position_of(after, letter, p);
        }
    }
}

/// The price of a protected cell. A counted letter leaves one of the three
/// rightmost cells of the bottom row for a cell outside them, whose symbol,
/// one that the tables do not count, takes its place. The score then changes
/// by what all the other bonuses and penalties change by, and by the fixed
/// penalty, which is no longer charged. So where the rest of the score does
/// not go down, the layout with the letter in the protected cell scores lower
/// by at least the magnitude of that penalty.
pub proof fn lemma_leaving_protected_cell(
    t: Tables,
    w: Weights,
    keys: Seq<u8>,
    from: int,
    to: int,
)
    requires
        valid_tables(t),
        valid_layout(keys),
        protected_cell(from),
        0 <= to < KEYS,
        !protected_cell(to),
        lists(t.singles, seq![keys[from]]),
        !lists(t.singles, seq![keys[to]]),
    ensures
        score(t, w, swapped(keys, from, to)) - score(t, w, keys) == unprotected_score(
            t,
            w,
            swapped(keys, from, to),
        ) - unprotected_score(t, w, keys) - w.bottom_right_penalty,
        unprotected_score(t, w, swapped(keys, from, to)) >= unprotected_score(t, w, keys) ==> score(
            t,
            w,
            keys,
        ) <= score(t, w, swapped(keys, from, to)) + w.bottom_right_penalty,
{
    let singles = t.singles;
    let at = choose|i: int| 0 <= i < singles.len() && (#[trigger] singles[i]).letters == seq![
        keys[from],
    ];
    lemma_protected_letters_after_move(singles, keys, from, to, at, singles.len() as int);
    let before = protected_letters(singles, keys, singles.len() as int);
    let flat = w.bottom_right_penalty as int;
    assert(flat * (before - 1) == flat * before - flat) by (nonlinear_arith);
}

fn row_at(p: usize) -> (row: usize)
    ensures
        row == row_of(p as int),
{
    p / 10
}

fn column_at(p: usize) -> (column: usize)
    ensures
        column == column_of(p as int),
{
    p % 10
}

fn inward_step_at(row: usize, p: usize, q: usize) -> (yes: bool)
    requires
        p < KEYS,
        q < KEYS,
    ensures
        yes == inward_step(row as int, p as int, q as int),
{
    row_at(p) == row && row_at(q) == row && ((column_at(p) <= 3 && column_at(q) <= 3 && q == p + 1)
        || (column_at(p) >= 6 && column_at(q) >= 6 && q + 1 == p))
}

fn single_weight_at(w: &Weights, p: usize) -> (weight: i64)
    ensures
        weight == single_weight(*w, p as int),
{
    let row = row_at(p);
    if row == TOP_ROW {
        w.single_top
    } else if row == MIDDLE_ROW {
        w.single_middle
    } else {
        w.single_bottom
    }
}

fn double_weight_at(w: &Weights, a: usize, b: usize) -> (weight: i64)
    requires
        a < KEYS,
        b < KEYS,
    ensures
        weight == double_weight(*w, a as int, b as int),
{
    if inward_step_at(MIDDLE_ROW, a, b) {
        w.double_middle_inward
    } else if inward_step_at(MIDDLE_ROW, b, a) {
        w.double_middle_outward
    } else if inward_step_at(TOP_ROW, a, b) {
        w.double_top_inward
    } else if inward_step_at(TOP_ROW, b, a) {
        w.double_top_outward
    } else {
        0
    }
}

fn triple_weight_at(w: &Weights, a: usize, b: usize, c: usize) -> (weight: i64)
    requires
        a < KEYS,
        b < KEYS,
        c < KEYS,
    ensures
        weight == triple_weight(*w, a as int, b as int, c as int),
{
    if inward_step_at(MIDDLE_ROW, a, b) && inward_step_at(MIDDLE_ROW, b, c) {
        w.triple_middle_inward
    } else if inward_step_at(MIDDLE_ROW, b, a) && inward_step_at(MIDDLE_ROW, c, b) {
        w.triple_middle_outward
    } else if inward_step_at(TOP_ROW, a, b) && inward_step_at(TOP_ROW, b, c) {
        w.triple_top_inward
    } else if inward_step_at(TOP_ROW, b, a) && inward_step_at(TOP_ROW, c, b) {
        w.triple_top_outward
    } else if (a == 10 && b == 11 && c == 22) || (a == 11 && b == 12 && c == 22) || (a == 19 && b
        == 18 && c == 26) || (a == 18 && b == 17 && c == 26) {
        w.jroll_inward
    } else if (a == 22 && b == 12 && c == 11) || (a == 26 && b == 17 && c == 18) {
        w.jroll_outward
    } else {
        0
    }
}

fn quadruple_weight_at(w: &Weights, a: usize, b: usize, c: usize, d: usize) -> (weight: i64)
    requires
        a < KEYS,
        b < KEYS,
        c < KEYS,
        d < KEYS,
    ensures
        weight == quadruple_weight(*w, a as int, b as int, c as int, d as int),
{
    if inward_step_at(MIDDLE_ROW, a, b) && inward_step_at(MIDDLE_ROW, b, c) && inward_step_at(
        MIDDLE_ROW,
        c,
        d,
    ) {
        w.quadruple_middle_inward
    } else if inward_step_at(MIDDLE_ROW, b, a) && inward_step_at(MIDDLE_ROW, c, b)
        && inward_step_at(MIDDLE_ROW, d, c) {
        w.quadruple_middle_outward
    } else if inward_step_at(TOP_ROW, a, b) && inward_step_at(TOP_ROW, b, c) && inward_step_at(
        TOP_ROW,
        c,
        d,
    ) {
        w.quadruple_top_inward
    } else if inward_step_at(TOP_ROW, b, a) && inward_step_at(TOP_ROW, c, b) && inward_step_at(
        TOP_ROW,
        d,
        c,
    ) {
        w.quadruple_top_outward
    } else if (a == 11 && b == 12 && c == 13 && d == 23) || (a == 19 && b == 18 && c == 17 && d
        == 26) {
        w.long_jroll_inward
    } else {
        0
    }
}

fn position_penalty_at(w: &Weights, p: usize) -> (weight: i64)
    requires
        w.valid(),
    ensures
        weight == position_penalty(*w, p as int),
{
    let row = row_at(p);
    let column = column_at(p);
    let mut weight: i64 = 0;
    if column == 4 || column == 5 {
        if row == TOP_ROW {
            weight = weight + w.center_top_penalty;
        } else if row == MIDDLE_ROW {
            weight = weight + w.center_middle_penalty;
        } else {
            weight = weight + w.center_bottom_penalty;
        }
    }
    if p == 0 || p == 9 || p == 20 || p == 29 {
        weight = weight + w.pinkie_penalty;
    }
    if p == 23 || p == 26 {
        weight = weight + w.minor_finger_curl_penalty;
    }
    weight
}

fn move_penalty_at(w: &Weights, a: usize, b: usize) -> (weight: i64)
    requires
        w.valid(),
    ensures
        weight == move_penalty(*w, a as int, b as int),
{
    let from_row = row_at(a);
    let to_row = row_at(b);
    let mut weight: i64 = 0;
    if (from_row == TOP_ROW && to_row == BOTTOM_ROW) || (from_row == BOTTOM_ROW && to_row
        == TOP_ROW) {
        weight = weight + w.two_row_move_penalty;
    }
    if column_at(a) == column_at(b) && from_row != to_row {
        weight = weight + w.same_finger_penalty;
    }
    weight
}

fn protected_at(p: usize) -> (yes: bool)
    ensures
        yes == protected_cell(p as int),
{
    p == 27 || p == 28 || p == 29
}

/// The line that shows one entry: its letters, a colon and a space, its count.
pub open spec fn entry_text(entry: Gram) -> Seq<char> {
    symbols_text(entry.letters) + seq![':', ' '] + decimal(entry.count)
}

/// The lines that show the entries of `table`, in the table's order.
pub open spec fn table_text(table: Seq<Gram>) -> Seq<Seq<char>> {
    table.map_values(|entry: Gram| entry_text(entry))
}

/// Lines of text, each by its characters.
pub open spec fn lines_view(lines: Seq<String>) -> Seq<Seq<char>> {
    lines.map_values(|line: String| line@)
}

fn push_table_lines(lines: &mut Vec<String>, table: &Vec<Ngram>)
    ensures
        lines_view(final(lines)@) == lines_view(old(lines)@) + table_text(table_view(table@)),
{
    let mut i: usize = 0;
    assert(table_text(table_view(table@)).take(0) =~= Seq::<Seq<char>>::empty());
    assert(lines_view(lines@) =~= lines_view(old(lines)@) + table_text(table_view(table@)).take(0));
    while i < table.len()
        invariant
            i <= table@.len(),
            lines_view(lines@) == lines_view(old(lines)@) + table_text(table_view(table@)).take(
                i as int,
            ),
        decreases table@.len() - i,
    {
        let entry = &table[i];
        let mut line = String::new();
        push_symbols(&mut line, &entry.letters);
        line.push(':');
        line.push(' ');
        push_decimal(&mut line, entry.count);
        assert(line@ =~= entry_text(entry@));
        let ghost before = lines@;
        lines.push(line);
        assert(lines_view(lines@) =~= lines_view(before).push(line@));
        assert(table_text(table_view(table@)).take(i + 1) =~= table_text(table_view(table@)).take(
            i as int,
        ).push(entry_text(entry@)));
        assert(lines_view(lines@) =~= lines_view(old(lines)@) + table_text(
            table_view(table@),
        ).take(i + 1));
        i += 1;
    }
    assert(table_text(table_view(table@)).take(i as int) =~= table_text(table_view(table@)));
}

/// The position of the letter at `index` of `entry`, read from `cells`.
fn cell_of(cells: &Vec<usize>, entry: &Ngram, index: usize, kb: &Keyboard) -> (p: usize)
    requires
        locates(cells@, kb@),
        index < entry.letters@.len(),
        is_letter(entry.letters@[index as int]),
    ensures
        p == position_of(kb@, entry.letters@[index as int]),
        p < KEYS,
{
    let letter = entry.letters[index];
    cells[(letter - FIRST_LETTER) as usize]
}

/// The parts of a score: what the single letters add, what the rolls of
/// two, three and four letters add, and what the penalties take away.
#[derive(Clone, Copy, PartialEq, Eq, Debug, Structural)]
pub struct ScoreComponents {
    pub single: i64,
    pub double: i64,
    pub triple: i64,
    /// Zero where rolls of four letters are switched off.
    pub quadruple: i64,
    pub penalty: i64,
}

impl ScoreComponents {
    /// The score that the parts add up to.
    pub open spec fn sum(&self) -> int {
        self.single + self.double + self.triple + self.quadruple + self.penalty
    }

    /// The score that the parts add up to.
    pub fn total(&self) -> (total: i64)
        requires
            i64::MIN <= self.sum() <= i64::MAX,
        ensures
            total == self.sum(),
    {
        let wide = self.single as i128 + self.double as i128 + self.triple as i128
            + self.quadruple as i128 + self.penalty as i128;
        wide as i64
    }
}

/// Why a scorer could not be made.
#[derive(Clone, Copy, PartialEq, Eq, Debug, Structural)]
pub enum ScoreError {
    /// A weight is beyond `MAX_WEIGHT`, or the fixed penalty beyond `MAX_FLAT_PENALTY`.
    WeightOutOfRange,
}

/// Frequency tables and weights, ready to score layouts.
pub struct Scorer {
    tables: FrequencyTables,
    weights: Weights,
}

impl Scorer {
    #[verifier::type_invariant]
    pub open spec fn well_formed(&self) -> bool {
        &&& self.weights().valid()
        &&& valid_tables(self.tables())
    }

    pub closed spec fn tables(&self) -> Tables {
        self.tables@
    }

    pub closed spec fn weights(&self) -> Weights {
        self.weights
    }

    /// What `score_keyboard` returns for a layout with cells `keys`.
    pub open spec fn score_of(&self, keys: Seq<u8>) -> int {
        score(self.tables(), self.weights(), keys)
    }

    pub fn new(tables: FrequencyTables, weights: Weights) -> (made: Result<Scorer, ScoreError>)
        ensures
            made.is_ok() == weights.valid(),
            made matches Ok(scorer) ==> scorer.tables() == tables@ && scorer.weights() == weights,
            made matches Err(e) ==> e == ScoreError::WeightOutOfRange,
    {
        proof {
            use_type_invariant(&tables);
        }
        if weights.is_valid() {
            Ok(Scorer { tables, weights })
        } else {
            Err(ScoreError::WeightOutOfRange)
        }
    }

    /// One line for every entry of the tables: the single letters first,
    /// then the runs of two, of three and of four.
    pub fn debug(&self) -> (lines: Vec<String>)
        ensures
            lines_view(lines@) == table_text(self.tables().singles) + table_text(
                self.tables().doubles,
            ) + table_text(self.tables().triples) + table_text(self.tables().quadruples),
    {
        let mut lines: Vec<String> = Vec::new();
        assert(lines_view(lines@) =~= Seq::<Seq<char>>::empty());
        push_table_lines(&mut lines, self.tables.singles());
        push_table_lines(&mut lines, self.tables.doubles());
        push_table_lines(&mut lines, self.tables.triples());
        push_table_lines(&mut lines, self.tables.quadruples());
        assert(lines_view(lines@) =~= table_text(self.tables().singles) + table_text(
            self.tables().doubles,
        ) + table_text(self.tables().triples) + table_text(self.tables().quadruples));
        lines
    }

    pub fn frequency_tables(&self) -> (tables: &FrequencyTables)
        ensures
            tables@ == self.tables(),
    {
        &self.tables
    }

    pub fn model(&self) -> (weights: &Weights)
        ensures
            *weights == self.weights(),
            weights.valid(),
    {
        proof {
            use_type_invariant(self);
        }
        &self.weights
    }

    pub fn score_singles(&self, kb: &Keyboard) -> (total: i64)
        ensures
            total == singles_score(self.tables(), self.weights(), kb@),
            -CATEGORY_LIMIT <= total <= CATEGORY_LIMIT,
    {
        proof {
            use_type_invariant(self);
        }
        let cells = kb.letter_positions();
        let table = self.tables.singles();
        let ghost weight_of = single_weights(self.weights, kb@);
        let mut total: i64 = 0;
        let mut i: usize = 0;
        while i < table.len()
            invariant
                i <= table.len() <= MAX_SAMPLES_LIMIT,
                valid_table(table_view(table@), 1),
                self.weights.valid(),
                weight_of == single_weights(self.weights, kb@),
                locates(cells@, kb@),
                total == weighted_total(table_view(table@), weight_of, i as int),
                -(i * TERM_LIMIT) <= total <= i * TERM_LIMIT,
            decreases table.len() - i,
        {
            let entry = &table[i];
            assert(valid_entry(table_view(table@)[i as int], 1));
            let a = cell_of(&cells, entry, 0, kb);
            let weight = single_weight_at(&self.weights, a);
            proof {
                lemma_term_bound(entry.count as int, weight as int);
            }
            total = total + entry.count * weight;
            i += 1;
        }
        total
    }

    pub fn score_doubles(&self, kb: &Keyboard) -> (total: i64)
        ensures
            total == doubles_score(self.tables(), self.weights(), kb@),
            -CATEGORY_LIMIT <= total <= CATEGORY_LIMIT,
    {
        proof {
            use_type_invariant(self);
        }
        let cells = kb.letter_positions();
        let table = self.tables.doubles();
        let ghost weight_of = double_weights(self.weights, kb@);
        let mut total: i64 = 0;
        let mut i: usize = 0;
        while i < table.len()
            invariant
                i <= table.len() <= MAX_SAMPLES_LIMIT,
                valid_table(table_view(table@), 2),
                self.weights.valid(),
                weight_of == double_weights(self.weights, kb@),
                locates(cells@, kb@),
                total == weighted_total(table_view(table@), weight_of, i as int),
                -(i * TERM_LIMIT) <= total <= i * TERM_LIMIT,
            decreases table.len() - i,
        {
            let entry = &table[i];
            assert(valid_entry(table_view(table@)[i as int], 2));
            let a = cell_of(&cells, entry, 0, kb);
            let b = cell_of(&cells, entry, 1, kb);
            let weight = double_weight_at(&self.weights, a, b);
            proof {
                lemma_term_bound(entry.count as int, weight as int);
            }
            total = total + entry.count * weight;
            i += 1;
        }
        total
    }

    pub fn score_triples(&self, kb: &Keyboard) -> (total: i64)
        ensures
            total == triples_score(self.tables(), self.weights(), kb@),
            -CATEGORY_LIMIT <= total <= CATEGORY_LIMIT,
    {
        proof {
            use_type_invariant(self);
        }
        let cells = kb.letter_positions();
        let table = self.tables.triples();
        let ghost weight_of = triple_weights(self.weights, kb@);
        let mut total: i64 = 0;
        let mut i: usize = 0;
        while i < table.len()
            invariant
                i <= table.len() <= MAX_SAMPLES_LIMIT,
                valid_table(table_view(table@), 3),
                self.weights.valid(),
                weight_of == triple_weights(self.weights, kb@),
                locates(cells@, kb@),
                total == weighted_total(table_view(table@), weight_of, i as int),
                -(i * TERM_LIMIT) <= total <= i * TERM_LIMIT,
            decreases table.len() - i,
        {
            let entry = &table[i];
            assert(valid_entry(table_view(table@)[i as int], 3));
            let a = cell_of(&cells, entry, 0, kb);
            let b = cell_of(&cells, entry, 1, kb);
            let c = cell_of(&cells, entry, 2, kb);
            let weight = triple_weight_at(&self.weights, a, b, c);
            proof {
                lemma_term_bound(entry.count as int, weight as int);
            }
            total = total + entry.count * weight;
            i += 1;
        }
        total
    }

    pub fn score_quadruples(&self, kb: &Keyboard) -> (total: i64)
        ensures
            total == quadruples_score(self.tables(), self.weights(), kb@),
            -CATEGORY_LIMIT <= total <= CATEGORY_LIMIT,
    {
        proof {
            use_type_invariant(self);
        }
        let cells = kb.letter_positions();
        let table = self.tables.quadruples();
        let ghost weight_of = quadruple_weights(self.weights, kb@);
        let mut total: i64 = 0;
        let mut i: usize = 0;
        while i < table.len()
            invariant
                i <= table.len() <= MAX_SAMPLES_LIMIT,
                valid_table(table_view(table@), 4),
                self.weights.valid(),
                weight_of == quadruple_weights(self.weights, kb@),
                locates(cells@, kb@),
                total == weighted_total(table_view(table@), weight_of, i as int),
                -(i * TERM_LIMIT) <= total <= i * TERM_LIMIT,
            decreases table.len() - i,
        {
            let entry = &table[i];
            assert(valid_entry(table_view(table@)[i as int], 4));
            let a = cell_of(&cells, entry, 0, kb);
            let b = cell_of(&cells, entry, 1, kb);
            let c = cell_of(&cells, entry, 2, kb);
            let d = cell_of(&cells, entry, 3, kb);
            let weight = quadruple_weight_at(&self.weights, a, b, c, d);
            proof {
                lemma_term_bound(entry.count as int, weight as int);
            }
            total = total + entry.count * weight;
            i += 1;
        }
        total
    }

    pub fn score_penalties(&self, kb: &Keyboard) -> (total: i64)
        ensures
            total == penalties_score(self.tables(), self.weights(), kb@),
            -(2 * CATEGORY_LIMIT + FLAT_LIMIT) <= total <= 2 * CATEGORY_LIMIT + FLAT_LIMIT,
    {
        proof {
            use_type_invariant(self);
        }
        let cells = kb.letter_positions();
        let singles = self.tables.singles();
        let ghost penalty_of = position_penalties(self.weights, kb@);
        let flat = self.weights.bottom_right_penalty;
        let mut weighted: i64 = 0;
        let mut charge: i64 = 0;
        let mut i: usize = 0;
        while i < singles.len()
            invariant
                i <= singles.len() <= MAX_SAMPLES_LIMIT,
                valid_table(table_view(singles@), 1),
                self.weights.valid(),
                flat == self.weights.bottom_right_penalty,
                penalty_of == position_penalties(self.weights, kb@),
                locates(cells@, kb@),
                weighted == weighted_total(table_view(singles@), penalty_of, i as int),
                -(i * TERM_LIMIT) <= weighted <= i * TERM_LIMIT,
                0 <= protected_letters(table_view(singles@), kb@, i as int) <= i,
                charge == flat * protected_letters(table_view(singles@), kb@, i as int),
                -(i * MAX_FLAT_PENALTY) <= charge <= i * MAX_FLAT_PENALTY,
            decreases singles.len() - i,
        {
            let entry = &singles[i];
            assert(valid_entry(table_view(singles@)[i as int], 1));
            let a = cell_of(&cells, entry, 0, kb);
            let weight = position_penalty_at(&self.weights, a);
            proof {
                lemma_term_bound(entry.count as int, weight as int);
            }
            weighted = weighted + entry.count * weight;
            if protected_at(a) {
                proof {
                    let before = protected_letters(table_view(singles@), kb@, i as int);
                    assert(flat * (before + 1) == flat * before + flat) by (nonlinear_arith);
                }
                charge = charge + flat;
            }
            i += 1;
        }
        let doubles = self.tables.doubles();
        let ghost move_of = move_penalties(self.weights, kb@);
        let mut moves: i64 = 0;
        let mut j: usize = 0;
        while j < doubles.len()
            invariant
                j <= doubles.len() <= MAX_SAMPLES_LIMIT,
                valid_table(table_view(doubles@), 2),
                self.weights.valid(),
                move_of == move_penalties(self.weights, kb@),
                locates(cells@, kb@),
                moves == weighted_total(table_view(doubles@), move_of, j as int),
                -(j * TERM_LIMIT) <= moves <= j * TERM_LIMIT,
            decreases doubles.len() - j,
        {
            let entry = &doubles[j];
            assert(valid_entry(table_view(doubles@)[j as int], 2));
            let a = cell_of(&cells, entry, 0, kb);
            let b = cell_of(&cells, entry, 1, kb);
            let weight = move_penalty_at(&self.weights, a, b);
            proof {
                lemma_term_bound(entry.count as int, weight as int);
            }
            moves = moves + entry.count * weight;
            j += 1;
        }
        weighted + charge + moves
    }

    /// The parts of the score of `kb`.
    pub fn score_components(&self, kb: &Keyboard) -> (parts: ScoreComponents)
        ensures
            parts.single == singles_score(self.tables(), self.weights(), kb@),
            parts.double == doubles_score(self.tables(), self.weights(), kb@),
            parts.triple == triples_score(self.tables(), self.weights(), kb@),
            parts.quadruple == if self.weights().use_quadruple_roll {
                quadruples_score(self.tables(), self.weights(), kb@)
            } else {
                0
            },
            parts.penalty == penalties_score(self.tables(), self.weights(), kb@),
            parts.sum() == self.score_of(kb@),
            -SCORE_LIMIT <= parts.sum() <= SCORE_LIMIT,
    {
        let single = self.score_singles(kb);
        let double = self.score_doubles(kb);
        let triple = self.score_triples(kb);
        let quadruple = if self.weights.use_quadruple_roll {
            self.score_quadruples(kb)
        } else {
            0
        };
        let penalty = self.score_penalties(kb);
        ScoreComponents { single, double, triple, quadruple, penalty }
    }

    /// The score of `kb`: what its single letters, rolls and penalties add up to.
    pub fn score_keyboard(&self, kb: &Keyboard) -> (total: i64)
        ensures
            total == self.score_of(kb@),
            -SCORE_LIMIT <= total <= SCORE_LIMIT,
    {
        self.score_components(kb).total()
    }

}

} // verus!
