//! The hill climb of one worker, and the bookkeeping of the results of all.

use crate::layout::{
    alphabet_with_blanks, cell, draw_cells, drawn_swap, swapped, valid_layout, Keyboard, COLUMNS,
    ROWS,
};
use crate::random::{lemma_continues_chain, lemma_continues_itself, RandomSource};
use crate::score::{lemma_empty_tables_score_nothing, lemma_score_bounds, Scorer, SCORE_LIMIT};
use crate::text::{decimal, push_decimal, push_symbols, symbols_text};
use vstd::prelude::*;

verus! {

/// Number of steps in a row without improvement after which a climb ends.
pub const FAILED_TO_IMPROVE_LIMIT: usize = 1000;

/// Number of workers that search side by side.
pub const WORKERS: usize = 9;

/// What a climb ends with: a layout and its score.
pub struct SearchResult {
    pub score: i64,
    pub keyboard: Keyboard,
}

/// One climb: the layout it stands on, that layout's score, and the number
/// of candidates it has turned down since it last moved.
pub struct SearchWorker {
    keyboard: Keyboard,
    score: i64,
    stale: usize,
    limit: usize,
}

impl SearchWorker {
    pub closed spec fn layout(&self) -> Seq<u8> {
        self.keyboard@
    }

    /// The name of the layout that the worker stands on.
    pub closed spec fn name(&self) -> Seq<char> {
        self.keyboard.name_view()
    }

    pub closed spec fn current_score(&self) -> i64 {
        self.score
    }

    pub closed spec fn stale(&self) -> usize {
        self.stale
    }

    pub closed spec fn limit(&self) -> usize {
        self.limit
    }

    /// The climb has ended: `limit` candidates in a row were turned down.
    pub open spec fn terminated(&self) -> bool {
        self.stale() >= self.limit()
    }

    /// A worker that stands on `keyboard`, whose score is `score`.
    pub fn start(keyboard: Keyboard, score: i64, limit: usize) -> (worker: SearchWorker)
        ensures
            worker.layout() == keyboard@,
            worker.name() == keyboard.name_view(),
            worker.current_score() == score,
            worker.stale() == 0,
            worker.limit() == limit,
    {
        SearchWorker { keyboard, score, stale: 0, limit }
    }

    pub fn is_terminated(&self) -> (ended: bool)
        ensures
            ended == self.terminated(),
    {
        self.stale >= self.limit
    }

    pub fn score(&self) -> (score: i64)
        ensures
            score == self.current_score(),
    {
        self.score
    }

    pub fn keyboard(&self) -> (keyboard: &Keyboard)
        ensures
            keyboard@ == self.layout(),
            keyboard.name_view() == self.name(),
    {
        &self.keyboard
    }

    /// Decides on one candidate. It is adopted when its score is higher than
    /// that of the current layout, and only then; a candidate that is as good
    /// is turned down. The score never goes down.
    pub fn consider(&mut self, candidate: Keyboard, candidate_score: i64) -> (adopted: bool)
        requires
            old(self).stale() < usize::MAX,
        ensures
            adopted == (candidate_score > old(self).current_score()),
            adopted ==> final(self).layout() == candidate@ && final(self).name()
                == candidate.name_view() && final(self).current_score() == candidate_score
                && final(self).stale() == 0,
            !adopted ==> final(self).layout() == old(self).layout() && final(self).name()
                == old(self).name() && final(self).current_score() == old(self).current_score()
                && final(self).stale() == old(self).stale() + 1,
            final(self).limit() == old(self).limit(),
            final(self).current_score() >= old(self).current_score(),
    {
        if candidate_score > self.score {
            self.keyboard = candidate;
            self.score = candidate_score;
            self.stale = 0;
            true
        } else {
            self.stale = self.stale + 1;
            false
        }
    }

    /// One step of the climb with the two cells given: exchanges them in a
    /// copy of the current layout and decides on the copy.
    pub fn step_with(&mut self, scorer: &Scorer, from: (usize, usize), to: (usize, usize)) -> (adopted:
        bool)
        requires
            old(self).stale() < usize::MAX,
            old(self).current_score() == scorer.score_of(old(self).layout()),
            from.0 < ROWS,
            from.1 < COLUMNS,
            to.0 < ROWS,
            to.1 < COLUMNS,
        ensures
            adopted == (scorer.score_of(
                swapped(
                    old(self).layout(),
                    cell(from.0 as int, from.1 as int),
                    cell(to.0 as int, to.1 as int),
                ),
            ) > old(self).current_score()),
            adopted ==> final(self).layout() == swapped(
                old(self).layout(),
                cell(from.0 as int, from.1 as int),
                cell(to.0 as int, to.1 as int),
            ) && final(self).stale() == 0,
            !adopted ==> final(self).layout() == old(self).layout() && final(self).stale()
                == old(self).stale() + 1,
            final(self).current_score() == scorer.score_of(final(self).layout()),
            -SCORE_LIMIT <= final(self).current_score() <= SCORE_LIMIT,
            final(self).limit() == old(self).limit(),
            final(self).name() == old(self).name(),
            final(self).layout().to_multiset() == old(self).layout().to_multiset(),
            valid_layout(final(self).layout()),
    {
        proof {
            use_type_invariant(&self.keyboard);
            use_type_invariant(scorer);
            lemma_score_bounds(scorer.tables(), scorer.weights(), self.layout());
        }
        let mut candidate = self.keyboard.clone();
        candidate.swap_keys(from, to);
        let candidate_score = scorer.score_keyboard(&candidate);
        self.consider(candidate, candidate_score)
    }

    /// One step of the climb: exchanges two cells, for which four numbers
    /// are drawn from `source`, in a copy of the current layout and decides
    /// on the copy.
    pub fn step(&mut self, scorer: &Scorer, source: &mut RandomSource) -> (adopted: bool)
        requires
            old(self).stale() < usize::MAX,
            old(self).current_score() == scorer.score_of(old(self).layout()),
        ensures
            final(source).continues(*old(source)),
            final(source).drawn_since(*old(source)).len() == 4,
            adopted == (scorer.score_of(
                drawn_swap(old(self).layout(), final(source).drawn_since(*old(source))),
            ) > old(self).current_score()),
            adopted ==> final(self).layout() == drawn_swap(
                old(self).layout(),
                final(source).drawn_since(*old(source)),
            ) && final(self).stale() == 0,
            !adopted ==> final(self).layout() == old(self).layout() && final(self).stale()
                == old(self).stale() + 1,
            adopted == (final(self).current_score() > old(self).current_score()),
            final(self).current_score() == scorer.score_of(final(self).layout()),
            -SCORE_LIMIT <= final(self).current_score() <= SCORE_LIMIT,
            final(self).limit() == old(self).limit(),
            final(self).name() == old(self).name(),
            final(self).layout().to_multiset() == old(self).layout().to_multiset(),
            valid_layout(final(self).layout()),
    {
        let (from, to) = draw_cells(source);
        self.step_with(scorer, from, to)
    }

    /// The layout that the worker stands on, with its score.
    pub fn into_result(self) -> (result: SearchResult)
        ensures
            result.score == self.current_score(),
            result.keyboard@ == self.layout(),
            result.keyboard.name_view() == self.name(),
    {
        SearchResult { score: self.score, keyboard: self.keyboard }
    }
}

/// Where a climb stands after some steps: its layout, and the number of
/// candidates that it has turned down since it last moved.
pub struct Walk {
    pub layout: Seq<u8>,
    pub stale: int,
}

/// The four numbers that step `k` of a climb draws, the first step being step 0.
pub open spec fn step_draws(draws: Seq<u64>, k: int) -> Seq<u64> {
    draws.subrange(4 * k, 4 * k + 4)
}

/// Where a climb from `start` stands after `steps` steps that draw their
/// cells from `draws`, four numbers a step. At each step the two drawn cells
/// change places in a copy of the layout; the copy is adopted when it scores
/// higher than the layout, and only then.
pub open spec fn walked(scorer: Scorer, start: Seq<u8>, draws: Seq<u64>, steps: int) -> Walk
    decreases steps,
{
    if steps <= 0 {
        Walk { layout: start, stale: 0 }
    } else {
        let before = walked(scorer, start, draws, steps - 1);
        let candidate = drawn_swap(before.layout, step_draws(draws, steps - 1));
        if scorer.score_of(candidate) > scorer.score_of(before.layout) {
            Walk { layout: candidate, stale: 0 }
        } else {
            Walk { layout: before.layout, stale: before.stale + 1 }
        }
    }
}

/// The layout that a climb from `start` ends on when it draws all of `draws`.
pub open spec fn climbed(scorer: Scorer, start: Seq<u8>, draws: Seq<u64>) -> Seq<u8> {
    walked(scorer, start, draws, draws.len() as int / 4).layout
}

/// `draws` is what one whole climb from `start` draws: four numbers for
/// each of its steps, of which there is one at least; after the last step
/// `limit` candidates in a row have been turned down, and after no step
/// before it.
pub open spec fn ended(scorer: Scorer, start: Seq<u8>, draws: Seq<u64>, limit: usize) -> bool {
    let steps = draws.len() as int / 4;
    &&& draws.len() == 4 * steps
    &&& steps >= 1
    &&& walked(scorer, start, draws, steps).stale >= limit
    &&& forall|k: int|
        1 <= k < steps ==> (#[trigger] walked(scorer, start, draws, k)).stale < limit
}

/// The first steps of a climb go by the first draws alone.
pub proof fn lemma_walk_by_first_draws(
    scorer: Scorer,
    start: Seq<u8>,
    a: Seq<u64>,
    b: Seq<u64>,
    steps: int,
)
    requires
        0 <= steps,
        4 * steps <= a.len(),
        4 * steps <= b.len(),
        forall|i: int| 0 <= i < 4 * steps ==> a[i] == b[i],
    ensures
        walked(scorer, start, a, steps) == walked(scorer, start, b, steps),
    decreases steps,
{
    if steps > 0 {
        lemma_walk_by_first_draws(scorer, start, a, b, steps - 1);
        assert(step_draws(a, steps - 1) =~= step_draws(b, steps - 1));
    }
}

/// Along a climb the score never goes down, and the layout changes only
/// where the score goes up: a candidate that is as good is never adopted.
pub proof fn lemma_walk_rises(
    scorer: Scorer,
    start: Seq<u8>,
    draws: Seq<u64>,
    earlier: int,
    later: int,
)
    requires
        0 <= earlier <= later,
    ensures
        scorer.score_of(walked(scorer, start, draws, earlier).layout) < scorer.score_of(
            walked(scorer, start, draws, later).layout,
        ) || walked(scorer, start, draws, earlier).layout == walked(
            scorer,
            start,
            draws,
            later,
        ).layout,
    decreases later,
{
    if earlier < later {
        lemma_walk_rises(scorer, start, draws, earlier, later - 1);
    }
}

/// The number of candidates turned down in a row is never above the number of steps.
pub proof fn lemma_walk_stale(scorer: Scorer, start: Seq<u8>, draws: Seq<u64>, steps: int)
    requires
        0 <= steps,
    ensures
        0 <= walked(scorer, start, draws, steps).stale <= steps,
    decreases steps,
{
    if steps > 0 {
        lemma_walk_stale(scorer, start, draws, steps - 1);
    }
}

/// A climb ends at one place only: of two records of whole climbs from one
/// start, of which one begins with the other, neither is longer.
pub proof fn lemma_one_ending(
    scorer: Scorer,
    start: Seq<u8>,
    a: Seq<u64>,
    b: Seq<u64>,
    limit: usize,
)
    requires
        ended(scorer, start, a, limit),
        ended(scorer, start, b, limit),
        a.len() <= b.len(),
        forall|i: int| 0 <= i < a.len() ==> a[i] == b[i],
    ensures
        a == b,
{
    let steps = a.len() as int / 4;
    lemma_walk_by_first_draws(scorer, start, a, b, steps);
    if steps < b.len() as int / 4 {
        assert(walked(scorer, start, b, steps).stale < limit);
    }
    assert(a =~= b);
}

/// Where no layout scores higher than the start, a climb stays on the
/// start and ends after `limit` steps, or after one step where `limit` is zero.
pub proof fn lemma_climb_without_gain(
    scorer: Scorer,
    start: Seq<u8>,
    draws: Seq<u64>,
    limit: usize,
)
    requires
        forall|keys: Seq<u8>| #[trigger] scorer.score_of(keys) <= scorer.score_of(start),
        ended(scorer, start, draws, limit),
    ensures
        climbed(scorer, start, draws) == start,
        draws.len() == if limit == 0 {
            4int
        } else {
            4 * limit
        },
{
    let steps = draws.len() as int / 4;
    lemma_walk_without_gain(scorer, start, draws, steps);
    let least = if limit == 0 {
        1int
    } else {
        limit as int
    };
    if least < steps {
        lemma_walk_without_gain(scorer, start, draws, least);
        assert(walked(scorer, start, draws, least).stale < limit);
    }
}

/// With empty tables every layout scores nothing, so a climb stays on its
/// start and ends after `limit` steps, or after one step where `limit` is zero.
pub proof fn lemma_climb_on_empty_tables(
    scorer: Scorer,
    start: Seq<u8>,
    draws: Seq<u64>,
    limit: usize,
)
    requires
        scorer.tables().singles.len() == 0,
        scorer.tables().doubles.len() == 0,
        scorer.tables().triples.len() == 0,
        scorer.tables().quadruples.len() == 0,
        ended(scorer, start, draws, limit),
    ensures
        climbed(scorer, start, draws) == start,
        scorer.score_of(start) == 0,
        draws.len() == if limit == 0 {
            4int
        } else {
            4 * limit
        },
{
    assert forall|keys: Seq<u8>| #[trigger] scorer.score_of(keys) == 0 by {
        lemma_empty_tables_score_nothing(scorer.tables(), scorer.weights(), keys);
    }
    lemma_climb_without_gain(scorer, start, draws, limit);
}

/// Searches that follow one another are settled by the scorer, their
/// starts and the numbers drawn: two runs that agree in these cut the
/// numbers at the same places and end on the same layouts, with the same
/// scores.
pub proof fn lemma_searches_agree(
    scorer: Scorer,
    starts: Seq<Seq<u8>>,
    draws: Seq<u64>,
    limit: usize,
    cuts: Seq<int>,
    results: Seq<SearchResult>,
    other_cuts: Seq<int>,
    other_results: Seq<SearchResult>,
    i: int,
)
    requires
        are_searches(scorer, starts, cuts, draws, limit, results),
        are_searches(scorer, starts, other_cuts, draws, limit, other_results),
        0 <= i < results.len(),
    ensures
        cuts[i] == other_cuts[i],
        cuts[i + 1] == other_cuts[i + 1],
        results[i].keyboard@ == other_results[i].keyboard@,
        results[i].score == other_results[i].score,
    decreases i,
{
    if i > 0 {
        lemma_searches_agree(
            scorer,
            starts,
            draws,
            limit,
            cuts,
            results,
            other_cuts,
            other_results,
            i - 1,
        );
    }
    assert(is_cycle(scorer, starts, cuts, draws, limit, results, i));
    assert(is_cycle(scorer, starts, other_cuts, draws, limit, other_results, i));
    let a = draws.subrange(cuts[i], cuts[i + 1]);
    let b = draws.subrange(other_cuts[i], other_cuts[i + 1]);
    if a.len() <= b.len() {
        lemma_one_ending(scorer, starts[i], a, b, limit);
    } else {
        lemma_one_ending(scorer, starts[i], b, a, limit);
    }
}

proof fn lemma_walk_without_gain(scorer: Scorer, start: Seq<u8>, draws: Seq<u64>, steps: int)
    requires
        forall|keys: Seq<u8>| #[trigger] scorer.score_of(keys) <= scorer.score_of(start),
        0 <= steps,
    ensures
        walked(scorer, start, draws, steps) == (Walk { layout: start, stale: steps }),
    decreases steps,
{
    if steps > 0 {
        lemma_walk_without_gain(scorer, start, draws, steps - 1);
    }
}

/// Climbs from `start`: step by step, each with two cells drawn from
/// `source`, until `limit` candidates in a row have been turned down, and
/// at least for one step. The result is where the steps lead, and is never
/// worse than `start`.
pub fn climb(scorer: &Scorer, start: Keyboard, source: &mut RandomSource, limit: usize) -> (result:
    SearchResult)
    ensures
        final(source).continues(*old(source)),
        ended(*scorer, start@, final(source).drawn_since(*old(source)), limit),
        result.keyboard@ == climbed(*scorer, start@, final(source).drawn_since(*old(source))),
        result.score == scorer.score_of(result.keyboard@),
        result.score >= scorer.score_of(start@),
        valid_layout(result.keyboard@),
        result.keyboard@.to_multiset() == start@.to_multiset(),
        result.keyboard.name_view() == start.name_view(),
{
    proof {
        use_type_invariant(&start);
        lemma_continues_itself(*source);
    }
    let score = scorer.score_keyboard(&start);
    let ghost first = start@;
    let ghost name = start.name_view();
    let ghost begin = *source;
    let ghost mut steps: int = 0;
    let mut worker = SearchWorker::start(start, score, limit);
    loop
        invariant_except_break
            worker.stale() == 0 || worker.stale() < limit,
            forall|k: int|
                1 <= k <= steps ==> (#[trigger] walked(
                    *scorer,
                    first,
                    source.drawn_since(begin),
                    k,
                )).stale < limit,
        invariant
            0 <= steps,
            source.continues(begin),
            source.drawn_since(begin).len() == 4 * steps,
            worker.layout() == walked(*scorer, first, source.drawn_since(begin), steps).layout,
            worker.stale() == walked(*scorer, first, source.drawn_since(begin), steps).stale,
            worker.limit() == limit,
            worker.name() == name,
            worker.current_score() == scorer.score_of(worker.layout()),
            worker.current_score() >= scorer.score_of(first),
            worker.current_score() <= SCORE_LIMIT,
            worker.layout().to_multiset() == first.to_multiset(),
            valid_layout(worker.layout()),
        ensures
            worker.terminated(),
            1 <= steps,
            forall|k: int|
                1 <= k < steps ==> (#[trigger] walked(
                    *scorer,
                    first,
                    source.drawn_since(begin),
                    k,
                )).stale < limit,
        decreases SCORE_LIMIT - worker.current_score(), limit - worker.stale(),
    {
        let ghost halfway = *source;
        let ghost record = source.drawn_since(begin);
        worker.step(scorer, source);
        proof {
            lemma_continues_chain(begin, halfway, *source);
            let longer = source.drawn_since(begin);
            assert forall|k: int| 0 <= k <= steps implies walked(*scorer, first, longer, k)
                == walked(*scorer, first, record, k) by {
                lemma_walk_by_first_draws(*scorer, first, longer, record, k);
            }
            assert(step_draws(longer, steps) =~= source.drawn_since(halfway));
            steps = steps + 1;
        }
        if worker.is_terminated() {
            break ;
        }
    }
    worker.into_result()
}

/// `result` is what one whole search ends with that starts on `start`
/// and draws `draws`: `start` is the alphabet and four `_` in some order,
/// and the result is where the climb from it, which draws all of `draws`
/// and no more, leads.
pub open spec fn is_search(
    scorer: Scorer,
    start: Seq<u8>,
    draws: Seq<u64>,
    limit: usize,
    result: SearchResult,
) -> bool {
    &&& start.to_multiset() == alphabet_with_blanks().to_multiset()
    &&& ended(scorer, start, draws, limit)
    &&& result.keyboard@ == climbed(scorer, start, draws)
    &&& result.score == scorer.score_of(result.keyboard@)
    &&& result.keyboard.name_view() == "random"@
}

/// One whole search: a climb from a layout in random order. The shuffle
/// that makes the start asks the generator itself, so the numbers handed
/// out are those of the climb.
pub fn find_keyboard(scorer: &Scorer, source: &mut RandomSource, limit: usize) -> (result:
    SearchResult)
    ensures
        final(source).continues(*old(source)),
        exists|start: Seq<u8>| #[trigger]
            is_search(*scorer, start, final(source).drawn_since(*old(source)), limit, result),
        is_search_result(result, *scorer),
{
    let ghost begin = *source;
    let start = Keyboard::random_layout(source);
    let ghost shuffled = *source;
    let ghost first = start@;
    let result = climb(scorer, start, source, limit);
    proof {
        lemma_continues_chain(begin, shuffled, *source);
        assert(source.drawn_since(begin) =~= source.drawn_since(shuffled));
        assert(is_search(*scorer, first, source.drawn_since(begin), limit, result));
    }
    result
}

/// A result is what a whole search for `scorer` can end with: a valid layout
/// made of the alphabet and four `_`, with its score.
pub open spec fn is_search_result(result: SearchResult, scorer: Scorer) -> bool {
    &&& result.score == scorer.score_of(result.keyboard@)
    &&& valid_layout(result.keyboard@)
    &&& result.keyboard@.to_multiset() == alphabet_with_blanks().to_multiset()
    &&& result.keyboard.name_view() == "random"@
}

/// Search `i` of several that follow one another starts on `starts[i]`,
/// draws the numbers of `draws` from place `cuts[i]` up to place
/// `cuts[i + 1]`, and ends with `results[i]`.
pub open spec fn is_cycle(
    scorer: Scorer,
    starts: Seq<Seq<u8>>,
    cuts: Seq<int>,
    draws: Seq<u64>,
    limit: usize,
    results: Seq<SearchResult>,
    i: int,
) -> bool {
    &&& 0 <= cuts[i] <= cuts[i + 1] <= draws.len()
    &&& is_search(scorer, starts[i], draws.subrange(cuts[i], cuts[i + 1]), limit, results[i])
}

/// `results` are what whole searches end with that follow one another and
/// between them draw all of `draws`, each number once.
pub open spec fn are_searches(
    scorer: Scorer,
    starts: Seq<Seq<u8>>,
    cuts: Seq<int>,
    draws: Seq<u64>,
    limit: usize,
    results: Seq<SearchResult>,
) -> bool {
    &&& starts.len() == results.len()
    &&& cuts.len() == results.len() + 1
    &&& cuts[0] == 0
    &&& cuts[results.len() as int] == draws.len()
    &&& forall|i: int|
        0 <= i < results.len() ==> #[trigger] is_cycle(
            scorer,
            starts,
            cuts,
            draws,
            limit,
            results,
            i,
        )
}

/// `cycles` whole searches, one after the other, on one source of random
/// numbers. The results stand in the order in which the searches ended.
pub fn search_cycles(scorer: &Scorer, source: &mut RandomSource, limit: usize, cycles: usize) -> (results:
    Vec<SearchResult>)
    ensures
        results@.len() == cycles,
        final(source).continues(*old(source)),
        exists|starts: Seq<Seq<u8>>, cuts: Seq<int>| #[trigger]
            are_searches(
                *scorer,
                starts,
                cuts,
                final(source).drawn_since(*old(source)),
                limit,
                results@,
            ),
        forall|i: int| 0 <= i < cycles ==> is_search_result(#[trigger] results@[i], *scorer),
{
    let ghost begin = *source;
    let ghost mut starts: Seq<Seq<u8>> = Seq::empty();
    let ghost mut cuts: Seq<int> = seq![0int];
    let mut results: Vec<SearchResult> = Vec::new();
    let mut done: usize = 0;
    proof {
        lemma_continues_itself(*source);
    }
    while done < cycles
        invariant
            done <= cycles,
            results@.len() == done,
            source.continues(begin),
            are_searches(*scorer, starts, cuts, source.drawn_since(begin), limit, results@),
            forall|i: int| 0 <= i < done ==> is_search_result(#[trigger] results@[i], *scorer),
        decreases cycles - done,
    {
        let ghost halfway = *source;
        let ghost record = source.drawn_since(begin);
        let ghost earlier = results@;
        let ghost earlier_starts = starts;
        let ghost earlier_cuts = cuts;
        let result = find_keyboard(scorer, source, limit);
        let ghost start = choose|start: Seq<u8>| #[trigger]
            is_search(*scorer, start, source.drawn_since(halfway), limit, result);
        let ghost longer = source.drawn_since(begin);
        proof {
            lemma_continues_chain(begin, halfway, *source);
            starts = starts.push(start);
            cuts = cuts.push(longer.len() as int);
        }
        results.push(result);
        proof {
            assert(cuts[0] == earlier_cuts[0]);
            assert forall|i: int| 0 <= i < results@.len() implies #[trigger] is_cycle(
                *scorer,
                starts,
                cuts,
                longer,
                limit,
                results@,
                i,
            ) by {
                if i < done {
                    assert(is_cycle(*scorer, earlier_starts, earlier_cuts, record, limit, earlier, i));
                    assert(results@[i] == earlier[i]);
                    assert(starts[i] == earlier_starts[i]);
                    assert(cuts[i] == earlier_cuts[i]);
                    assert(cuts[i + 1] == earlier_cuts[i + 1]);
                    assert(longer.subrange(cuts[i], cuts[i + 1]) =~= record.subrange(
                        cuts[i],
                        cuts[i + 1],
                    ));
                } else {
                    assert(results@[i] == result);
                    assert(starts[i] == start);
                    assert(cuts[i] == earlier_cuts[done as int]);
                    assert(cuts[i + 1] == longer.len());
                    assert(longer.subrange(cuts[i], cuts[i + 1]) =~= source.drawn_since(halfway));
                }
            }
        }
        done += 1;
    }
    results
}

/// The version of the scoring rules; scores of different versions do not compare.
pub open spec fn version_text() -> Seq<char> {
    "4.419"@
}

pub fn algorithm_version() -> (version: &'static str)
    ensures
        version@ == version_text(),
{
    "4.419"
}

/// A result as its line of the log: version, score and layout, with `|` between them.
pub open spec fn result_text(score: int, keys: Seq<u8>) -> Seq<char> {
    version_text() + seq!['|'] + decimal(score) + seq!['|'] + symbols_text(keys)
}

/// The line of the log for `result`.
pub fn result_line(result: &SearchResult) -> (line: String)
    ensures
        line@ == result_text(result.score as int, result.keyboard@),
{
    let mut line = String::from_str(algorithm_version());
    line.push('|');
    push_decimal(&mut line, result.score);
    line.push('|');
    push_symbols(&mut line, result.keyboard.keys());
    assert(line@ =~= result_text(result.score as int, result.keyboard@));
    line
}

/// What is to be done with a result that has come in.
pub struct Report {
    /// The line to append to the log.
    pub log_line: String,
    /// Whether the result is better than all before it, and is to be announced.
    pub new_best: bool,
}

/// The best score among the results received so far.
pub struct ResultAggregator {
    best: i64,
}

impl ResultAggregator {
    pub closed spec fn best_score(&self) -> i64 {
        self.best
    }

    /// An aggregator that has received nothing: any result is better.
    pub fn new() -> (aggregator: ResultAggregator)
        ensures
            aggregator.best_score() == i64::MIN,
    {
        ResultAggregator { best: i64::MIN }
    }

    pub fn best(&self) -> (best: i64)
        ensures
            best == self.best_score(),
    {
        self.best
    }

    /// Takes in one result. It is a new best when its score is higher than
    /// every score before it; its line goes to the log either way.
    pub fn receive(&mut self, result: &SearchResult) -> (report: Report)
        ensures
            report.new_best == (result.score > old(self).best_score()),
            report.log_line@ == result_text(result.score as int, result.keyboard@),
            final(self).best_score() == if result.score > old(self).best_score() {
                result.score
            } else {
                old(self).best_score()
            },
    {
        let new_best = result.score > self.best;
        if new_best {
            self.best = result.score;
        }
        Report { log_line: result_line(result), new_best }
    }
}

} // verus!
