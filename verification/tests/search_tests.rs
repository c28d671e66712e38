use keylayout::frequency::FrequencyTables;
use keylayout::layout::{is_valid_layout, Keyboard};
use keylayout::random::RandomSource;
use keylayout::report::{insert_by_score, standard_scores, NamedScore};
use keylayout::score::Scorer;
use keylayout::search::{
    algorithm_version, climb, find_keyboard, result_line, search_cycles, ResultAggregator,
    SearchResult, SearchWorker, FAILED_TO_IMPROVE_LIMIT, WORKERS,
};
use keylayout::text::{push_decimal, push_symbols};
use keylayout::weights::Weights;

fn scorer_of(corpus: &[u8]) -> Scorer {
    let tables = FrequencyTables::from_corpus(corpus, 1000).expect("a corpus within the limits");
    Scorer::new(tables, Weights::standard()).expect("weights within the limits")
}

fn small_corpus() -> Vec<u8> {
    "the quick brown fox jumps over the lazy dog and then the other things happen this that "
        .repeat(20)
        .into_bytes()
}

fn names(list: &Vec<NamedScore>) -> Vec<String> {
    list.iter().map(|entry| entry.name.clone()).collect()
}

fn decimal_of(n: i64) -> String {
    let mut text = String::new();
    push_decimal(&mut text, n);
    text
}

#[test]
fn settings_have_their_values() {
    assert_eq!(FAILED_TO_IMPROVE_LIMIT, 1000);
    assert_eq!(WORKERS, 9);
    assert_eq!(algorithm_version(), "4.419");
}

#[test]
fn worker_adopts_only_what_is_better() {
    let mut worker = SearchWorker::start(Keyboard::qwerty(), 10, 3);
    assert_eq!(worker.score(), 10);
    assert!(!worker.is_terminated());
    assert!(!worker.consider(Keyboard::dvorak(), 10));
    assert_eq!(worker.score(), 10);
    assert_eq!(worker.keyboard().to_text(), Keyboard::qwerty().to_text());
    assert!(!worker.consider(Keyboard::dvorak(), 9));
    assert_eq!(worker.keyboard().to_text(), Keyboard::qwerty().to_text());
    assert!(!worker.is_terminated());
    assert!(worker.consider(Keyboard::dvorak(), 11));
    assert_eq!(worker.score(), 11);
    assert_eq!(worker.keyboard().to_text(), Keyboard::dvorak().to_text());
    assert!(!worker.is_terminated());
}

#[test]
fn worker_ends_after_the_limit_of_refusals_in_a_row() {
    let mut worker = SearchWorker::start(Keyboard::qwerty(), 0, 3);
    assert!(!worker.consider(Keyboard::dvorak(), 0));
    assert!(!worker.consider(Keyboard::dvorak(), -1));
    assert!(!worker.is_terminated());
    assert!(worker.consider(Keyboard::colemak(), 1));
    assert!(!worker.consider(Keyboard::dvorak(), 1));
    assert!(!worker.consider(Keyboard::dvorak(), 1));
    assert!(!worker.is_terminated());
    assert!(!worker.consider(Keyboard::dvorak(), 1));
    assert!(worker.is_terminated());
    let result = worker.into_result();
    assert_eq!(result.score, 1);
    assert_eq!(result.keyboard.to_text(), Keyboard::colemak().to_text());
}

#[test]
fn step_with_given_cells_decides_by_the_score() {
    let corpus = "th".repeat(100);
    let scorer = scorer_of(corpus.as_bytes());
    let start = Keyboard::new("test", b"abcdefgijklmtnhopqrsuvwxyz____".to_vec()).unwrap();
    let score = scorer.score_keyboard(&start);
    assert_eq!(score, -400);
    let mut worker = SearchWorker::start(start, score, 5);
    // `h` goes next to `t`: the pair becomes a roll
    assert!(worker.step_with(&scorer, (1, 3), (1, 4)));
    assert_eq!(worker.keyboard().to_text(), "abcdefgijklmthnopqrsuvwxyz____");
    assert_eq!(worker.score(), 2095);
    // two blanks change places: as good as before, and turned down
    assert!(!worker.step_with(&scorer, (2, 6), (2, 7)));
    assert_eq!(worker.score(), 2095);
    // `t` goes to a protected cell: worse, and turned down
    assert!(!worker.step_with(&scorer, (1, 2), (2, 9)));
    assert_eq!(worker.keyboard().to_text(), "abcdefgijklmthnopqrsuvwxyz____");
    assert_eq!(worker.score(), 2095);
    assert!(!worker.is_terminated());
}

#[test]
fn adopted_scores_never_go_down() {
    let scorer = scorer_of(&small_corpus());
    let mut source = RandomSource::seeded(17);
    let start = Keyboard::qwerty();
    let mut worker = SearchWorker::start(start.clone(), scorer.score_keyboard(&start), 200);
    let mut last = worker.score();
    let mut adoptions = 0;
    while !worker.is_terminated() {
        let adopted = worker.step(&scorer, &mut source);
        assert!(worker.score() >= last);
        assert_eq!(adopted, worker.score() > last);
        assert_eq!(worker.score(), scorer.score_keyboard(worker.keyboard()));
        if adopted {
            adoptions += 1;
        }
        last = worker.score();
    }
    assert!(adoptions > 0);
}

#[test]
fn climb_is_never_worse_than_its_start() {
    let scorer = scorer_of(&small_corpus());
    let mut source = RandomSource::seeded(1);
    let start = Keyboard::qwerty();
    let result = climb(&scorer, start.clone(), &mut source, 300);
    assert!(result.score >= scorer.score_keyboard(&start));
    assert!(result.score > scorer.score_keyboard(&start));
    assert_eq!(result.score, scorer.score_keyboard(&result.keyboard));
    let mut symbols = result.keyboard.keys().clone();
    symbols.sort();
    let mut expected = start.keys().clone();
    expected.sort();
    assert_eq!(symbols, expected);
}

#[test]
fn climb_without_gain_stays_and_draws_four_numbers_a_step() {
    let scorer = scorer_of(b"");
    for limit in [0usize, 1, 7, 1000] {
        let mut source = RandomSource::seeded(40);
        let mut twin = RandomSource::seeded(40);
        let result = climb(&scorer, Keyboard::qwerty(), &mut source, limit);
        assert_eq!(result.score, 0);
        assert_eq!(result.keyboard.to_text(), Keyboard::qwerty().to_text());
        let steps = if limit == 0 { 1 } else { limit };
        for _ in 0..4 * steps {
            twin.next_u64();
        }
        assert_eq!(source.next_u64(), twin.next_u64());
    }
}

#[test]
fn climb_goes_by_the_numbers_drawn() {
    let scorer = scorer_of(&small_corpus());
    for (seed, limit) in [(1u64, 50usize), (2, 200), (3, 0), (4, 1), (5, 400)] {
        let mut source = RandomSource::seeded(seed);
        let mut twin = RandomSource::seeded(seed);
        let start = Keyboard::colemak();
        let result = climb(&scorer, start.clone(), &mut source, limit);
        let mut worker = SearchWorker::start(start.clone(), scorer.score_keyboard(&start), limit);
        let mut steps = 0;
        loop {
            let numbers = [twin.next_u64(), twin.next_u64(), twin.next_u64(), twin.next_u64()];
            let from = ((numbers[0] % 3) as usize, (numbers[1] % 10) as usize);
            let to = ((numbers[2] % 3) as usize, (numbers[3] % 10) as usize);
            worker.step_with(&scorer, from, to);
            steps += 1;
            if worker.is_terminated() {
                break;
            }
        }
        assert!(steps >= limit);
        assert_eq!(result.score, worker.score());
        assert_eq!(result.keyboard.to_text(), worker.keyboard().to_text());
        assert_eq!(source.next_u64(), twin.next_u64());
    }
}

#[test]
fn find_keyboard_on_empty_tables_ends_on_its_start() {
    let scorer = scorer_of(b"");
    let mut source = RandomSource::seeded(9);
    let mut twin = RandomSource::seeded(9);
    let start = Keyboard::random_layout(&mut twin);
    let result = find_keyboard(&scorer, &mut source, FAILED_TO_IMPROVE_LIMIT);
    assert_eq!(result.score, 0);
    assert_eq!(result.keyboard.to_text(), start.to_text());
}

#[test]
fn climb_takes_one_step_at_least() {
    let scorer = scorer_of(&small_corpus());
    let start = Keyboard::qwerty();
    let mut moved = false;
    for seed in 0..200 {
        let mut source = RandomSource::seeded(seed);
        let result = climb(&scorer, start.clone(), &mut source, 0);
        assert!(result.score >= scorer.score_keyboard(&start));
        let changed = (0..30).filter(|i| start.keys()[*i] != result.keyboard.keys()[*i]).count();
        assert!(changed == 0 || changed == 2);
        moved = moved || changed == 2;
    }
    assert!(moved);
}

#[test]
fn find_keyboard_ends_on_a_valid_layout() {
    let scorer = scorer_of(&small_corpus());
    let mut source = RandomSource::seeded(5);
    let result = find_keyboard(&scorer, &mut source, 300);
    assert!(is_valid_layout(result.keyboard.keys()));
    assert_eq!(result.keyboard.name().as_str(), "random");
    assert_eq!(result.score, scorer.score_keyboard(&result.keyboard));
    assert_eq!(result.keyboard.keys().iter().filter(|symbol| **symbol == b'_').count(), 4);
    assert!(result.score > -10_000_000);
}

#[test]
fn same_seed_gives_the_same_results() {
    let scorer = scorer_of(&small_corpus());
    let mut runs: Vec<Vec<(i64, String)>> = Vec::new();
    for _ in 0..2 {
        let mut source = RandomSource::seeded(2024);
        let mut results = Vec::new();
        for _ in 0..3 {
            let result = find_keyboard(&scorer, &mut source, FAILED_TO_IMPROVE_LIMIT);
            results.push((result.score, result.keyboard.to_text()));
        }
        runs.push(results);
    }
    assert_eq!(runs[0], runs[1]);
    assert_ne!(runs[0][0].1, runs[0][1].1);
    let mut source = RandomSource::seeded(2025);
    let other = find_keyboard(&scorer, &mut source, FAILED_TO_IMPROVE_LIMIT);
    assert_ne!(other.keyboard.to_text(), runs[0][0].1);
}

#[test]
fn search_cycles_repeat_with_the_seed() {
    let scorer = scorer_of(&small_corpus());
    let mut one = RandomSource::seeded(77);
    let mut two = RandomSource::seeded(77);
    let first = search_cycles(&scorer, &mut one, 200, 4);
    let second = search_cycles(&scorer, &mut two, 200, 4);
    assert_eq!(first.len(), 4);
    assert_eq!(second.len(), 4);
    for (a, b) in first.iter().zip(second.iter()) {
        assert_eq!(a.score, b.score);
        assert_eq!(a.keyboard.to_text(), b.keyboard.to_text());
        assert_eq!(a.score, scorer.score_keyboard(&a.keyboard));
        assert!(is_valid_layout(a.keyboard.keys()));
    }
    assert!(search_cycles(&scorer, &mut one, 200, 0).is_empty());
}

#[test]
fn result_line_holds_version_score_and_layout() {
    let result = SearchResult { score: -195305, keyboard: Keyboard::qwerty() };
    assert_eq!(result_line(&result), "4.419|-195305|qwertyuiopasdfghjkl;zxcvbnm,./");
    let result = SearchResult { score: 0, keyboard: Keyboard::dvorak() };
    assert_eq!(result_line(&result), "4.419|0|',.pyfgcrlaoeuidhtns;qjkxbmwvz");
    let result = SearchResult { score: 2095, keyboard: Keyboard::colemak() };
    assert_eq!(result_line(&result), "4.419|2095|qwfpgjluy;arstdhneiozxcvbkm,./");
}

#[test]
fn aggregator_announces_only_a_new_best() {
    let mut aggregator = ResultAggregator::new();
    assert_eq!(aggregator.best(), i64::MIN);
    let first = aggregator.receive(&SearchResult { score: -50, keyboard: Keyboard::qwerty() });
    assert!(first.new_best);
    assert_eq!(first.log_line, "4.419|-50|qwertyuiopasdfghjkl;zxcvbnm,./");
    assert_eq!(aggregator.best(), -50);
    let same = aggregator.receive(&SearchResult { score: -50, keyboard: Keyboard::dvorak() });
    assert!(!same.new_best);
    assert_eq!(same.log_line, "4.419|-50|',.pyfgcrlaoeuidhtns;qjkxbmwvz");
    let worse = aggregator.receive(&SearchResult { score: -51, keyboard: Keyboard::dvorak() });
    assert!(!worse.new_best);
    assert_eq!(aggregator.best(), -50);
    let better = aggregator.receive(&SearchResult { score: 7, keyboard: Keyboard::workman() });
    assert!(better.new_best);
    assert_eq!(better.log_line, "4.419|7|qdrwbjfup;ashtgyneoizxmcvkl,./");
    assert_eq!(aggregator.best(), 7);
}

#[test]
fn aggregator_takes_the_lowest_score_as_no_improvement() {
    let mut aggregator = ResultAggregator::new();
    let lowest = aggregator.receive(&SearchResult { score: i64::MIN, keyboard: Keyboard::qwerty() });
    assert!(!lowest.new_best);
    assert_eq!(lowest.log_line, "4.419|-9223372036854775808|qwertyuiopasdfghjkl;zxcvbnm,./");
}

#[test]
fn standard_scores_come_lowest_first() {
    let alphabet = b"etaoinshrdlucmfwypvbgkqjxz  ";
    let mut x: u64 = 12345;
    let mut corpus = Vec::new();
    for _ in 0..50000 {
        x = (x * 1103515245 + 12345) % (1 << 31);
        corpus.push(alphabet[((x >> 16) % 28) as usize]);
    }
    let list = standard_scores(&scorer_of(&corpus));
    assert_eq!(list.len(), 4);
    for pair in list.windows(2) {
        assert!(pair[0].score <= pair[1].score);
    }
    assert_eq!(list[0].name, "dvorak");
    let scorer = scorer_of(&corpus);
    for entry in &list {
        let kb = match entry.name.as_str() {
            "qwerty" => Keyboard::qwerty(),
            "dvorak" => Keyboard::dvorak(),
            "colemak" => Keyboard::colemak(),
            "workman" => Keyboard::workman(),
            other => panic!("unknown layout {}", other),
        };
        assert_eq!(entry.score, scorer.score_keyboard(&kb));
    }
    let mut sorted = names(&list);
    sorted.sort();
    assert_eq!(sorted, vec!["colemak", "dvorak", "qwerty", "workman"]);
}

#[test]
fn standard_scores_keep_their_order_among_equals() {
    let list = standard_scores(&scorer_of(b""));
    assert_eq!(names(&list), vec!["qwerty", "dvorak", "colemak", "workman"]);
    assert!(list.iter().all(|entry| entry.score == 0));
}

#[test]
fn insert_by_score_goes_behind_equal_scores() {
    let mut list = Vec::new();
    for (name, score) in [("a", 5), ("b", 1), ("c", 5), ("d", 3), ("e", 1), ("f", 9)] {
        insert_by_score(&mut list, NamedScore { name: name.to_string(), score });
    }
    assert_eq!(names(&list), vec!["b", "e", "d", "a", "c", "f"]);
}

#[test]
fn decimal_text_of_numbers() {
    assert_eq!(decimal_of(0), "0");
    assert_eq!(decimal_of(7), "7");
    assert_eq!(decimal_of(10), "10");
    assert_eq!(decimal_of(-1), "-1");
    assert_eq!(decimal_of(1234567890), "1234567890");
    assert_eq!(decimal_of(-10_000_000), "-10000000");
    assert_eq!(decimal_of(i64::MAX), "9223372036854775807");
    assert_eq!(decimal_of(i64::MIN), "-9223372036854775808");
    for n in [-1001, -999, -100, -11, -10, -9, 9, 11, 99, 100, 101, 999, 1000] {
        assert_eq!(decimal_of(n), n.to_string());
    }
}

#[test]
fn symbols_are_appended_as_characters() {
    let mut text = String::from("x");
    push_symbols(&mut text, &b"ab;_".to_vec());
    assert_eq!(text, "xab;_");
    push_decimal(&mut text, -42);
    assert_eq!(text, "xab;_-42");
}
