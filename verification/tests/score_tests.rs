use keylayout::frequency::FrequencyTables;
use keylayout::layout::Keyboard;
use keylayout::score::{ScoreError, Scorer};
use keylayout::weights::Weights;

fn layout_of(text: &str) -> Keyboard {
    Keyboard::new("test", text.as_bytes().to_vec()).expect("a valid layout")
}

fn scorer_of(corpus: &[u8], weights: Weights) -> Scorer {
    let tables = FrequencyTables::from_corpus(corpus, 1000).expect("a corpus within the limits");
    Scorer::new(tables, weights).expect("weights within the limits")
}

/// Every weight different from every other, so that a mix-up shows.
fn distinct_weights() -> Weights {
    Weights {
        single_top: 20,
        single_middle: 19,
        single_bottom: 18,
        double_top_inward: 6,
        double_top_outward: 7,
        double_middle_inward: 4,
        double_middle_outward: 5,
        triple_top_inward: 23,
        triple_top_outward: 24,
        triple_middle_inward: 21,
        triple_middle_outward: 22,
        jroll_inward: 8,
        jroll_outward: 9,
        quadruple_top_inward: 15,
        quadruple_top_outward: 16,
        quadruple_middle_inward: 13,
        quadruple_middle_outward: 14,
        long_jroll_inward: 10,
        center_top_penalty: -3,
        center_middle_penalty: -2,
        center_bottom_penalty: -1,
        minor_finger_curl_penalty: -11,
        pinkie_penalty: -12,
        two_row_move_penalty: -25,
        same_finger_penalty: -17,
        bottom_right_penalty: -10_000_000,
        use_quadruple_roll: true,
    }
}

fn sample_corpus() -> Vec<u8> {
    let alphabet = b"etaoinshrdlucmfwypvbgkqjxz  ";
    let mut x: u64 = 12345;
    let mut corpus = Vec::new();
    for _ in 0..50000 {
        x = (x * 1103515245 + 12345) % (1 << 31);
        corpus.push(alphabet[((x >> 16) % 28) as usize]);
    }
    for _ in 0..7 {
        corpus.extend_from_slice(
            b" asc sdc cds lkm mkl snm nhm mht sdfv sntm asdf fdsa qwer rewq uiop poiu jkl lkj arst tsra neio oien ",
        );
    }
    corpus
}

fn score_on(corpus: &[u8], weights: Weights, layout: &Keyboard) -> i64 {
    scorer_of(corpus, weights).score_keyboard(layout)
}

#[test]
fn standard_weights_have_their_values() {
    let w = Weights::standard();
    assert!(w.is_valid());
    assert_eq!((w.single_top, w.single_middle, w.single_bottom), (0, 3, 0));
    assert_eq!((w.double_top_inward, w.double_top_outward), (5, 3));
    assert_eq!((w.double_middle_inward, w.double_middle_outward), (10, 5));
    assert_eq!((w.triple_top_inward, w.triple_top_outward), (35, 25));
    assert_eq!((w.triple_middle_inward, w.triple_middle_outward), (35, 25));
    assert_eq!((w.jroll_inward, w.jroll_outward, w.long_jroll_inward), (25, 10, 20));
    assert_eq!((w.quadruple_top_inward, w.quadruple_top_outward), (20, 20));
    assert_eq!((w.quadruple_middle_inward, w.quadruple_middle_outward), (20, 20));
    assert_eq!(
        (w.center_top_penalty, w.center_middle_penalty, w.center_bottom_penalty),
        (-10, -10, -10)
    );
    assert_eq!((w.minor_finger_curl_penalty, w.pinkie_penalty), (-5, -5));
    assert_eq!((w.two_row_move_penalty, w.same_finger_penalty), (-10, -5));
    assert_eq!(w.bottom_right_penalty, -10_000_000);
    assert!(!w.use_quadruple_roll);
}

#[test]
fn weights_beyond_the_limit_are_refused() {
    let tables = FrequencyTables::from_corpus(b"abc", 1000).unwrap();
    let weights = Weights { jroll_inward: 10_001, ..Weights::standard() };
    assert!(!weights.is_valid());
    assert!(matches!(Scorer::new(tables, weights), Err(ScoreError::WeightOutOfRange)));
    let tables = FrequencyTables::from_corpus(b"abc", 1000).unwrap();
    let weights = Weights { bottom_right_penalty: -1_000_000_000_001, ..Weights::standard() };
    assert!(matches!(Scorer::new(tables, weights), Err(ScoreError::WeightOutOfRange)));
    let tables = FrequencyTables::from_corpus(b"abc", 1000).unwrap();
    let weights = Weights {
        bottom_right_penalty: -1_000_000_000_000,
        pinkie_penalty: -10_000,
        single_top: 10_000,
        ..Weights::standard()
    };
    assert!(Scorer::new(tables, weights).is_ok());
}

#[test]
fn sample_tables_have_the_expected_entries() {
    let tables = FrequencyTables::from_corpus(&sample_corpus(), 1000).unwrap();
    assert_eq!(tables.singles().len(), 26);
    assert_eq!(tables.doubles().len(), 650);
    assert_eq!(tables.triples().len(), 1000);
    assert_eq!(tables.quadruples().len(), 1000);
    assert_eq!(tables.singles()[0].letters, b"o".to_vec());
    assert_eq!(tables.singles()[0].count, 1898);
    assert_eq!(tables.singles()[2].letters, b"b".to_vec());
    assert_eq!(tables.doubles()[0].letters, b"nm".to_vec());
    assert_eq!(tables.doubles()[0].count, 91);
    assert_eq!(tables.doubles()[1].letters, b"fv".to_vec());
    assert_eq!(tables.doubles()[2].letters, b"io".to_vec());
    assert_eq!(tables.doubles()[649].letters, b"se".to_vec());
    assert_eq!(tables.doubles()[649].count, 42);
    assert_eq!(tables.triples()[0].letters, b"sdf".to_vec());
    assert_eq!(tables.triples()[0].count, 17);
    assert_eq!(tables.quadruples()[0].letters, b"arst".to_vec());
    assert_eq!(tables.quadruples()[1].letters, b"asdf".to_vec());
    assert_eq!(tables.quadruples()[2].letters, b"fdsa".to_vec());
    assert_eq!(tables.quadruples()[2].count, 7);
}

#[test]
fn standard_layouts_score_under_standard_weights() {
    let scorer = scorer_of(&sample_corpus(), Weights::standard());
    assert_eq!(scorer.score_keyboard(&Keyboard::qwerty()), -195495);
    assert_eq!(scorer.score_keyboard(&Keyboard::dvorak()), -30177698);
    assert_eq!(scorer.score_keyboard(&Keyboard::colemak()), -173002);
    assert_eq!(scorer.score_keyboard(&Keyboard::workman()), -177903);
}

#[test]
fn quadruple_rolls_count_when_switched_on() {
    let weights = Weights { use_quadruple_roll: true, ..Weights::standard() };
    let scorer = scorer_of(&sample_corpus(), weights);
    assert_eq!(scorer.score_keyboard(&Keyboard::qwerty()), -194515);
    assert_eq!(scorer.score_keyboard(&Keyboard::dvorak()), -30177558);
    assert_eq!(scorer.score_keyboard(&Keyboard::colemak()), -172442);
    assert_eq!(scorer.score_keyboard(&Keyboard::workman()), -177903);
}

#[test]
fn standard_layouts_score_under_other_weights() {
    let scorer = scorer_of(&sample_corpus(), distinct_weights());
    assert_eq!(scorer.score_keyboard(&Keyboard::qwerty()), 505902);
    assert_eq!(scorer.score_keyboard(&Keyboard::dvorak()), -29464027);
    assert_eq!(scorer.score_keyboard(&Keyboard::colemak()), 548757);
    assert_eq!(scorer.score_keyboard(&Keyboard::workman()), 541565);
    let weights = Weights { use_quadruple_roll: false, ..distinct_weights() };
    let scorer = scorer_of(&sample_corpus(), weights);
    assert_eq!(scorer.score_keyboard(&Keyboard::qwerty()), 505209);
    assert_eq!(scorer.score_keyboard(&Keyboard::dvorak()), -29464097);
    assert_eq!(scorer.score_keyboard(&Keyboard::colemak()), 548379);
    assert_eq!(scorer.score_keyboard(&Keyboard::workman()), 541565);
}

#[test]
fn other_layouts_score() {
    let standard = scorer_of(&sample_corpus(), Weights::standard());
    let other = scorer_of(&sample_corpus(), distinct_weights());
    let forward = layout_of("abcdefghijklmnopqrstuvwxyz____");
    let backward = layout_of("zyxwvutsrqponmlkjihgfedcba____");
    let late = layout_of("_a_b_c_defghijklmnopqrstuvwxyz");
    assert_eq!(standard.score_keyboard(&forward), -169952);
    assert_eq!(other.score_keyboard(&forward), 561902);
    assert_eq!(standard.score_keyboard(&backward), -171397);
    assert_eq!(other.score_keyboard(&backward), 558365);
    assert_eq!(standard.score_keyboard(&late), -30163952);
    assert_eq!(other.score_keyboard(&late), -29473873);
}

#[test]
fn parts_add_up_to_the_score() {
    let scorer = scorer_of(&sample_corpus(), distinct_weights());
    let expected = [
        (Keyboard::qwerty(), [895055, 9023, 3499, 693, -402368]),
        (Keyboard::dvorak(), [885718, 5764, 495, 70, -30356074]),
        (Keyboard::colemak(), [893109, 8222, 1721, 378, -354673]),
        (Keyboard::workman(), [893403, 7804, 48, 0, -359690]),
    ];
    for (kb, parts) in expected {
        assert_eq!(scorer.score_singles(&kb), parts[0]);
        assert_eq!(scorer.score_doubles(&kb), parts[1]);
        assert_eq!(scorer.score_triples(&kb), parts[2]);
        assert_eq!(scorer.score_quadruples(&kb), parts[3]);
        assert_eq!(scorer.score_penalties(&kb), parts[4]);
        assert_eq!(scorer.score_keyboard(&kb), parts.iter().sum::<i64>());
        let components = scorer.score_components(&kb);
        assert_eq!(components.single, parts[0]);
        assert_eq!(components.double, parts[1]);
        assert_eq!(components.triple, parts[2]);
        assert_eq!(components.quadruple, parts[3]);
        assert_eq!(components.penalty, parts[4]);
        assert_eq!(components.total(), scorer.score_keyboard(&kb));
    }
}

#[test]
fn score_is_the_same_each_time() {
    let scorer = scorer_of(&sample_corpus(), Weights::standard());
    let kb = Keyboard::colemak();
    let first = scorer.score_keyboard(&kb);
    for _ in 0..5 {
        assert_eq!(scorer.score_keyboard(&kb), first);
        assert_eq!(scorer.score_keyboard(&kb.clone()), first);
    }
}

#[test]
fn single_letters_score_by_row_and_cell() {
    let qwerty = Keyboard::qwerty();
    let cases: [(&[u8], i64, i64); 9] = [
        (b"a", 19, 3),
        (b"q", 8, -5),
        (b"z", 6, -5),
        (b"g", 17, -7),
        (b"t", 17, -10),
        (b"b", 17, -10),
        (b"p", 8, -5),
        (b"m", 7, -5),
        (b"x", 18, 0),
    ];
    for (corpus, other, standard) in cases {
        assert_eq!(score_on(corpus, distinct_weights(), &qwerty), other);
        assert_eq!(score_on(corpus, Weights::standard(), &qwerty), standard);
    }
}

#[test]
fn pairs_score_by_hand_row_and_direction() {
    let qwerty = Keyboard::qwerty();
    let cases: [(&[u8], i64, i64); 13] = [
        (b"as", 42, 16),
        (b"sa", 43, 11),
        (b"lk", 42, 16),
        (b"kl", 43, 11),
        (b"we", 46, 5),
        (b"ew", 47, 3),
        (b"oi", 46, 5),
        (b"io", 47, 3),
        (b"qz", -28, -25),
        (b"zq", -28, -25),
        (b"qa", 10, -7),
        (b"fg", 36, -4),
        (b"dj", 38, 6),
    ];
    for (corpus, other, standard) in cases {
        assert_eq!(score_on(corpus, distinct_weights(), &qwerty), other);
        assert_eq!(score_on(corpus, Weights::standard(), &qwerty), standard);
    }
}

#[test]
fn triples_score_rolls_and_jrolls() {
    let qwerty = Keyboard::qwerty();
    let cases: [(&[u8], i64, i64); 13] = [
        (b"asd", 86, 64),
        (b"dsa", 89, 44),
        (b"lkj", 86, 64),
        (b"jkl", 89, 44),
        (b"wer", 95, 45),
        (b"rew", 98, 31),
        (b"oiu", 95, 45),
        (b"uio", 98, 31),
        (b"asc", 68, 41),
        (b"sdc", 51, 36),
        (b"cds", 53, 16),
        (b"lkm", 57, 36),
        (b"mkl", 59, 16),
    ];
    for (corpus, other, standard) in cases {
        assert_eq!(score_on(corpus, distinct_weights(), &qwerty), other);
        assert_eq!(score_on(corpus, Weights::standard(), &qwerty), standard);
    }
    let dvorak = Keyboard::dvorak();
    assert_eq!(score_on(b"snm", distinct_weights(), &dvorak), 57);
    assert_eq!(score_on(b"ntm", distinct_weights(), &dvorak), 57);
    assert_eq!(score_on(b"mtn", distinct_weights(), &dvorak), 59);
    assert_eq!(score_on(b"snm", Weights::standard(), &dvorak), 36);
    assert_eq!(score_on(b"mtn", Weights::standard(), &dvorak), 16);
}

#[test]
fn quadruples_score_rolls_and_long_jrolls() {
    let qwerty = Keyboard::qwerty();
    let cases: [(&[u8], i64, i64); 7] = [
        (b"asdf", 143, 112),
        (b"fdsa", 149, 77),
        (b"qwer", 147, 80),
        (b"rewq", 153, 54),
        (b"poiu", 147, 80),
        (b"uiop", 153, 54),
        (b"sdfv", 86, 54),
    ];
    for (corpus, other, standard) in cases {
        assert_eq!(score_on(corpus, distinct_weights(), &qwerty), other);
        assert_eq!(score_on(corpus, Weights::standard(), &qwerty), standard);
    }
    let dvorak = Keyboard::dvorak();
    let cases: [(&[u8], i64, i64); 5] = [
        (b"sntm", 111, 84),
        (b"snth", 143, 112),
        (b"htns", 149, 77),
        (b"aoeu", 143, 112),
        (b"ueoa", 149, 77),
    ];
    for (corpus, other, standard) in cases {
        assert_eq!(score_on(corpus, distinct_weights(), &dvorak), other);
        assert_eq!(score_on(corpus, Weights::standard(), &dvorak), standard);
    }
}

#[test]
fn home_row_roll_beats_protected_cells() {
    let corpus = "th".repeat(100);
    let scorer = scorer_of(corpus.as_bytes(), Weights::standard());
    let home = layout_of("abcdefgijklmthnopqrsuvwxyz____");
    let barred = layout_of("abcdefgijklmnopqrsuvwxyz___th_");
    assert_eq!(home.find_key(b't'), Ok((1, 2)));
    assert_eq!(home.find_key(b'h'), Ok((1, 3)));
    assert_eq!(barred.find_key(b't'), Ok((2, 7)));
    assert_eq!(barred.find_key(b'h'), Ok((2, 8)));
    assert_eq!(scorer.score_keyboard(&home), 2095);
    assert_eq!(scorer.score_keyboard(&barred), -20_000_000);
    let largest_bonus = 35;
    assert!(scorer.score_keyboard(&home) - scorer.score_keyboard(&barred) > largest_bonus);
}

#[test]
fn protected_cell_costs_the_fixed_penalty() {
    let scorer = scorer_of(b"xaxa", Weights::standard());
    let barred = layout_of("bcdefghijklmnopqrstuv_wxyz_a__");
    let freed = layout_of("bcdefghijklmnopqrstuvawxyz____");
    assert_eq!(barred.find_key(b'a'), Ok((2, 7)));
    assert_eq!(freed.find_key(b'a'), Ok((2, 1)));
    assert_eq!(scorer.score_keyboard(&barred), -10_000_010);
    assert_eq!(scorer.score_keyboard(&freed), -10);
    assert!(scorer.score_keyboard(&barred) <= scorer.score_keyboard(&freed) - 10_000_000);
}

#[test]
fn leaving_a_protected_cell_for_a_worse_one_gains_less() {
    let scorer = scorer_of(b"xaxa", Weights::standard());
    let barred = layout_of("bcdefghijklmno_pqrstuvwxyz_a__");
    let centred = layout_of("bcdefghijklmnoapqrstuvwxyz____");
    assert_eq!(barred.find_key(b'a'), Ok((2, 7)));
    assert_eq!(centred.find_key(b'a'), Ok((1, 4)));
    assert_eq!(scorer.score_keyboard(&barred), -10_000_010);
    assert_eq!(scorer.score_keyboard(&centred), -24);
    assert_eq!(scorer.score_keyboard(&centred) - scorer.score_keyboard(&barred), 9_999_986);
}

#[test]
fn letters_that_the_corpus_lacks_cost_nothing() {
    let scorer = scorer_of(b"", Weights::standard());
    assert_eq!(scorer.score_keyboard(&Keyboard::qwerty()), 0);
    assert_eq!(scorer.score_keyboard(&layout_of("_a_b_c_defghijklmnopqrstuvwxyz")), 0);
}

#[test]
fn debug_lists_every_entry() {
    let scorer = scorer_of(b"aabba", Weights::standard());
    assert_eq!(scorer.debug(), vec!["a: 3", "b: 2", "ab: 1", "ba: 1"]);
    let scorer = scorer_of(b"abcd abc", Weights::standard());
    assert_eq!(
        scorer.debug(),
        vec![
            "a: 2", "b: 2", "c: 2", "d: 1", "ab: 2", "bc: 2", "cd: 1", "abc: 2", "bcd: 1",
            "abcd: 1"
        ]
    );
    let many = "th".repeat(1234);
    let scorer = scorer_of(many.as_bytes(), Weights::standard());
    assert_eq!(scorer.debug(), vec!["h: 1234", "t: 1234", "th: 1234", "ht: 1233"]);
}

#[test]
fn scorer_keeps_tables_and_weights() {
    let scorer = scorer_of(b"aabba", distinct_weights());
    assert_eq!(scorer.frequency_tables().count_of(b"a"), 3);
    assert_eq!(scorer.model().single_top, 20);
}
