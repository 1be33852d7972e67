use crossword_generator::crossword::{
    Crossword, CrosswordConstraint, CrosswordError, CrosswordSettings, WordCompatibilitySettings,
};
use crossword_generator::placed_word::PlacedWord;
use crossword_generator::word::{Direction, Position, Word};

fn pw(val: &str, x: i16, y: i16, dir: Direction) -> PlacedWord {
    PlacedWord::new(val.as_bytes().to_vec(), Position { x, y }, dir)
}

fn side_by_side_settings() -> WordCompatibilitySettings {
    WordCompatibilitySettings { side_by_side: true, ..Default::default() }
}

fn same_placements(a: &[PlacedWord], b: &[PlacedWord]) -> bool {
    a.len() == b.len() && b.iter().all(|w| a.contains(w))
}

#[test]
fn test_crossword_contains_crossword() {
    let mut cw = Crossword::new(side_by_side_settings());
    cw.add_word(pw("hello", 0, 0, Direction::Right)).unwrap();
    cw.add_word(pw("local", 2, 0, Direction::Down)).unwrap();
    cw.add_word(pw("cat", 2, 2, Direction::Right)).unwrap();
    cw.add_word(pw("and", 3, 2, Direction::Down)).unwrap();
    cw.add_word(pw("toy", 4, 2, Direction::Down)).unwrap();

    let mut cw1 = Crossword::new(side_by_side_settings());
    cw1.add_word(pw("hello", 0, 0, Direction::Right)).unwrap();
    cw1.add_word(pw("local", 2, 0, Direction::Down)).unwrap();
    cw1.add_word(pw("cat", 2, 2, Direction::Right)).unwrap();
    cw1.add_word(pw("and", 3, 2, Direction::Down)).unwrap();
    cw1.add_word(pw("toy", 4, 2, Direction::Down)).unwrap();

    let mut cw2 = Crossword::new(side_by_side_settings());
    cw2.add_word(pw("cat", 0, 0, Direction::Right)).unwrap();
    cw2.add_word(pw("and", 1, 0, Direction::Down)).unwrap();
    cw2.add_word(pw("toy", 2, 0, Direction::Down)).unwrap();

    let mut cw3 = Crossword::new(side_by_side_settings());
    cw3.add_word(pw("and", 0, 0, Direction::Down)).unwrap();
    cw3.add_word(pw("toy", 1, -1, Direction::Down)).unwrap();

    assert_eq!(
        [
            cw.contains_crossword(&cw1),
            cw.contains_crossword(&cw2),
            cw.contains_crossword(&cw3)
        ],
        [true, true, false]
    );
}

#[test]
fn test_crossword_remove_word() {
    let mut cw = Crossword::new(side_by_side_settings());
    cw.add_word(pw("hello", 0, 0, Direction::Right)).unwrap();
    cw.add_word(pw("local", 2, 0, Direction::Down)).unwrap();
    cw.add_word(pw("cat", 2, 2, Direction::Right)).unwrap();
    cw.add_word(pw("and", 3, 2, Direction::Down)).unwrap();
    cw.add_word(pw("toy", 4, 2, Direction::Down)).unwrap();

    cw.remove_word(&b"toy".to_vec());

    let mut cw_rm = Crossword::new(side_by_side_settings());
    cw_rm.add_word(pw("hello", 0, 0, Direction::Right)).unwrap();
    cw_rm.add_word(pw("local", 2, 0, Direction::Down)).unwrap();
    cw_rm.add_word(pw("cat", 2, 2, Direction::Right)).unwrap();
    cw_rm.add_word(pw("and", 3, 2, Direction::Down)).unwrap();

    assert_eq!(cw, cw_rm);
}

#[test]
fn test_crossword_calculate_possible_ways_to_add_word() {
    let mut cw = Crossword::new(WordCompatibilitySettings {
        side_by_side: true,
        side_by_head: true,
        ..Default::default()
    });
    cw.add_word(pw("hello", 0, 0, Direction::Right)).unwrap();
    cw.add_word(pw("local", 2, 0, Direction::Down)).unwrap();
    cw.add_word(pw("tac", 0, 2, Direction::Right)).unwrap();

    let new_word = Word::new(b"hatlo".to_vec(), None);

    let ways = cw.calculate_possible_ways_to_add_word(&new_word);
    let expected = vec![
        pw("hatlo", 0, 0, Direction::Down),
        pw("hatlo", 1, 1, Direction::Down),
        pw("hatlo", 1, 3, Direction::Right),
        pw("hatlo", 3, -3, Direction::Down),
        pw("hatlo", -1, 4, Direction::Right),
        pw("hatlo", -2, 1, Direction::Right),
        pw("hatlo", 4, -4, Direction::Down),
    ];
    assert!(same_placements(&ways, &expected));
}

#[test]
fn crossword_candidates_for_halo() {
    // The worked example: "hello" crossing "local", then all ways to add
    // "halo".
    let mut cw = Crossword::default();
    cw.add_word(pw("hello", 0, 0, Direction::Right)).unwrap();
    cw.add_word(pw("local", 2, 0, Direction::Down)).unwrap();

    let ways = cw.calculate_possible_ways_to_add_word(&Word::new(b"halo".to_vec(), None));
    let expected = vec![
        pw("halo", 0, 0, Direction::Down),
        pw("halo", 4, -3, Direction::Down),
        pw("halo", 0, 4, Direction::Right),
        pw("halo", 1, 3, Direction::Right),
    ];
    assert!(same_placements(&ways, &expected));
}

#[test]
fn crossword_add_normalizes_positions() {
    // Adding a word with redundant rows shifts everything up; the next
    // word is then added relative to the normalized coordinates.
    let mut cw1 = Crossword::default();
    let mut cw2 = Crossword::default();

    cw1.add_words(vec![
        pw("hello", 0, 3, Direction::Right),
        pw("world", 2, 0, Direction::Down),
    ])
    .unwrap();

    cw2.add_word(pw("hello", 0, 3, Direction::Right)).unwrap();
    cw2.add_word(pw("world", 2, -3, Direction::Down)).unwrap();

    assert_eq!(cw1, cw2);
}

#[test]
fn crossword_add_word_reports_duplicate() {
    let mut cw = Crossword::default();
    cw.add_word(pw("hello", 0, 0, Direction::Right)).unwrap();
    let e = cw.add_word(pw("hello", 0, 2, Direction::Right));
    assert_eq!(e, Err(CrosswordError::WordAlreadyExists));
}

#[test]
fn crossword_add_word_reports_incompatible() {
    let mut cw = Crossword::default();
    cw.add_word(pw("hello", 0, 0, Direction::Right)).unwrap();
    // Same direction, directly below: side by side is forbidden by the
    // default policy.
    let e = cw.add_word(pw("world", 0, 1, Direction::Right));
    assert_eq!(e, Err(CrosswordError::CantAddWord));
}

#[test]
fn crossword_add_then_remove_restores_layout() {
    let mut cw = Crossword::default();
    cw.add_word(pw("hello", 0, 0, Direction::Right)).unwrap();
    cw.add_word(pw("local", 2, 0, Direction::Down)).unwrap();
    let snapshot = cw.clone();

    cw.add_word(pw("halo", 0, 0, Direction::Down)).unwrap();
    assert!(cw.remove_word(&b"halo".to_vec()));

    assert_eq!(cw, snapshot);
}

#[test]
fn crossword_batch_add_matches_sequential_adds() {
    // With a non-empty starting layout and words at non-negative
    // coordinates no intermediate renormalization moves anything, so both
    // paths give the same canonical layout.
    let words = vec![
        pw("local", 2, 0, Direction::Down),
        pw("halo", 0, 0, Direction::Down),
    ];

    let mut batch = Crossword::default();
    batch.add_word(pw("hello", 0, 0, Direction::Right)).unwrap();
    batch.add_words(words.clone()).unwrap();

    let mut seq = Crossword::default();
    seq.add_word(pw("hello", 0, 0, Direction::Right)).unwrap();
    for w in words {
        seq.add_word(w).unwrap();
    }

    assert_eq!(batch, seq);
}

#[test]
fn crossword_contains_itself() {
    let mut cw = Crossword::default();
    cw.add_word(pw("hello", 0, 0, Direction::Right)).unwrap();
    cw.add_word(pw("local", 2, 0, Direction::Down)).unwrap();
    assert!(cw.contains_crossword(&cw.clone()));
    assert!(Crossword::default().contains_crossword(&Crossword::default()));
}

#[test]
fn crossword_get_size() {
    let mut cw = Crossword::default();
    cw.add_word(pw("hello", 0, 0, Direction::Right)).unwrap();
    cw.add_word(pw("local", 2, 0, Direction::Down)).unwrap();
    assert_eq!(cw.get_size(), (5, 5));
    assert_eq!(Crossword::default().get_size(), (0, 0));
}

#[test]
fn crossword_generate_char_table() {
    let mut cw = Crossword::default();
    cw.add_word(pw("hello", 0, 0, Direction::Right)).unwrap();
    cw.add_word(pw("local", 2, 0, Direction::Down)).unwrap();
    assert_eq!(
        cw.generate_char_table(),
        vec![
            vec![b'h', b'e', b'l', b'l', b'o'],
            vec![0, 0, b'o', 0, 0],
            vec![0, 0, b'c', 0, 0],
            vec![0, 0, b'a', 0, 0],
            vec![0, 0, b'l', 0, 0],
        ]
    );
}

#[test]
fn crossword_find_word_by_value() {
    let mut cw = Crossword::default();
    cw.add_word(pw("hello", 0, 0, Direction::Right)).unwrap();
    cw.add_word(pw("local", 2, 0, Direction::Down)).unwrap();
    let found = cw.find_word(&b"local".to_vec()).unwrap();
    assert_eq!(found.direction, Direction::Down);
    assert_eq!(found.position, Position { x: 2, y: 0 });
    assert!(cw.find_word(&b"absent".to_vec()).is_none());
    assert!(!cw.remove_word(&b"absent".to_vec()));
}

#[test]
fn crossword_constraints_check() {
    let mut cw = Crossword::default();
    cw.add_word(pw("hello", 0, 0, Direction::Right)).unwrap();
    cw.add_word(pw("local", 2, 0, Direction::Down)).unwrap();

    assert!(CrosswordConstraint::Unconstrained.check(&cw));
    assert!(CrosswordConstraint::MaxLength(5).check(&cw));
    assert!(!CrosswordConstraint::MaxLength(4).check(&cw));
    assert!(CrosswordConstraint::MaxHeight(5).check(&cw));
    assert!(!CrosswordConstraint::MaxHeight(4).check(&cw));
    assert!(CrosswordConstraint::MaxArea(25).check(&cw));
    assert!(!CrosswordConstraint::MaxArea(24).check(&cw));
    assert!(!CrosswordConstraint::MaxArea(24).recoverable());

    let settings = CrosswordSettings {
        constraints: vec![
            CrosswordConstraint::MaxLength(5),
            CrosswordConstraint::MaxArea(25),
        ],
    };
    assert!(settings.check_nonrecoverables_constraints(&cw));
    assert!(settings.check_recoverable_constraints(&cw));

    let tight = CrosswordSettings { constraints: vec![CrosswordConstraint::MaxArea(24)] };
    assert!(!tight.check_nonrecoverables_constraints(&cw));
}

#[test]
fn placement_fits_bounds_the_coordinate_span() {
    let mut cw = Crossword::default();
    cw.add_word(pw("hello", 0, 0, Direction::Right)).unwrap();
    assert!(cw.placement_fits(&pw("far", 32000, 0, Direction::Down)));
    assert!(!cw.placement_fits(&pw("far", -32768, 0, Direction::Down)));
}

#[test]
fn batch_fits_bounds_the_kept_words() {
    let mut cw = Crossword::default();
    cw.add_word(pw("hello", 0, 0, Direction::Right)).unwrap();
    assert!(cw.batch_fits(&vec![pw("local", 2, 0, Direction::Down)]));
    assert!(!cw.batch_fits(&vec![
        pw("local", 2, 0, Direction::Down),
        pw("far", -32768, 100, Direction::Down),
    ]));
    // A word the batch would reject does not count against the span.
    assert!(cw.batch_fits(&vec![
        pw("hello", -32768, 100, Direction::Down),
        pw("local", 2, 0, Direction::Down),
    ]));
}

#[test]
fn locked_direction_against_single_word_layout() {
    let mut cw = Crossword::default();
    cw.add_word(pw("hello", 0, 0, Direction::Right)).unwrap();
    let ways = cw.calculate_possible_ways_to_add_word(&Word::new(
        b"halo".to_vec(),
        Some(Direction::Right),
    ));
    assert!(ways.is_empty());
}

#[test]
fn crossword_can_word_be_added_examples() {
    let mut cw = Crossword::new(WordCompatibilitySettings::default());
    cw.add_word(pw("hello", 0, 0, Direction::Right)).unwrap();
    cw.add_word(pw("local", 2, 0, Direction::Down)).unwrap();
    assert!(cw.can_word_be_added(&pw("halo", 0, 0, Direction::Down)));
    assert!(!cw.can_word_be_added(&pw("halo", 3, -2, Direction::Down)));
}
