use crossword_generator::crossword::{
    Crossword, CrosswordConstraint, CrosswordSettings, WordCompatibilitySettings,
};
use crossword_generator::generator::{
    crossword_in_list, CrosswordGenerationRequest, CrosswordGenerator, CrosswordGeneratorSettings,
    CrosswordSearch,
};
use crossword_generator::placed_word::PlacedWord;
use crossword_generator::word::{Direction, Position, Word};

fn pw(val: &str, x: i16, y: i16, dir: Direction) -> PlacedWord {
    PlacedWord::new(val.as_bytes().to_vec(), Position { x, y }, dir)
}

fn generator_for(words: &[&str]) -> CrosswordGenerator {
    CrosswordGenerator {
        words: words.iter().map(|s| Word::new(s.as_bytes().to_vec(), None)).collect(),
        settings: CrosswordGeneratorSettings::default(),
    }
}

#[test]
fn sorted_search_hello_world_first_two_layouts() {
    let generator = generator_for(&["hello", "world"]);
    let mut search = CrosswordSearch::new_sorted(&generator);
    let found = search.generate_up_to(2);
    assert_eq!(found.len(), 2);

    let mut cw1 = Crossword::default();
    cw1.add_words(vec![
        pw("hello", 0, 3, Direction::Right),
        pw("world", 2, 0, Direction::Down),
    ])
    .unwrap();

    let mut cw2 = Crossword::default();
    cw2.add_words(vec![
        pw("hello", 0, 3, Direction::Right),
        pw("world", 3, 0, Direction::Down),
    ])
    .unwrap();

    assert_eq!(found[0], cw1);
    assert_eq!(found[1], cw2);
}

#[test]
fn sorted_search_bounded_count_of_interlocked_layouts() {
    // Request up to ten layouts and stop: each is a distinct layout of all
    // three words.
    let generator = generator_for(&["a", "accb", "b"]);
    let mut search = CrosswordSearch::new_sorted(&generator);
    let found = search.generate_up_to(10);
    assert!(!found.is_empty());
    assert!(found.len() <= 10);
    for cw in &found {
        assert_eq!(cw.words().len(), 3);
        assert!(cw.find_word(&b"a".to_vec()).is_some());
        assert!(cw.find_word(&b"accb".to_vec()).is_some());
        assert!(cw.find_word(&b"b".to_vec()).is_some());
    }
    for i in 0..found.len() {
        for j in 0..i {
            assert_ne!(found[i], found[j]);
        }
    }
}

#[test]
fn single_word_gives_exactly_one_layout() {
    let generator = generator_for(&["solo"]);
    let mut search = CrosswordSearch::new_sorted(&generator);
    let found = search.generate_up_to(10);
    assert_eq!(found.len(), 1);
    let placed = &found[0].words()[0];
    assert_eq!(placed.position, Position { x: 0, y: 0 });
    assert_eq!(placed.direction, Direction::Right);
}

#[test]
fn single_locked_word_still_gives_one_layout() {
    let generator = CrosswordGenerator {
        words: vec![Word::new(b"solo".to_vec(), Some(Direction::Down))],
        settings: CrosswordGeneratorSettings::default(),
    };
    let mut search = CrosswordSearch::new_sorted(&generator);
    let found = search.generate_up_to(10);
    assert_eq!(found.len(), 1);
}

#[test]
fn words_without_common_character_give_no_layout() {
    let generator = generator_for(&["abc", "def"]);
    let mut search = CrosswordSearch::new_sorted(&generator);
    let found = search.generate_up_to(10);
    assert!(found.is_empty());
}

#[test]
fn max_area_constraint_prunes_all_layouts() {
    // Any layout of both words spans at least five cells each way, so an
    // area bound below that admits nothing even though one word fits.
    let mut generator = generator_for(&["hello", "world"]);
    generator.settings.crossword_settings =
        CrosswordSettings { constraints: vec![CrosswordConstraint::MaxArea(20)] };
    let mut search = CrosswordSearch::new_sorted(&generator);
    assert!(search.generate_up_to(10).is_empty());
}

#[test]
fn demand_protocol_counts_down_and_stops() {
    let mut request = CrosswordGenerationRequest::Count(2);
    assert!(request.permits_emission());
    request = request.after_emission();
    assert_eq!(request, CrosswordGenerationRequest::Count(1));
    request = request.after_emission();
    assert_eq!(request, CrosswordGenerationRequest::Count(0));
    assert!(request.is_exhausted());
    assert!(!request.permits_emission());

    assert!(CrosswordGenerationRequest::All.permits_emission());
    assert_eq!(
        CrosswordGenerationRequest::All.after_emission(),
        CrosswordGenerationRequest::All
    );
    assert!(!CrosswordGenerationRequest::Stop.permits_emission());
    assert_eq!(CrosswordGenerationRequest::default(), CrosswordGenerationRequest::Stop);

    // Reading exactly the requested two layouts, then stopping, leaves
    // further layouts unread.
    let generator = generator_for(&["a", "accb", "b"]);
    let mut search = CrosswordSearch::new_sorted(&generator);
    let mut request = CrosswordGenerationRequest::Count(2);
    let mut read = Vec::new();
    while request.permits_emission() {
        match search.next_crossword() {
            Some(cw) => {
                read.push(cw);
                request = request.after_emission();
            }
            None => break,
        }
    }
    assert_eq!(read.len(), 2);
    assert!(request.is_exhausted());
}

#[test]
fn word_orders_enumerates_permutations() {
    let three = generator_for(&["a", "b", "c"]);
    assert_eq!(three.word_orders().len(), 6);

    let generator = generator_for(&["ab", "cd"]);
    let orders = generator.word_orders();
    assert_eq!(orders.len(), 2);
    for order in &orders {
        assert_eq!(order.len(), 2);
    }
    let values: Vec<Vec<&[u8]>> =
        orders.iter().map(|o| o.iter().map(|w| w.value.as_slice()).collect()).collect();
    assert!(values.contains(&vec![b"ab".as_slice(), b"cd".as_slice()]));
    assert!(values.contains(&vec![b"cd".as_slice(), b"ab".as_slice()]));
}

#[test]
fn fixed_order_searches_cover_the_same_layouts() {
    // Run one fixed-order search per permutation, deduplicating layouts as
    // the randomized strategy does; the union matches the sorted strategy.
    let generator = generator_for(&["hello", "world"]);

    let mut sorted_search = CrosswordSearch::new_sorted(&generator);
    let sorted_layouts = sorted_search.generate_up_to(1000);

    let mut emitted: Vec<Crossword> = Vec::new();
    for order in generator.word_orders() {
        let mut search = CrosswordSearch::new_fixed_order(&generator.settings, &order);
        loop {
            match search.next_crossword() {
                Some(cw) => {
                    if !crossword_in_list(&emitted, &cw) {
                        emitted.push(cw);
                    }
                }
                None => break,
            }
        }
    }

    assert_eq!(emitted.len(), sorted_layouts.len());
    for cw in &sorted_layouts {
        assert!(crossword_in_list(&emitted, cw));
    }
}

#[test]
fn search_exhaustion_yields_none_afterwards() {
    let generator = generator_for(&["solo"]);
    let mut search = CrosswordSearch::new_sorted(&generator);
    assert!(search.next_crossword().is_some());
    assert!(search.next_crossword().is_none());
    assert!(search.next_crossword().is_none());
}

#[test]
fn emitted_layouts_respect_the_policy() {
    // With side-by-side and side-by-head allowed there are more layouts
    // than under the default policy.
    let restrictive = generator_for(&["hello", "local", "tac"]);
    let mut permissive = generator_for(&["hello", "local", "tac"]);
    permissive.settings.word_compatibility_settings = WordCompatibilitySettings {
        side_by_side: true,
        side_by_head: true,
        ..Default::default()
    };
    let strict_count =
        CrosswordSearch::new_sorted(&restrictive).generate_up_to(10000).len();
    let loose_count =
        CrosswordSearch::new_sorted(&permissive).generate_up_to(10000).len();
    assert!(strict_count <= loose_count);
    assert!(loose_count > 0);
}
