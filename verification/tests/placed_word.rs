use crossword_generator::crossword::WordCompatibilitySettings;
use crossword_generator::placed_word::PlacedWord;
use crossword_generator::word::{Direction, Position, Word};

fn combos() -> Vec<(isize, isize, isize, isize)> {
    let mut v = Vec::new();
    for a in 0isize..2 {
        for b in 0isize..2 {
            for c in 0isize..2 {
                for d in 0isize..2 {
                    v.push((a, b, c, d));
                }
            }
        }
    }
    v
}

#[test]
fn test_placed_word_intersects()
{
    let mut first = PlacedWord::new(b"hayastan".to_vec(), Position{ x: 0, y: 0 }, Direction::Right);
    let mut second = PlacedWord::new(b"arcax".to_vec(), Position{ x: 0, y: 0 }, Direction::Right);
    
    let mut comp = vec![];
    for y in -2i16..=2
    {
        for x in -6i16..=9
        {
            second.position = Position {x, y};
            comp.push(first.intersects(&second) as isize);
        }
    }

    assert_eq!(comp, vec![  0, 0, 0, 0, 0, 0, 0, 0, 0, 0, 0, 0, 0, 0, 0, 0,
                            0, 0, 0, 0, 0, 0, 0, 0, 0, 0, 0, 0, 0, 0, 0, 0,
                            0, 0, 1, 1, 1, 1, 1, 1, 1, 1, 1, 1, 1, 1, 0, 0,
                            0, 0, 0, 0, 0, 0, 0, 0, 0, 0, 0, 0, 0, 0, 0, 0,
                            0, 0, 0, 0, 0, 0, 0, 0, 0, 0, 0, 0, 0, 0, 0, 0], "hor_hor");
                            
    first.direction = Direction::Down;
    second.direction = Direction::Down;
    comp = vec![];
    for y in -6i16..=9
    {
        for x in -2i16..=2
        {
            second.position = Position {x, y};
            comp.push(first.intersects(&second) as isize);
        }
    }
    
    assert_eq!(comp, vec![  0, 0, 0, 0, 0,
                            0, 0, 0, 0, 0,
                            0, 0, 1, 0, 0,
                            0, 0, 1, 0, 0,
                            0, 0, 1, 0, 0,
                            0, 0, 1, 0, 0,
                            0, 0, 1, 0, 0,
                            0, 0, 1, 0, 0,
                            0, 0, 1, 0, 0,
                            0, 0, 1, 0, 0,
                            0, 0, 1, 0, 0,
                            0, 0, 1, 0, 0,
                            0, 0, 1, 0, 0,
                            0, 0, 1, 0, 0,
                            0, 0, 0, 0, 0,
                            0, 0, 0, 0, 0], "ver_ver");
    
    first.direction = Direction::Right;
    comp = vec![];
    for y in -6i16..=2
    {
        for x in -2i16..=9
        {
            second.position = Position {x, y};
            comp.push(first.intersects(&second) as isize);
        }
    }
    
    assert_eq!(comp, vec![  0, 0, 0, 0, 0, 0, 0, 0, 0, 0, 0, 0,
                            0, 0, 0, 0, 0, 0, 0, 0, 0, 0, 0, 0,
                            0, 0, 1, 1, 1, 1, 1, 1, 1, 1, 0, 0,
                            0, 0, 1, 1, 1, 1, 1, 1, 1, 1, 0, 0,
                            0, 0, 1, 1, 1, 1, 1, 1, 1, 1, 0, 0,
                            0, 0, 1, 1, 1, 1, 1, 1, 1, 1, 0, 0,
                            0, 0, 1, 1, 1, 1, 1, 1, 1, 1, 0, 0,
                            0, 0, 0, 0, 0, 0, 0, 0, 0, 0, 0, 0,
                            0, 0, 0, 0, 0, 0, 0, 0, 0, 0, 0, 0], "hor_ver");
}

#[test]
fn test_placed_word_side_touches_side()
{
    let mut first = PlacedWord::new(b"hayastan".to_vec(), Position{ x: 0, y: 0 }, Direction::Right);
    let mut second = PlacedWord::new(b"arcax".to_vec(), Position{ x: 0, y: 0 }, Direction::Right);
    
    let mut comp = vec![];
    for y in -2i16..=2
    {
        for x in -6i16..=9
        {
            second.position = Position {x, y};
            comp.push(first.side_touches_side(&second) as isize);
        }
    }

    assert_eq!(comp, vec![  0, 0, 0, 0, 0, 0, 0, 0, 0, 0, 0, 0, 0, 0, 0, 0,
                            0, 0, 1, 1, 1, 1, 1, 1, 1, 1, 1, 1, 1, 1, 0, 0,
                            0, 0, 0, 0, 0, 0, 0, 0, 0, 0, 0, 0, 0, 0, 0, 0,
                            0, 0, 1, 1, 1, 1, 1, 1, 1, 1, 1, 1, 1, 1, 0, 0,
                            0, 0, 0, 0, 0, 0, 0, 0, 0, 0, 0, 0, 0, 0, 0, 0], "hor_hor");
                            
    first.direction = Direction::Down;
    second.direction = Direction::Down;
    comp = vec![];
    for y in -6i16..=9
    {
        for x in -2i16..=2
        {
            second.position = Position {x, y};
            comp.push(first.side_touches_side(&second) as isize);
        }
    }
    
    assert_eq!(comp, vec![  0, 0, 0, 0, 0,
                            0, 0, 0, 0, 0,
                            0, 1, 0, 1, 0,
                            0, 1, 0, 1, 0,
                            0, 1, 0, 1, 0,
                            0, 1, 0, 1, 0,
                            0, 1, 0, 1, 0,
                            0, 1, 0, 1, 0,
                            0, 1, 0, 1, 0,
                            0, 1, 0, 1, 0,
                            0, 1, 0, 1, 0,
                            0, 1, 0, 1, 0,
                            0, 1, 0, 1, 0,
                            0, 1, 0, 1, 0,
                            0, 0, 0, 0, 0,
                            0, 0, 0, 0, 0], "ver_ver");
    
    first.direction = Direction::Right;
    comp = vec![];
    for y in -6i16..=2
    {
        for x in -2i16..=9
        {
            second.position = Position {x, y};
            comp.push(first.side_touches_side(&second) as isize);
        }
    }
    
    assert_eq!(comp, vec![  0, 0, 0, 0, 0, 0, 0, 0, 0, 0, 0, 0,
                            0, 0, 0, 0, 0, 0, 0, 0, 0, 0, 0, 0,
                            0, 0, 0, 0, 0, 0, 0, 0, 0, 0, 0, 0,
                            0, 0, 0, 0, 0, 0, 0, 0, 0, 0, 0, 0,
                            0, 0, 0, 0, 0, 0, 0, 0, 0, 0, 0, 0,
                            0, 0, 0, 0, 0, 0, 0, 0, 0, 0, 0, 0,
                            0, 0, 0, 0, 0, 0, 0, 0, 0, 0, 0, 0,
                            0, 0, 0, 0, 0, 0, 0, 0, 0, 0, 0, 0,
                            0, 0, 0, 0, 0, 0, 0, 0, 0, 0, 0, 0], "hor_ver");
}
    
#[test]
fn test_placed_word_side_touches_head()
{
    let mut first = PlacedWord::new(b"hayastan".to_vec(), Position{ x: 0, y: 0 }, Direction::Right);
    let mut second = PlacedWord::new(b"arcax".to_vec(), Position{ x: 0, y: 0 }, Direction::Right);
    
    let mut comp = vec![];
    for y in -2i16..=2
    {
        for x in -6i16..=9
        {
            second.position = Position {x, y};
            comp.push(first.side_touches_head(&second) as isize);
        }
    }

    assert_eq!(comp, vec![  0, 0, 0, 0, 0, 0, 0, 0, 0, 0, 0, 0, 0, 0, 0, 0,
                            0, 0, 0, 0, 0, 0, 0, 0, 0, 0, 0, 0, 0, 0, 0, 0,
                            0, 0, 0, 0, 0, 0, 0, 0, 0, 0, 0, 0, 0, 0, 0, 0,
                            0, 0, 0, 0, 0, 0, 0, 0, 0, 0, 0, 0, 0, 0, 0, 0,
                            0, 0, 0, 0, 0, 0, 0, 0, 0, 0, 0, 0, 0, 0, 0, 0], "hor_hor");
                            
    first.direction = Direction::Down;
    second.direction = Direction::Down;
    comp = vec![];
    for y in -6i16..=9
    {
        for x in -2i16..=2
        {
            second.position = Position {x, y};
            comp.push(first.side_touches_head(&second) as isize);
        }
    }
    
    assert_eq!(comp, vec![  0, 0, 0, 0, 0,
                            0, 0, 0, 0, 0,
                            0, 0, 0, 0, 0,
                            0, 0, 0, 0, 0,
                            0, 0, 0, 0, 0,
                            0, 0, 0, 0, 0,
                            0, 0, 0, 0, 0,
                            0, 0, 0, 0, 0,
                            0, 0, 0, 0, 0,
                            0, 0, 0, 0, 0,
                            0, 0, 0, 0, 0,
                            0, 0, 0, 0, 0,
                            0, 0, 0, 0, 0,
                            0, 0, 0, 0, 0,
                            0, 0, 0, 0, 0,
                            0, 0, 0, 0, 0], "ver_ver");
    
    first.direction = Direction::Right;
    comp = vec![];
    for y in -6i16..=2
    {
        for x in -2i16..=9
        {
            second.position = Position {x, y};
            comp.push(first.side_touches_head(&second) as isize);
        }
    }
    
    assert_eq!(comp, vec![  0, 0, 0, 0, 0, 0, 0, 0, 0, 0, 0, 0,
                            0, 0, 1, 1, 1, 1, 1, 1, 1, 1, 0, 0,
                            0, 1, 0, 0, 0, 0, 0, 0, 0, 0, 1, 0,
                            0, 1, 0, 0, 0, 0, 0, 0, 0, 0, 1, 0,
                            0, 1, 0, 0, 0, 0, 0, 0, 0, 0, 1, 0,
                            0, 1, 0, 0, 0, 0, 0, 0, 0, 0, 1, 0,
                            0, 1, 0, 0, 0, 0, 0, 0, 0, 0, 1, 0,
                            0, 0, 1, 1, 1, 1, 1, 1, 1, 1, 0, 0,
                            0, 0, 0, 0, 0, 0, 0, 0, 0, 0, 0, 0], "hor_ver");
}

#[test]
fn test_placed_word_head_touches_head()
{
    let mut first = PlacedWord::new(b"hayastan".to_vec(), Position{ x: 0, y: 0 }, Direction::Right);
    let mut second = PlacedWord::new(b"arcax".to_vec(), Position{ x: 0, y: 0 }, Direction::Right);
    
    let mut comp = vec![];
    for y in -2i16..=2
    {
        for x in -6i16..=9
        {
            second.position = Position {x, y};
            comp.push(first.head_touches_head(&second) as isize);
        }
    }

    assert_eq!(comp, vec![  0, 0, 0, 0, 0, 0, 0, 0, 0, 0, 0, 0, 0, 0, 0, 0,
                            0, 0, 0, 0, 0, 0, 0, 0, 0, 0, 0, 0, 0, 0, 0, 0,
                            0, 1, 0, 0, 0, 0, 0, 0, 0, 0, 0, 0, 0, 0, 1, 0,
                            0, 0, 0, 0, 0, 0, 0, 0, 0, 0, 0, 0, 0, 0, 0, 0,
                            0, 0, 0, 0, 0, 0, 0, 0, 0, 0, 0, 0, 0, 0, 0, 0], "hor_hor");
                            
    first.direction = Direction::Down;
    second.direction = Direction::Down;
    comp = vec![];
    for y in -6i16..=9
    {
        for x in -2i16..=2
        {
            second.position = Position {x, y};
            comp.push(first.head_touches_head(&second) as isize);
        }
    }
    
    assert_eq!(comp, vec![  0, 0, 0, 0, 0,
                            0, 0, 1, 0, 0,
                            0, 0, 0, 0, 0,
                            0, 0, 0, 0, 0,
                            0, 0, 0, 0, 0,
                            0, 0, 0, 0, 0,
                            0, 0, 0, 0, 0,
                            0, 0, 0, 0, 0,
                            0, 0, 0, 0, 0,
                            0, 0, 0, 0, 0,
                            0, 0, 0, 0, 0,
                            0, 0, 0, 0, 0,
                            0, 0, 0, 0, 0,
                            0, 0, 0, 0, 0,
                            0, 0, 1, 0, 0,
                            0, 0, 0, 0, 0], "ver_ver");
    
    first.direction = Direction::Right;
    comp = vec![];
    for y in -6i16..=2
    {
        for x in -2i16..=9
        {
            second.position = Position {x, y};
            comp.push(first.head_touches_head(&second) as isize);
        }
    }
    
    assert_eq!(comp, vec![  0, 0, 0, 0, 0, 0, 0, 0, 0, 0, 0, 0,
                            0, 0, 0, 0, 0, 0, 0, 0, 0, 0, 0, 0,
                            0, 0, 0, 0, 0, 0, 0, 0, 0, 0, 0, 0,
                            0, 0, 0, 0, 0, 0, 0, 0, 0, 0, 0, 0,
                            0, 0, 0, 0, 0, 0, 0, 0, 0, 0, 0, 0,
                            0, 0, 0, 0, 0, 0, 0, 0, 0, 0, 0, 0,
                            0, 0, 0, 0, 0, 0, 0, 0, 0, 0, 0, 0,
                            0, 0, 0, 0, 0, 0, 0, 0, 0, 0, 0, 0,
                            0, 0, 0, 0, 0, 0, 0, 0, 0, 0, 0, 0], "hor_ver");
}

#[test]
fn test_placed_word_corners()
{
    let mut first = PlacedWord::new(b"hayastan".to_vec(), Position{ x: 0, y: 0 }, Direction::Right);
    let mut second = PlacedWord::new(b"arcax".to_vec(), Position{ x: 0, y: 0 }, Direction::Right);
    
    let mut comp = vec![];
    for y in -2i16..=2
    {
        for x in -6i16..=9
        {
            second.position = Position {x, y};
            comp.push(first.corners_touch(&second) as isize);
        }
    }

    assert_eq!(comp, vec![  0, 0, 0, 0, 0, 0, 0, 0, 0, 0, 0, 0, 0, 0, 0, 0,
                            0, 1, 0, 0, 0, 0, 0, 0, 0, 0, 0, 0, 0, 0, 1, 0,
                            0, 0, 0, 0, 0, 0, 0, 0, 0, 0, 0, 0, 0, 0, 0, 0,
                            0, 1, 0, 0, 0, 0, 0, 0, 0, 0, 0, 0, 0, 0, 1, 0,
                            0, 0, 0, 0, 0, 0, 0, 0, 0, 0, 0, 0, 0, 0, 0, 0], "hor_hor");
                            
    first.direction = Direction::Down;
    second.direction = Direction::Down;
    comp = vec![];
    for y in -6i16..=9
    {
        for x in -2i16..=2
        {
            second.position = Position {x, y};
            comp.push(first.corners_touch(&second) as isize);
        }
    }
    
    assert_eq!(comp, vec![  0, 0, 0, 0, 0,
                            0, 1, 0, 1, 0,
                            0, 0, 0, 0, 0,
                            0, 0, 0, 0, 0,
                            0, 0, 0, 0, 0,
                            0, 0, 0, 0, 0,
                            0, 0, 0, 0, 0,
                            0, 0, 0, 0, 0,
                            0, 0, 0, 0, 0,
                            0, 0, 0, 0, 0,
                            0, 0, 0, 0, 0,
                            0, 0, 0, 0, 0,
                            0, 0, 0, 0, 0,
                            0, 0, 0, 0, 0,
                            0, 1, 0, 1, 0,
                            0, 0, 0, 0, 0], "ver_ver");
    
    first.direction = Direction::Right;
    comp = vec![];
    for y in -6i16..=2
    {
        for x in -2i16..=9
        {
            second.position = Position {x, y};
            comp.push(first.corners_touch(&second) as isize);
        }
    }
    
    assert_eq!(comp, vec![  0, 0, 0, 0, 0, 0, 0, 0, 0, 0, 0, 0,
                            0, 1, 0, 0, 0, 0, 0, 0, 0, 0, 1, 0,
                            0, 0, 0, 0, 0, 0, 0, 0, 0, 0, 0, 0,
                            0, 0, 0, 0, 0, 0, 0, 0, 0, 0, 0, 0,
                            0, 0, 0, 0, 0, 0, 0, 0, 0, 0, 0, 0,
                            0, 0, 0, 0, 0, 0, 0, 0, 0, 0, 0, 0,
                            0, 0, 0, 0, 0, 0, 0, 0, 0, 0, 0, 0,
                            0, 1, 0, 0, 0, 0, 0, 0, 0, 0, 1, 0,
                            0, 0, 0, 0, 0, 0, 0, 0, 0, 0, 0, 0], "hor_ver");
}

#[test]
fn test_placed_word_get_intersection_indices()
{
    let mut first = PlacedWord::new(b"hayastan".to_vec(), Position{ x: 0, y: 0 }, Direction::Right);
    let mut second = PlacedWord::new(b"arcax".to_vec(), Position{ x: 0, y: 0 }, Direction::Right);

    assert_eq!(first.get_intersection_indices(&second), None);

    first.direction = Direction::Down;
    assert_eq!(first.get_intersection_indices(&second), Some((0, 0)));
    
    second.position = Position {x: -1, y: 2};
    assert_eq!(first.get_intersection_indices(&second), Some((2, 1)));

    second.position.x = 2;
    assert_eq!(first.get_intersection_indices(&second), None);
}



#[test]
fn test_word_compatibility_settings_are_words_compatible() {
    for (a, b, c, d) in combos()
    {
        let settings = WordCompatibilitySettings { side_by_side: a != 0, head_by_head: b != 0, side_by_head: c != 0, corner_by_corner: d != 0 };

        let mut first = PlacedWord::new(b"hayastan".to_vec(), Position{ x: 0, y: 0 }, Direction::Right);
        let mut second = PlacedWord::new(b"arcax".to_vec(), Position{ x: 0, y: 0 }, Direction::Right);
        
        let mut comp = vec![];
        for y in -2i16..=2
        {
            for x in -6i16..=9
            {
                second.position = Position {x, y};
                comp.push(settings.are_words_compatible(&first, &second) as isize);
            }
        }
    
        assert_eq!(comp, vec![  1, 1, 1, 1, 1, 1, 1, 1, 1, 1, 1, 1, 1, 1, 1, 1,
                                1, d, a, a, a, a, a, a, a, a, a, a, a, a, d, 1,
                                1, b, 0, 0, 0, 0, 0, 0, 0, 0, 0, 0, 0, 0, b, 1,
                                1, d, a, a, a, a, a, a, a, a, a, a, a, a, d, 1,
                                1, 1, 1, 1, 1, 1, 1, 1, 1, 1, 1, 1, 1, 1, 1, 1], "hor_hor with settings {:?}", settings);
            
        first.direction = Direction::Down;
        second.direction = Direction::Down;
        comp = vec![];
        for y in -6i16..=9
        {
            for x in -2i16..=2
            {
                second.position = Position {x, y};
                comp.push(settings.are_words_compatible(&first, &second) as isize);
            }
        }
        
        assert_eq!(comp, vec![  1, 1, 1, 1, 1,
                                1, d, b, d, 1,
                                1, a, 0, a, 1,
                                1, a, 0, a, 1,
                                1, a, 0, a, 1,
                                1, a, 0, a, 1,
                                1, a, 0, a, 1,
                                1, a, 0, a, 1,
                                1, a, 0, a, 1,
                                1, a, 0, a, 1,
                                1, a, 0, a, 1,
                                1, a, 0, a, 1,
                                1, a, 0, a, 1,
                                1, a, 0, a, 1,
                                1, d, b, d, 1,
                                1, 1, 1, 1, 1], "ver_ver with settings {:?}", settings);

        first.direction = Direction::Right;
        comp = vec![];
        for y in -6i16..=2
        {
            for x in -2i16..=9
            {
                second.position = Position {x, y};
                comp.push(settings.are_words_compatible(&first, &second) as isize);
            }
        }
        
        assert_eq!(comp, vec![  1, 1, 1, 1, 1, 1, 1, 1, 1, 1, 1, 1,
                                1, d, c, c, c, c, c, c, c, c, d, 1,
                                1, c, 0, 0, 0, 0, 0, 0, 0, 0, c, 1,
                                1, c, 0, 1, 0, 1, 0, 0, 1, 0, c, 1,
                                1, c, 0, 0, 0, 0, 0, 0, 0, 0, c, 1,
                                1, c, 0, 0, 0, 0, 0, 0, 0, 0, c, 1,
                                1, c, 0, 1, 0, 1, 0, 0, 1, 0, c, 1,
                                1, d, c, c, c, c, c, c, c, c, d, 1,
                                1, 1, 1, 1, 1, 1, 1, 1, 1, 1, 1, 1], "hor_ver with settings {:?}", settings);
    }
}

#[test]
fn placed_word_candidates_against_one_word() {
    // One crossing slot per matching character pair: the worked example
    // placing "world" across "hello".
    let base = PlacedWord::new(b"hello".to_vec(), Position { x: 0, y: 3 }, Direction::Right);
    let word = Word::new(b"world".to_vec(), None);
    let ways = base.calculate_possible_ways_to_add_word(&word);
    let expected = vec![
        PlacedWord::new(b"world".to_vec(), Position { x: 2, y: 0 }, Direction::Down),
        PlacedWord::new(b"world".to_vec(), Position { x: 3, y: 0 }, Direction::Down),
        PlacedWord::new(b"world".to_vec(), Position { x: 4, y: 2 }, Direction::Down),
    ];
    assert_eq!(ways.len(), expected.len());
    for e in &expected {
        assert!(ways.contains(e));
    }
}

#[test]
fn placed_word_locked_parallel_direction_yields_nothing() {
    let base = PlacedWord::new(b"hello".to_vec(), Position { x: 0, y: 0 }, Direction::Right);
    let word = Word::new(b"halo".to_vec(), Some(Direction::Right));
    let ways = base.calculate_possible_ways_to_add_word(&word);
    assert!(ways.is_empty());
}
