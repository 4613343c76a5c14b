use crossvault::generate::{
    fill_empty, generate, generate_wordsearch_with_words, random_coords, random_place_type,
    render_grid,
};
use crossvault::solve::find_word_directionally;
use crossvault::util::{PlaceType, Word};

#[test]
fn random_place_type_respects_flags() {
    for _ in 0..200 {
        let pt = random_place_type(false, false);
        assert!(!pt.is_diagonal());
        assert!(!pt.is_reversed());
    }
    for _ in 0..200 {
        let pt = random_place_type(false, true);
        assert!(!pt.is_diagonal());
    }
    for _ in 0..200 {
        let pt = random_place_type(true, false);
        assert!(!pt.is_reversed());
    }
}

#[test]
fn placement_rejects_word_longer_than_grid() {
    let used: Vec<Word> = vec![];
    assert!(random_coords(PlaceType::RightStraight, "rapid", &used, 4, 4).is_none());
    assert!(random_coords(PlaceType::LeftStraight, "rapid", &used, 4, 4).is_none());
    assert!(random_coords(PlaceType::UpStraight, "rapid", &used, 4, 4).is_none());
    assert!(random_coords(PlaceType::DownStraight, "rapid", &used, 4, 4).is_none());
    assert!(random_coords(PlaceType::LowerRightDiagonal, "rapid", &used, 4, 4).is_none());
}

#[test]
fn placement_fits_word_that_exactly_spans() {
    let used: Vec<Word> = vec![];
    let spot = random_coords(PlaceType::RightStraight, "maze", &used, 4, 4);
    let (x, y) = spot.expect("a four-letter word fits a four-wide grid");
    assert_eq!(x, 0);
    assert!(y < 4);
}

#[test]
fn placement_avoids_occupied_cells() {
    // One word fills the whole top row; a second horizontal word must land
    // on one of the remaining rows.
    let first = Word { place_type: PlaceType::RightStraight, word: String::from("abcd"), x: 0, y: 0 };
    let used = vec![first];
    for _ in 0..50 {
        match random_coords(PlaceType::RightStraight, "wxyz", &used, 4, 4) {
            Some((x, y)) => {
                assert_eq!(x, 0);
                assert!(y >= 1 && y < 4);
            },
            None => panic!("three free rows leave room for the word"),
        }
    }
}

#[test]
fn materialized_grid_holds_each_placed_word() {
    let words = vec![
        Word { place_type: PlaceType::RightStraight, word: String::from("cat"), x: 0, y: 0 },
        Word { place_type: PlaceType::DownStraight, word: String::from("dog"), x: 4, y: 1 },
        Word { place_type: PlaceType::LowerRightDiagonal, word: String::from("owl"), x: 1, y: 1 },
    ];
    let grid = generate_wordsearch_with_words(&words, 5, 5);
    assert_eq!(grid.len(), 5);
    for row in &grid {
        assert_eq!(row.len(), 5);
        for &c in row {
            assert!(c.is_ascii_lowercase());
        }
    }
    assert_eq!(grid[0][0], 'c');
    assert_eq!(grid[0][1], 'a');
    assert_eq!(grid[0][2], 't');
    assert_eq!(grid[1][4], 'd');
    assert_eq!(grid[2][4], 'o');
    assert_eq!(grid[3][4], 'g');
    assert_eq!(grid[1][1], 'o');
    assert_eq!(grid[2][2], 'w');
    assert_eq!(grid[3][3], 'l');
    for w in &words {
        assert!(find_word_directionally(&grid, &w.word, false));
    }
}

#[test]
fn fill_empty_replaces_only_blanks() {
    let mut grid = vec![vec![' ', 'q'], vec!['r', ' ']];
    fill_empty(&mut grid);
    assert_eq!(grid[0][1], 'q');
    assert_eq!(grid[1][0], 'r');
    assert!(grid[0][0].is_ascii_lowercase());
    assert!(grid[1][1].is_ascii_lowercase());
}

#[test]
fn render_uppercases_and_joins_rows() {
    let grid = vec![vec!['a', 'b'], vec!['c', 'd']];
    assert_eq!(render_grid(&grid), "A B;\nC D");
    let one = vec![vec!['z']];
    assert_eq!(render_grid(&one), "Z");
    let empty: Vec<Vec<char>> = vec![];
    assert_eq!(render_grid(&empty), "");
}

#[test]
fn generated_words_are_in_bounds_and_disjoint() {
    let res = generate(true, true, 12, 12);
    assert_eq!(res.grid.len(), 12);
    for row in &res.grid {
        assert_eq!(row.len(), 12);
    }
    let mut seen: Vec<(u8, u8)> = vec![];
    for w in &res.words {
        for ((x, y), _) in w.positions_and_chars() {
            assert!(x < 12 && y < 12);
            assert!(!seen.contains(&(x, y)), "two words share a cell");
            seen.push((x, y));
        }
    }
}

#[test]
fn generated_words_are_distinct() {
    let res = generate(false, false, 10, 10);
    for (i, a) in res.words.iter().enumerate() {
        assert!(!a.place_type.is_diagonal());
        assert!(!a.place_type.is_reversed());
        for b in res.words.iter().skip(i + 1) {
            assert_ne!(a.word, b.word);
        }
    }
}

#[test]
fn generated_grid_round_trips_through_solver() {
    let res = generate(true, false, 30, 30);
    assert!(!res.words.is_empty(), "a 30 by 30 grid holds at least one word");
    for w in &res.words {
        assert!(
            find_word_directionally(&res.grid, &w.word, false),
            "placed word not found again"
        );
    }
}

#[test]
fn tiny_grid_generation_still_finishes() {
    let res = generate(false, false, 1, 1);
    assert_eq!(res.grid.len(), 1);
    assert_eq!(res.grid[0].len(), 1);
    let res0 = generate(true, true, 0, 0);
    assert_eq!(res0.grid.len(), 0);
    assert!(res0.words.is_empty());
}

#[test]
fn word_count_follows_density_heuristic() {
    // Area 25: density 0.02, so exactly one word is attempted.
    let res = generate(false, false, 5, 5);
    assert_eq!(res.words.len() as u32 + res.failed_placements, 1);
    // Area 100: density 0.03, so two or three words are attempted.
    let res2 = generate(true, true, 10, 10);
    let attempts = res2.words.len() as u32 + res2.failed_placements;
    assert!(attempts >= 2 && attempts <= 3);
}

#[test]
fn generated_words_have_no_blank_characters() {
    let res = generate(true, true, 20, 20);
    for w in &res.words {
        assert!(!w.word.is_empty());
        assert!(!w.word.contains(' '));
    }
}

#[test]
fn placement_on_empty_grid_succeeds_when_word_fits() {
    let used: Vec<Word> = vec![];
    assert!(random_coords(PlaceType::RightStraight, "maze", &used, 4, 4).is_some());
    assert!(random_coords(PlaceType::UpperLeftDiagonal, "ox", &used, 4, 4).is_some());
    assert!(random_coords(PlaceType::UpStraight, "pony", &used, 5, 4).is_some());
}
