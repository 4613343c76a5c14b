use crossvault::solve::{find_word_directionally, search_from, unfound_words};
use crossvault::util::calculate_indices;

fn grid_of(rows: &[&str]) -> Vec<Vec<char>> {
    rows.iter().map(|r| r.chars().collect()).collect()
}

#[test]
fn finds_word_left_to_right() {
    let grid = grid_of(&["cat", "dog", "owl"]);
    assert!(find_word_directionally(&grid, "cat", false));
    assert!(find_word_directionally(&grid, "dog", false));
    assert!(find_word_directionally(&grid, "owl", false));
    assert!(!find_word_directionally(&grid, "cow", false));
}

#[test]
fn case_insensitive_matching() {
    let grid = grid_of(&["CAT", "XYZ", "QRS"]);
    assert!(find_word_directionally(&grid, "cat", false));
    assert!(find_word_directionally(&grid, "Cat", false));
    assert!(find_word_directionally(&grid, "CAT", false));
    let lower_grid = grid_of(&["cat", "xyz", "qrs"]);
    assert!(find_word_directionally(&lower_grid, "CAT", false));
}

#[test]
fn diagonal_direction_coverage() {
    // "abc" runs down the main diagonal.
    let grid = grid_of(&["aXX", "XbX", "XXc"]);
    assert!(find_word_directionally(&grid, "abc", false));
    // The eight directions include every opposite, so the reversed text is
    // also found forwards, walking the diagonal upwards.
    assert!(find_word_directionally(&grid, "cba", false));
    // The reversed search looks for the reversed text and succeeds too.
    assert!(find_word_directionally(&grid, "cba", true));
    assert!(!find_word_directionally(&grid, "abx", false));
}

#[test]
fn vertical_and_reverse_directions() {
    let grid = grid_of(&["nac", "urt", "fdx"]);
    // "fun" runs upwards in the first column.
    assert!(find_word_directionally(&grid, "fun", false));
    // "can" runs right to left in the first row.
    assert!(find_word_directionally(&grid, "can", false));
    // "drt" is nowhere.
    assert!(!find_word_directionally(&grid, "drt", false));
}

#[test]
fn empty_word_is_trivially_found() {
    let grid = grid_of(&["ab", "cd"]);
    assert!(find_word_directionally(&grid, "", false));
    assert!(find_word_directionally(&grid, "", true));
}

#[test]
fn word_longer_than_grid_is_not_found() {
    let grid = grid_of(&["ab", "cd"]);
    assert!(!find_word_directionally(&grid, "abcde", false));
}

#[test]
fn search_from_walks_one_direction() {
    let grid = grid_of(&["cat", "dog", "owl"]);
    assert!(search_from(&grid, "cat", 0, 0, 0, 1));
    assert!(!search_from(&grid, "cat", 0, 0, 1, 0));
    // "cdo" runs down the first column.
    assert!(search_from(&grid, "cdo", 0, 0, 1, 0));
    // Walking off the edge fails.
    assert!(!search_from(&grid, "cata", 0, 0, 0, 1));
}

#[test]
fn calculate_indices_row_major_case_insensitive() {
    let grid = grid_of(&["aba", "bAb"]);
    let hits = calculate_indices(&grid, 'A');
    assert_eq!(hits, vec![(0, 0), (0, 2), (1, 1)]);
    let none = calculate_indices(&grid, 'z');
    assert!(none.is_empty());
}

#[test]
fn unfound_report_lists_every_miss() {
    let grid = grid_of(&["cat", "dog", "owl"]);
    let words = vec![
        String::from("cat"),
        String::from("fox"),
        String::from("dog"),
        String::from("hen"),
    ];
    let missing = unfound_words(&grid, &words, false);
    assert_eq!(missing, vec![String::from("fox"), String::from("hen")]);
}

#[test]
fn unfound_report_empty_when_all_found() {
    let grid = grid_of(&["cat", "dog", "owl"]);
    let words = vec![String::from("cat"), String::from("owl")];
    let missing = unfound_words(&grid, &words, false);
    assert!(missing.is_empty());
}

#[test]
fn unfound_retry_searches_reversed_text() {
    let grid = grid_of(&["tac"]);
    // Forward pass alone already finds "cat" right to left; the retry flag
    // must not report it either.
    let missing = unfound_words(&grid, &vec![String::from("cat")], true);
    assert!(missing.is_empty());
    let missing2 = unfound_words(&grid, &vec![String::from("cow")], true);
    assert_eq!(missing2, vec![String::from("cow")]);
}
