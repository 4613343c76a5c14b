//! The solver: walks a word through the grid along each of the eight
//! orientations from every candidate start cell, matching characters
//! case-insensitively.

use vstd::prelude::*;

use crate::util::{
    calculate_indices, delta_x, delta_y, gview, lower, rect, str_chars, to_lower, PlaceType,
};

verus! {

/// The `i`-th step of a directional walk lands in bounds and matches the
/// word's `i`-th character, case-insensitively.
pub open spec fn step_ok(
    grid: Seq<Seq<char>>,
    word: Seq<char>,
    r: int,
    c: int,
    dr: int,
    dc: int,
    i: int,
) -> bool {
    let rr = r + i * dr;
    let cc = c + i * dc;
    0 <= rr < grid.len() && 0 <= cc < grid[rr].len() && lower(grid[rr][cc]) == lower(word[i])
}

/// The word matches the grid starting at row `r`, column `c`, stepping by
/// `(dr, dc)` per character. An empty word matches trivially.
pub open spec fn match_at(
    grid: Seq<Seq<char>>,
    word: Seq<char>,
    r: int,
    c: int,
    dr: int,
    dc: int,
) -> bool {
    forall|i: int| 0 <= i < word.len() ==> #[trigger] step_ok(grid, word, r, c, dr, dc, i)
}

/// The word stands somewhere in the grid: some start cell and some
/// orientation match it forwards.
pub open spec fn found_in(grid: Seq<Seq<char>>, word: Seq<char>) -> bool {
    exists|r: int, c: int, pt: PlaceType|
        match_at(grid, word, r, c, delta_y(pt), delta_x(pt))
}

/// Walks the word characters from `(r, c)` stepping by `(dr, dc)` and
/// reports whether every character is in bounds and matches.
pub fn search_from_chars(
    grid: &Vec<Vec<char>>,
    word: &Vec<char>,
    r: usize,
    c: usize,
    dr: i32,
    dc: i32,
) -> (found: bool)
    requires
        rect(gview(grid@)),
        -1 <= dr <= 1,
        -1 <= dc <= 1,
    ensures
        found == match_at(gview(grid@), word@, r as int, c as int, dr as int, dc as int),
{
    let n = word.len();
    let mut rr: usize = r;
    let mut cc: usize = c;
    let mut idx: usize = 0;
    while idx < n
        invariant
            idx <= n,
            n == word@.len(),
            rect(gview(grid@)),
            -1 <= dr <= 1,
            -1 <= dc <= 1,
            idx < n ==> rr as int == r + idx * (dr as int),
            idx < n ==> cc as int == c + idx * (dc as int),
            forall|t: int|
                0 <= t < idx ==> #[trigger] step_ok(
                    gview(grid@),
                    word@,
                    r as int,
                    c as int,
                    dr as int,
                    dc as int,
                    t,
                ),
        decreases n - idx,
    {
        if rr >= grid.len() {
            proof {
                assert(!step_ok(
                    gview(grid@),
                    word@,
                    r as int,
                    c as int,
                    dr as int,
                    dc as int,
                    idx as int,
                ));
            }
            return false;
        }
        let row_len = grid[rr].len();
        if cc >= row_len {
            proof {
                assert(!step_ok(
                    gview(grid@),
                    word@,
                    r as int,
                    c as int,
                    dr as int,
                    dc as int,
                    idx as int,
                ));
            }
            return false;
        }
        let gc = grid[rr][cc];
        if to_lower(gc) != to_lower(word[idx]) {
            proof {
                assert(!step_ok(
                    gview(grid@),
                    word@,
                    r as int,
                    c as int,
                    dr as int,
                    dc as int,
                    idx as int,
                ));
            }
            return false;
        }
        proof {
            assert(step_ok(
                gview(grid@),
                word@,
                r as int,
                c as int,
                dr as int,
                dc as int,
                idx as int,
            ));
            assert((idx + 1) * (dr as int) == idx * (dr as int) + dr) by (nonlinear_arith);
            assert((idx + 1) * (dc as int) == idx * (dc as int) + dc) by (nonlinear_arith);
        }
        idx = idx + 1;
        if idx < n {
            if dr < 0 {
                if rr == 0 {
                    proof {
                        assert(!step_ok(
                            gview(grid@),
                            word@,
                            r as int,
                            c as int,
                            dr as int,
                            dc as int,
                            idx as int,
                        ));
                    }
                    return false;
                }
                rr = rr - 1;
            } else {
                rr = rr + (dr as usize);
            }
            if dc < 0 {
                if cc == 0 {
                    proof {
                        assert(!step_ok(
                            gview(grid@),
                            word@,
                            r as int,
                            c as int,
                            dr as int,
                            dc as int,
                            idx as int,
                        ));
                    }
                    return false;
                }
                cc = cc - 1;
            } else {
                cc = cc + (dc as usize);
            }
        }
    }
    true
}

/// Walks the word from `(r, c)` stepping by `(dr, dc)` per character and
/// reports whether the whole word matches there.
pub fn search_from(
    grid: &Vec<Vec<char>>,
    word: &str,
    r: usize,
    c: usize,
    dr: i32,
    dc: i32,
) -> (found: bool)
    requires
        rect(gview(grid@)),
        -1 <= dr <= 1,
        -1 <= dc <= 1,
    ensures
        found == match_at(gview(grid@), word@, r as int, c as int, dr as int, dc as int),
{
    let chars = str_chars(word);
    search_from_chars(grid, &chars, r, c, dr, dc)
}

/// Builds the character-reversed form of a word.
pub fn reverse_chars(w: &Vec<char>) -> (r: Vec<char>)
    ensures
        r@ == w@.reverse(),
{
    let n = w.len();
    let mut r: Vec<char> = Vec::new();
    let mut i: usize = 0;
    while i < n
        invariant
            i <= n,
            n == w@.len(),
            r@.len() == i,
            forall|k: int| 0 <= k < i ==> #[trigger] r@[k] == w@[n - 1 - k],
        decreases n - i,
    {
        r.push(w[n - 1 - i]);
        i = i + 1;
    }
    proof {
        assert(r@ =~= w@.reverse());
    }
    r
}

/// Tries all eight orientations from one start cell and reports whether
/// any of them matches the whole word.
fn try_directions(grid: &Vec<Vec<char>>, word: &Vec<char>, r: usize, c: usize) -> (found: bool)
    requires
        rect(gview(grid@)),
    ensures
        found == exists|pt: PlaceType|
            match_at(gview(grid@), word@, r as int, c as int, delta_y(pt), delta_x(pt)),
{
    let ghost g = gview(grid@);
    if search_from_chars(grid, word, r, c, -1, -1) {
        proof {
            let pt = PlaceType::UpperLeftDiagonal;
            assert(match_at(g, word@, r as int, c as int, delta_y(pt), delta_x(pt)));
        }
        return true;
    }
    if search_from_chars(grid, word, r, c, -1, 0) {
        proof {
            let pt = PlaceType::UpStraight;
            assert(match_at(g, word@, r as int, c as int, delta_y(pt), delta_x(pt)));
        }
        return true;
    }
    if search_from_chars(grid, word, r, c, -1, 1) {
        proof {
            let pt = PlaceType::UpperRightDiagonal;
            assert(match_at(g, word@, r as int, c as int, delta_y(pt), delta_x(pt)));
        }
        return true;
    }
    if search_from_chars(grid, word, r, c, 0, -1) {
        proof {
            let pt = PlaceType::LeftStraight;
            assert(match_at(g, word@, r as int, c as int, delta_y(pt), delta_x(pt)));
        }
        return true;
    }
    if search_from_chars(grid, word, r, c, 0, 1) {
        proof {
            let pt = PlaceType::RightStraight;
            assert(match_at(g, word@, r as int, c as int, delta_y(pt), delta_x(pt)));
        }
        return true;
    }
    if search_from_chars(grid, word, r, c, 1, -1) {
        proof {
            let pt = PlaceType::LowerLeftDiagonal;
            assert(match_at(g, word@, r as int, c as int, delta_y(pt), delta_x(pt)));
        }
        return true;
    }
    if search_from_chars(grid, word, r, c, 1, 0) {
        proof {
            let pt = PlaceType::DownStraight;
            assert(match_at(g, word@, r as int, c as int, delta_y(pt), delta_x(pt)));
        }
        return true;
    }
    if search_from_chars(grid, word, r, c, 1, 1) {
        proof {
            let pt = PlaceType::LowerRightDiagonal;
            assert(match_at(g, word@, r as int, c as int, delta_y(pt), delta_x(pt)));
        }
        return true;
    }
    proof {
        assert forall|pt: PlaceType|
            !match_at(g, word@, r as int, c as int, delta_y(pt), delta_x(pt)) by {
            match pt {
                PlaceType::UpperLeftDiagonal => assert(delta_y(pt) == -1 && delta_x(pt) == -1),
                PlaceType::UpperRightDiagonal => assert(delta_y(pt) == -1 && delta_x(pt) == 1),
                PlaceType::LowerRightDiagonal => assert(delta_y(pt) == 1 && delta_x(pt) == 1),
                PlaceType::LowerLeftDiagonal => assert(delta_y(pt) == 1 && delta_x(pt) == -1),
                PlaceType::RightStraight => assert(delta_y(pt) == 0 && delta_x(pt) == 1),
                PlaceType::UpStraight => assert(delta_y(pt) == -1 && delta_x(pt) == 0),
                PlaceType::LeftStraight => assert(delta_y(pt) == 0 && delta_x(pt) == -1),
                PlaceType::DownStraight => assert(delta_y(pt) == 1 && delta_x(pt) == 0),
            }
        }
    }
    false
}

/// Searches the grid for the word, the character-reversed form of it when
/// `reversed` is set, scanning candidate start cells in row-major order and
/// the eight orientations in a fixed order. Matching is case-insensitive.
pub fn find_word_directionally(grid: &Vec<Vec<char>>, word: &str, reversed: bool) -> (found: bool)
    requires
        rect(gview(grid@)),
    ensures
        found == found_in(
            gview(grid@),
            if reversed {
                word@.reverse()
            } else {
                word@
            },
        ),
{
    let wchars = str_chars(word);
    let search_word = if reversed {
        reverse_chars(&wchars)
    } else {
        wchars
    };
    let ghost g = gview(grid@);
    let ghost sw = search_word@;
    if search_word.len() == 0 {
        proof {
            let pt = PlaceType::RightStraight;
            assert(match_at(g, sw, 0, 0, delta_y(pt), delta_x(pt)));
        }
        return true;
    }
    let first_char = search_word[0];
    let indices = calculate_indices(grid, first_char);
    let mut k: usize = 0;
    while k < indices.len()
        invariant
            rect(g),
            g == gview(grid@),
            sw == search_word@,
            sw == if reversed {
                word@.reverse()
            } else {
                word@
            },
            sw.len() > 0,
            first_char == sw[0],
            forall|i: int, j: int|
                0 <= i < grid@.len() && 0 <= j < gview(grid@)[i].len() && lower(
                    #[trigger] gview(grid@)[i][j],
                ) == lower(first_char) ==> indices@.contains((i as usize, j as usize)),
            k <= indices@.len(),
            forall|t: int, pt: PlaceType|
                #![trigger indices@[t], delta_x(pt)]
                0 <= t < k ==> !match_at(
                    g,
                    sw,
                    indices@[t].0 as int,
                    indices@[t].1 as int,
                    delta_y(pt),
                    delta_x(pt),
                ),
        decreases indices@.len() - k,
    {
        let (r, c) = indices[k];
        if try_directions(grid, &search_word, r, c) {
            proof {
                let pt = choose|pt: PlaceType|
                    match_at(
                        gview(grid@),
                        search_word@,
                        r as int,
                        c as int,
                        delta_y(pt),
                        delta_x(pt),
                    );
                assert(match_at(
                    gview(grid@),
                    search_word@,
                    r as int,
                    c as int,
                    delta_y(pt),
                    delta_x(pt),
                ));
                assert(found_in(gview(grid@), search_word@));
                assert(search_word@ == if reversed {
                    word@.reverse()
                } else {
                    word@
                });
            }
            return true;
        }
        k = k + 1;
    }
    proof {
        if found_in(gview(grid@), sw) {
            let (r, c, pt) = choose|r: int, c: int, pt: PlaceType|
                match_at(gview(grid@), sw, r, c, delta_y(pt), delta_x(pt));
            assert(step_ok(gview(grid@), sw, r, c, delta_y(pt), delta_x(pt), 0));
            assert(lower(gview(grid@)[r][c]) == lower(first_char));
            assert(indices@.contains((r as usize, c as usize)));
            let t = choose|t: int|
                0 <= t < indices@.len() && #[trigger] indices@[t] == (r as usize, c as usize);
            assert(0 <= r < grid@.len() && 0 <= c < gview(grid@)[r].len());
            assert(grid@.len() == vstd::std_specs::vec::spec_vec_len(grid));
            assert(gview(grid@)[r].len() == vstd::std_specs::vec::spec_vec_len(&grid@[r]));
            assert(indices@[t].0 == r as usize && indices@[t].1 == c as usize);
            assert(indices@[t].0 as int == r && indices@[t].1 as int == c);
            assert(!match_at(
                gview(grid@),
                sw,
                indices@[t].0 as int,
                indices@[t].1 as int,
                delta_y(pt),
                delta_x(pt),
            ));
            assert(false);
        }
    }
    false
}

/// The word lists seen as sequences of character sequences.
pub open spec fn words_view(ws: Seq<String>) -> Seq<Seq<char>> {
    Seq::new(ws.len(), |i: int| ws[i]@)
}

/// A word misses the grid outright, and, when the reversed retry is on,
/// its reversed form misses too.
pub open spec fn word_unfound(grid: Seq<Seq<char>>, w: Seq<char>, retry_reversed: bool) -> bool {
    !found_in(grid, w) && (retry_reversed ==> !found_in(grid, w.reverse()))
}

/// The subsequence of words that stay unfound after the forward pass and,
/// when `retry_reversed` is set, the reversed retry pass.
pub open spec fn unfound_list(
    grid: Seq<Seq<char>>,
    ws: Seq<Seq<char>>,
    retry_reversed: bool,
) -> Seq<Seq<char>>
    decreases ws.len(),
{
    if ws.len() == 0 {
        Seq::empty()
    } else {
        unfound_list(grid, ws.drop_last(), retry_reversed) + if word_unfound(
            grid,
            ws.last(),
            retry_reversed,
        ) {
            seq![ws.last()]
        } else {
            Seq::empty()
        }
    }
}

/// Checks every requested word against the grid and returns, in request
/// order, those that are nowhere to be found; with `retry_reversed` a word
/// counts as found when its character-reversed form stands in the grid.
pub fn unfound_words(grid: &Vec<Vec<char>>, words: &Vec<String>, retry_reversed: bool) -> (r: Vec<
    String,
>)
    requires
        rect(gview(grid@)),
    ensures
        words_view(r@) == unfound_list(gview(grid@), words_view(words@), retry_reversed),
{
    let mut r: Vec<String> = Vec::new();
    let mut i: usize = 0;
    while i < words.len()
        invariant
            rect(gview(grid@)),
            i <= words@.len(),
            words_view(r@) == unfound_list(
                gview(grid@),
                words_view(words@).subrange(0, i as int),
                retry_reversed,
            ),
        decreases words@.len() - i,
    {
        let w = &words[i];
        let mut missing = !find_word_directionally(grid, w.as_str(), false);
        if missing && retry_reversed {
            missing = !find_word_directionally(grid, w.as_str(), true);
        }
        let ghost rold = r@;
        if missing {
            r.push(String::from_str(w.as_str()));
        }
        i = i + 1;
        proof {
            let ws = words_view(words@);
            assert(ws.subrange(0, i as int).drop_last() =~= ws.subrange(0, i - 1));
            assert(ws.subrange(0, i as int).last() == words@[i - 1]@);
            if missing {
                assert(words_view(r@) =~= words_view(rold) + seq![words@[i - 1]@]);
            } else {
                assert(words_view(r@) =~= words_view(rold));
            }
            assert(words_view(r@) =~= unfound_list(
                gview(grid@),
                ws.subrange(0, i as int),
                retry_reversed,
            ));
        }
    }
    proof {
        assert(words_view(words@).subrange(0, words@.len() as int) =~= words_view(words@));
    }
    r
}

} // verus!
