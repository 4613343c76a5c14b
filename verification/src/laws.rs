//! Relations between the generator and the solver, stated and proved once
//! and for all: collision-free placement pins down what each cell holds,
//! every placed word matches the finished grid where it was placed, and
//! matching never depends on letter case.

use vstd::prelude::*;

use crate::generate::{grid_char_at, is_fill_char, word_index_at};
use crate::solve::{found_in, match_at, step_ok};
use crate::util::{delta_x, delta_y, lemma_cells_distinct, lower, words_disjoint, PlaceType, Word};

verus! {

/// On a list of pairwise disjoint placed words, the character left at any
/// cell of word `k` is exactly that word's own character: no later word
/// overwrites it.
pub proof fn lemma_grid_char_of_disjoint(words: Seq<Word>, k: int, i: int)
    requires
        0 <= k < words.len(),
        0 <= i < words[k].word@.len(),
        forall|k1: int, k2: int|
            0 <= k1 < k2 < words.len() ==> words_disjoint(
                #[trigger] words[k1],
                #[trigger] words[k2],
            ),
    ensures
        grid_char_at(words, words[k].cell_x(i), words[k].cell_y(i)) == Option::Some(
            words[k].word@[i],
        ),
    decreases words.len(),
{
    let w = words[k];
    let x = w.cell_x(i);
    let y = w.cell_y(i);
    let lw = words.last();
    if k == words.len() - 1 {
        assert(lw == w);
        assert(w.covers(x, y));
        let i0 = word_index_at(w, x, y);
        assert(0 <= i0 < w.word@.len() && w.cell_x(i0) == x && w.cell_y(i0) == y);
        if i0 != i {
            lemma_cells_distinct(w, i0, i);
        }
        assert(i0 == i);
    } else {
        assert(words_disjoint(w, lw));
        if lw.covers(x, y) {
            let j = choose|j: int|
                0 <= j < lw.word@.len() && #[trigger] lw.cell_x(j) == x && lw.cell_y(j) == y;
            assert(!(w.cell_x(i) == lw.cell_x(j) && w.cell_y(i) == lw.cell_y(j)));
            assert(false);
        }
        assert forall|k1: int, k2: int|
            0 <= k1 < k2 < words.drop_last().len() implies words_disjoint(
            #[trigger] words.drop_last()[k1],
            #[trigger] words.drop_last()[k2],
        ) by {
            assert(words.drop_last()[k1] == words[k1] && words.drop_last()[k2] == words[k2]);
        }
        assert(words.drop_last()[k] == words[k]);
        lemma_grid_char_of_disjoint(words.drop_last(), k, i);
    }
}

/// The round trip from generation to solving: on a finished grid that
/// matches its list of pairwise disjoint, in-bounds placed words — which is
/// what the generator ensures — every placed word without blank characters
/// matches the grid forwards at its recorded origin along its recorded
/// orientation, so the solver reports it found. A word with a blank
/// character is left out: the fill step replaces blank cells, so its grid
/// cells need not spell it any more. The generator's own words carry no
/// blank by its contract, so for a generated puzzle the hypothesis is met.
pub proof fn lemma_round_trip(
    g: Seq<Seq<char>>,
    words: Seq<Word>,
    width: u8,
    height: u8,
    k: int,
)
    requires
        g.len() == height as int,
        forall|r: int| 0 <= r < height ==> (#[trigger] g[r]).len() == width as int,
        forall|kk: int|
            0 <= kk < words.len() ==> (#[trigger] words[kk]).in_bounds(width as int, height as int),
        forall|k1: int, k2: int|
            0 <= k1 < k2 < words.len() ==> words_disjoint(
                #[trigger] words[k1],
                #[trigger] words[k2],
            ),
        forall|xx: int, yy: int|
            0 <= xx < width && 0 <= yy < height ==> match grid_char_at(words, xx, yy) {
                Option::Some(c) => if c == ' ' {
                    is_fill_char(#[trigger] g[yy][xx])
                } else {
                    g[yy][xx] == c
                },
                Option::None => is_fill_char(#[trigger] g[yy][xx]),
            },
        0 <= k < words.len(),
        forall|i: int| 0 <= i < words[k].word@.len() ==> (#[trigger] words[k].word@[i]) != ' ',
    ensures
        match_at(
            g,
            words[k].word@,
            words[k].y as int,
            words[k].x as int,
            delta_y(words[k].place_type),
            delta_x(words[k].place_type),
        ),
        found_in(g, words[k].word@),
{
    let w = words[k];
    let dr = delta_y(w.place_type);
    let dc = delta_x(w.place_type);
    assert forall|i: int|
        0 <= i < w.word@.len() implies #[trigger] step_ok(
        g,
        w.word@,
        w.y as int,
        w.x as int,
        dr,
        dc,
        i,
    ) by {
        assert(w.y as int + i * dr == w.cell_y(i));
        assert(w.x as int + i * dc == w.cell_x(i));
        assert(0 <= w.cell_x(i) < width && 0 <= w.cell_y(i) < height);
        lemma_grid_char_of_disjoint(words, k, i);
        assert(grid_char_at(words, w.cell_x(i), w.cell_y(i)) == Option::Some(w.word@[i]));
        assert(g[w.cell_y(i)][w.cell_x(i)] == w.word@[i]);
    }
    assert(match_at(g, w.word@, w.y as int, w.x as int, dr, dc));
    assert(found_in(g, w.word@));
}

/// A forward match read backwards: whatever matches from `(r, c)` stepping
/// by `(dr, dc)`, its reversed text matches from the last matched cell
/// stepping the opposite way.
proof fn lemma_reverse_match(
    g: Seq<Seq<char>>,
    w: Seq<char>,
    r: int,
    c: int,
    dr: int,
    dc: int,
)
    requires
        match_at(g, w, r, c, dr, dc),
        w.len() > 0,
    ensures
        match_at(
            g,
            w.reverse(),
            r + (w.len() - 1) * dr,
            c + (w.len() - 1) * dc,
            -dr,
            -dc,
        ),
{
    let n = w.len() as int;
    assert forall|i: int|
        0 <= i < w.reverse().len() implies #[trigger] step_ok(
        g,
        w.reverse(),
        r + (n - 1) * dr,
        c + (n - 1) * dc,
        -dr,
        -dc,
        i,
    ) by {
        assert(step_ok(g, w, r, c, dr, dc, n - 1 - i));
        assert((n - 1) * dr + i * -dr == (n - 1 - i) * dr) by (nonlinear_arith);
        assert((n - 1) * dc + i * -dc == (n - 1 - i) * dc) by (nonlinear_arith);
        assert(w.reverse()[i] == w[n - 1 - i]);
    }
}

/// The eight orientations include each one's opposite, so a word stands in
/// a grid exactly when its character-reversed form does: the reversed form
/// is read off along the opposite orientation starting from the word's
/// last cell. Searching with the reversed text therefore never finds more
/// than the forward search already does.
pub proof fn lemma_reverse_found(g: Seq<Seq<char>>, w: Seq<char>)
    ensures
        found_in(g, w) == found_in(g, w.reverse()),
{
    if w.len() == 0 {
        assert(w.reverse().len() == 0);
        let pt = PlaceType::RightStraight;
        assert(match_at(g, w, 0, 0, delta_y(pt), delta_x(pt)));
        assert(match_at(g, w.reverse(), 0, 0, delta_y(pt), delta_x(pt)));
    } else {
        if found_in(g, w) {
            let (r, c, pt) = choose|r: int, c: int, pt: PlaceType|
                match_at(g, w, r, c, delta_y(pt), delta_x(pt));
            lemma_reverse_match(g, w, r, c, delta_y(pt), delta_x(pt));
            let pt2 = opposite_of(pt);
            assert(delta_y(pt2) == -delta_y(pt) && delta_x(pt2) == -delta_x(pt));
            assert(match_at(
                g,
                w.reverse(),
                r + (w.len() - 1) * delta_y(pt),
                c + (w.len() - 1) * delta_x(pt),
                delta_y(pt2),
                delta_x(pt2),
            ));
            assert(found_in(g, w.reverse()));
        }
        if found_in(g, w.reverse()) {
            let (r, c, pt) = choose|r: int, c: int, pt: PlaceType|
                match_at(g, w.reverse(), r, c, delta_y(pt), delta_x(pt));
            lemma_reverse_match(g, w.reverse(), r, c, delta_y(pt), delta_x(pt));
            assert(w.reverse().reverse() =~= w);
            let pt2 = opposite_of(pt);
            assert(delta_y(pt2) == -delta_y(pt) && delta_x(pt2) == -delta_x(pt));
            assert(match_at(
                g,
                w,
                r + (w.reverse().len() - 1) * delta_y(pt),
                c + (w.reverse().len() - 1) * delta_x(pt),
                delta_y(pt2),
                delta_x(pt2),
            ));
            assert(found_in(g, w));
        }
    }
}

/// The orientation that steps the opposite way on both axes.
pub open spec fn opposite_of(pt: PlaceType) -> PlaceType {
    match pt {
        PlaceType::UpperLeftDiagonal => PlaceType::LowerRightDiagonal,
        PlaceType::UpperRightDiagonal => PlaceType::LowerLeftDiagonal,
        PlaceType::LowerRightDiagonal => PlaceType::UpperLeftDiagonal,
        PlaceType::LowerLeftDiagonal => PlaceType::UpperRightDiagonal,
        PlaceType::RightStraight => PlaceType::LeftStraight,
        PlaceType::UpStraight => PlaceType::DownStraight,
        PlaceType::LeftStraight => PlaceType::RightStraight,
        PlaceType::DownStraight => PlaceType::UpStraight,
    }
}

/// Case never decides a match: two words whose characters agree after case
/// folding are found in exactly the same grids.
pub proof fn lemma_case_insensitive(g: Seq<Seq<char>>, w1: Seq<char>, w2: Seq<char>)
    requires
        w1.len() == w2.len(),
        forall|i: int| 0 <= i < w1.len() ==> lower(#[trigger] w1[i]) == lower(w2[i]),
    ensures
        found_in(g, w1) == found_in(g, w2),
{
    if found_in(g, w1) {
        let (r, c, pt) = choose|r: int, c: int, pt: PlaceType|
            match_at(g, w1, r, c, delta_y(pt), delta_x(pt));
        assert forall|i: int|
            0 <= i < w2.len() implies #[trigger] step_ok(
            g,
            w2,
            r,
            c,
            delta_y(pt),
            delta_x(pt),
            i,
        ) by {
            assert(step_ok(g, w1, r, c, delta_y(pt), delta_x(pt), i));
            assert(lower(w1[i]) == lower(w2[i]));
        }
        assert(match_at(g, w2, r, c, delta_y(pt), delta_x(pt)));
        assert(found_in(g, w2));
    }
    if found_in(g, w2) {
        let (r, c, pt) = choose|r: int, c: int, pt: PlaceType|
            match_at(g, w2, r, c, delta_y(pt), delta_x(pt));
        assert forall|i: int|
            0 <= i < w1.len() implies #[trigger] step_ok(
            g,
            w1,
            r,
            c,
            delta_y(pt),
            delta_x(pt),
            i,
        ) by {
            assert(step_ok(g, w2, r, c, delta_y(pt), delta_x(pt), i));
            assert(lower(w2[i]) == lower(w1[i]));
        }
        assert(match_at(g, w1, r, c, delta_y(pt), delta_x(pt)));
        assert(found_in(g, w1));
    }
}

} // verus!
