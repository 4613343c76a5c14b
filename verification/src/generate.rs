//! The generator: draws dictionary words and orientations at random, finds
//! collision-free origins by bounded retry, writes the accepted words onto
//! a grid and fills the remaining cells with noise characters.

use vstd::prelude::*;

use crate::util::{
    cell_at, cell_x_at, cell_y_at, delta_x, delta_y, deltas, grid_height, grid_width, gview,
    lemma_disjoint_symmetric, rect, str_eq, to_upper, upper, words_disjoint, PlaceType, Word,
};

verus! {

/// Relies on rand's `random_range` over an inclusive byte range: the draw
/// is uniform over the range and always falls inside it.
#[verifier::external_body]
fn random_u8_inclusive(lo: u8, hi: u8) -> (r: u8)
    requires
        lo <= hi,
    ensures
        lo <= r <= hi,
{
    rand::random_range(lo..=hi)
}

/// Relies on random_word's `gen` with its English list: it returns one
/// entry of that list, which holds one dictionary word per line, so the
/// result is non-empty and contains no blank character.
#[verifier::external_body]
fn random_english_word() -> (r: String)
    ensures
        r@.len() > 0,
        forall|i: int| 0 <= i < r@.len() ==> r@[i] != ' ',
{
    random_word::gen(random_word::Lang::En).to_string()
}

/// Draws an orientation uniformly from those the flags allow: without
/// `allow_diagonal` no corner orientation comes back, without
/// `allow_reverse` the backwards orientation stays out.
pub fn random_place_type(allow_diagonal: bool, allow_reverse: bool) -> (pt: PlaceType)
    ensures
        !allow_diagonal ==> !pt.spec_is_diagonal(),
        !allow_reverse ==> !pt.spec_is_reversed(),
{
    let mut allowed: Vec<PlaceType> = Vec::new();
    allowed.push(PlaceType::RightStraight);
    allowed.push(PlaceType::UpStraight);
    allowed.push(PlaceType::DownStraight);
    if allow_reverse {
        allowed.push(PlaceType::LeftStraight);
    }
    if allow_diagonal {
        allowed.push(PlaceType::UpperLeftDiagonal);
        allowed.push(PlaceType::UpperRightDiagonal);
        allowed.push(PlaceType::LowerRightDiagonal);
        allowed.push(PlaceType::LowerLeftDiagonal);
    }
    proof {
        assert(forall|k: int|
            0 <= k < allowed@.len() ==> (!allow_diagonal ==> !(#[trigger] allowed@[k]).spec_is_diagonal())
                && (!allow_reverse ==> !allowed@[k].spec_is_reversed()));
    }
    let idx = random_u8_inclusive(0, (allowed.len() - 1) as u8);
    allowed[idx as usize]
}

/// The word can be laid out somewhere in a grid of the given dimensions
/// along the orientation: each axis the orientation moves on must hold the
/// whole word, and an axis it does not move on must exist at all.
pub open spec fn fits(pt: PlaceType, len: nat, width: u8, height: u8) -> bool {
    &&& if delta_x(pt) == 1 {
        len <= width
    } else if delta_x(pt) == -1 {
        1 <= len <= width
    } else {
        width >= 1
    }
    &&& if delta_y(pt) == 1 {
        len <= height
    } else if delta_y(pt) == -1 {
        1 <= len <= height
    } else {
        height >= 1
    }
}

/// Laying out `len` characters from `(x, y)` along `pt` would land on a
/// cell some already placed word occupies.
pub open spec fn collision_with(pt: PlaceType, x: int, y: int, len: nat, w: Word) -> bool {
    exists|i: int, j: int|
        #![trigger cell_x_at(pt, x, i), w.cell_x(j)]
        0 <= i < len && 0 <= j < w.word@.len() && cell_x_at(pt, x, i) == w.cell_x(j) && cell_y_at(
            pt,
            y,
            i,
        ) == w.cell_y(j)
}

/// Scans the cells a candidate placement would occupy against the cells of
/// every already placed word.
fn collides(pt: PlaceType, wl: u8, x: u8, y: u8, used_words: &Vec<Word>) -> (r: bool)
    requires
        forall|k: int| 0 <= k < used_words@.len() ==> (#[trigger] used_words@[k]).wf(),
        forall|i: int|
            0 <= i < wl ==> 0 <= #[trigger] cell_x_at(pt, x as int, i) <= 255 && 0 <= cell_y_at(
                pt,
                y as int,
                i,
            ) <= 255,
    ensures
        r == exists|k: int|
            0 <= k < used_words@.len() && collision_with(
                pt,
                x as int,
                y as int,
                wl as nat,
                #[trigger] used_words@[k],
            ),
{
    let mut i: u8 = 0;
    while i < wl
        invariant
            i <= wl,
            forall|k: int| 0 <= k < used_words@.len() ==> (#[trigger] used_words@[k]).wf(),
            forall|t: int|
                0 <= t < wl ==> 0 <= #[trigger] cell_x_at(pt, x as int, t) <= 255 && 0 <= cell_y_at(
                    pt,
                    y as int,
                    t,
                ) <= 255,
            forall|k: int, t: int, j: int|
                #![trigger cell_x_at(pt, x as int, t), used_words@[k].cell_x(j)]
                0 <= k < used_words@.len() && 0 <= t < i && 0 <= j < used_words@[k].word@.len()
                    ==> !(cell_x_at(pt, x as int, t) == used_words@[k].cell_x(j) && cell_y_at(
                    pt,
                    y as int,
                    t,
                ) == used_words@[k].cell_y(j)),
        decreases wl - i,
    {
        let (cx, cy) = cell_at(pt, x, y, i);
        let mut k: usize = 0;
        while k < used_words.len()
            invariant
                i < wl,
                cx == cell_x_at(pt, x as int, i as int),
                cy == cell_y_at(pt, y as int, i as int),
                k <= used_words@.len(),
                forall|kk: int| 0 <= kk < used_words@.len() ==> (#[trigger] used_words@[kk]).wf(),
                forall|kk: int, j: int|
                    #![trigger used_words@[kk].cell_x(j)]
                    0 <= kk < k && 0 <= j < used_words@[kk].word@.len() ==> !(cell_x_at(
                        pt,
                        x as int,
                        i as int,
                    ) == used_words@[kk].cell_x(j) && cell_y_at(pt, y as int, i as int)
                        == used_words@[kk].cell_y(j)),
            decreases used_words@.len() - k,
        {
            let pc = used_words[k].positions_and_chars();
            let mut j: usize = 0;
            while j < pc.len()
                invariant
                    i < wl,
                    k < used_words@.len(),
                    cx == cell_x_at(pt, x as int, i as int),
                    cy == cell_y_at(pt, y as int, i as int),
                    used_words@[k as int].wf(),
                    pc@.len() == used_words@[k as int].word@.len(),
                    forall|t: int|
                        0 <= t < pc@.len() ==> #[trigger] pc@[t] == ((
                        used_words@[k as int].cell_x(t) as u8,
                        used_words@[k as int].cell_y(t) as u8,
                    ), used_words@[k as int].word@[t]),
                    j <= pc@.len(),
                    forall|jj: int|
                        0 <= jj < j ==> !(cell_x_at(pt, x as int, i as int)
                            == #[trigger] used_words@[k as int].cell_x(jj) && cell_y_at(
                            pt,
                            y as int,
                            i as int,
                        ) == used_words@[k as int].cell_y(jj)),
                decreases pc@.len() - j,
            {
                let ((wx, wy), _ch) = pc[j];
                if wx == cx && wy == cy {
                    proof {
                        let w = used_words@[k as int];
                        assert(0 <= w.cell_x(j as int) <= 255 && 0 <= w.cell_y(j as int) <= 255);
                        assert(cell_x_at(pt, x as int, i as int) == w.cell_x(j as int)
                            && cell_y_at(pt, y as int, i as int) == w.cell_y(j as int));
                        assert(collision_with(pt, x as int, y as int, wl as nat, w));
                    }
                    return true;
                }
                proof {
                    let w = used_words@[k as int];
                    assert(0 <= w.cell_x(j as int) <= 255 && 0 <= w.cell_y(j as int) <= 255);
                }
                j = j + 1;
            }
            k = k + 1;
        }
        i = i + 1;
    }
    proof {
        assert forall|k: int|
            0 <= k < used_words@.len() implies !collision_with(
            pt,
            x as int,
            y as int,
            wl as nat,
            #[trigger] used_words@[k],
        ) by {
            if collision_with(pt, x as int, y as int, wl as nat, used_words@[k]) {
                let (i0, j0) = choose|i0: int, j0: int|
                    #![trigger cell_x_at(pt, x as int, i0), used_words@[k].cell_x(j0)]
                    0 <= i0 < wl && 0 <= j0 < used_words@[k].word@.len() && cell_x_at(
                        pt,
                        x as int,
                        i0,
                    ) == used_words@[k].cell_x(j0) && cell_y_at(pt, y as int, i0)
                        == used_words@[k].cell_y(j0);
                assert(false);
            }
        }
    }
    false
}

/// Looks for a collision-free origin for the word along the orientation by
/// bounded random retry: when the word cannot fit at all the search fails
/// at once, and any origin handed back keeps every character in bounds and
/// off the cells of every already placed word.
pub fn random_coords(
    place_type: PlaceType,
    word: &str,
    used_words: &Vec<Word>,
    width: u8,
    height: u8,
) -> (r: Option<(u8, u8)>)
    requires
        forall|k: int| 0 <= k < used_words@.len() ==> (#[trigger] used_words@[k]).wf(),
    ensures
        !fits(place_type, word@.len(), width, height) ==> r is None,
        r is Some ==> fits(place_type, word@.len(), width, height),
        fits(place_type, word@.len(), width, height) && used_words@.len() == 0 ==> r is Some,
        r matches Some((x, y)) ==> forall|i: int|
            0 <= i < word@.len() ==> 0 <= #[trigger] cell_x_at(place_type, x as int, i) < width && 0
                <= cell_y_at(place_type, y as int, i) < height,
        r matches Some((x, y)) ==> forall|k: int|
            0 <= k < used_words@.len() ==> !collision_with(
                place_type,
                x as int,
                y as int,
                word@.len(),
                #[trigger] used_words@[k],
            ),
{
    let word_len = word.unicode_len();
    let (dx, dy) = deltas(place_type);
    if dx == 1 {
        if word_len > width as usize {
            return None;
        }
    } else if dx == -1 {
        if word_len < 1 || word_len > width as usize {
            return None;
        }
    } else {
        if width == 0 {
            return None;
        }
    }
    if dy == 1 {
        if word_len > height as usize {
            return None;
        }
    } else if dy == -1 {
        if word_len < 1 || word_len > height as usize {
            return None;
        }
    } else {
        if height == 0 {
            return None;
        }
    }
    let wl = word_len as u8;
    let x_lo: u8;
    let x_hi: u8;
    if dx == 1 {
        x_lo = 0;
        x_hi = width - wl;
    } else if dx == -1 {
        x_lo = wl - 1;
        x_hi = width - 1;
    } else {
        x_lo = 0;
        x_hi = width - 1;
    }
    let y_lo: u8;
    let y_hi: u8;
    if dy == 1 {
        y_lo = 0;
        y_hi = height - wl;
    } else if dy == -1 {
        y_lo = wl - 1;
        y_hi = height - 1;
    } else {
        y_lo = 0;
        y_hi = height - 1;
    }
    let mut attempts: u32 = 0;
    while attempts < 1000
        invariant
            forall|k: int| 0 <= k < used_words@.len() ==> (#[trigger] used_words@[k]).wf(),
            wl == word@.len(),
            dx == delta_x(place_type),
            dy == delta_y(place_type),
            x_lo <= x_hi,
            y_lo <= y_hi,
            dx == 1 ==> x_lo == 0 && x_hi == width - wl,
            dx == -1 ==> wl >= 1 && x_lo == wl - 1 && x_hi == width - 1,
            dx == 0 ==> width >= 1 && x_lo == 0 && x_hi == width - 1,
            dy == 1 ==> y_lo == 0 && y_hi == height - wl,
            dy == -1 ==> wl >= 1 && y_lo == wl - 1 && y_hi == height - 1,
            dy == 0 ==> height >= 1 && y_lo == 0 && y_hi == height - 1,
            fits(place_type, word@.len(), width, height),
            used_words@.len() > 0 || attempts == 0,
        decreases 1000 - attempts,
    {
        let x = random_u8_inclusive(x_lo, x_hi);
        let y = random_u8_inclusive(y_lo, y_hi);
        proof {
            assert forall|i: int|
                0 <= i < word@.len() implies 0 <= #[trigger] cell_x_at(place_type, x as int, i)
                < width && 0 <= cell_y_at(place_type, y as int, i) < height by {
                assert(cell_x_at(place_type, x as int, i) == x + i * dx);
                assert(cell_y_at(place_type, y as int, i) == y + i * dy);
                assert(dx == -1 || dx == 0 || dx == 1);
                assert(dy == -1 || dy == 0 || dy == 1);
                assert(i * 1 == i && i * 0 == 0 && i * -1 == -i) by (nonlinear_arith);
            }
        }
        if !collides(place_type, wl, x, y, used_words) {
            return Some((x, y));
        }
        attempts = attempts + 1;
    }
    None
}

/// The character position a covering word puts at the cell `(x, y)`.
pub open spec fn word_index_at(w: Word, x: int, y: int) -> int {
    choose|i: int| 0 <= i < w.word@.len() && #[trigger] w.cell_x(i) == x && w.cell_y(i) == y
}

/// The character the placed words leave at the cell `(x, y)`: the covering
/// word listed last wins, and a cell no word covers holds nothing.
pub open spec fn grid_char_at(words: Seq<Word>, x: int, y: int) -> Option<char>
    decreases words.len(),
{
    if words.len() == 0 {
        Option::None
    } else if words.last().covers(x, y) {
        Option::Some(words.last().word@[word_index_at(words.last(), x, y)])
    } else {
        grid_char_at(words.drop_last(), x, y)
    }
}

/// A noise character: one of the lower-case letters the fill step draws.
pub open spec fn is_fill_char(c: char) -> bool {
    97 <= c as u32 <= 122
}

/// Builds a `width` by `height` grid of blank cells.
fn blank_grid(width: u8, height: u8) -> (g: Vec<Vec<char>>)
    ensures
        g@.len() == height as int,
        forall|r: int| 0 <= r < height ==> (#[trigger] gview(g@)[r]).len() == width as int,
        forall|r: int, c: int|
            0 <= r < height && 0 <= c < width ==> #[trigger] gview(g@)[r][c] == ' ',
{
    let mut g: Vec<Vec<char>> = Vec::new();
    let mut r: usize = 0;
    while r < height as usize
        invariant
            r <= height as usize,
            g@.len() == r,
            forall|rr: int| 0 <= rr < r ==> (#[trigger] gview(g@)[rr]).len() == width as int,
            forall|rr: int, c: int|
                0 <= rr < r && 0 <= c < width ==> #[trigger] gview(g@)[rr][c] == ' ',
        decreases height as usize - r,
    {
        let mut row: Vec<char> = Vec::new();
        let mut c: usize = 0;
        while c < width as usize
            invariant
                c <= width as usize,
                row@.len() == c,
                forall|cc: int| 0 <= cc < c ==> #[trigger] row@[cc] == ' ',
            decreases width as usize - c,
        {
            row.push(' ');
            c = c + 1;
        }
        let ghost prev = g@;
        let ghost rowv = row@;
        g.push(row);
        r = r + 1;
        proof {
            assert forall|rr: int|
                0 <= rr < r implies (#[trigger] gview(g@)[rr]).len() == width as int by {
                if rr < prev.len() {
                    assert(g@[rr] == prev[rr]);
                    assert(gview(prev)[rr].len() == width as int);
                } else {
                    assert(g@[rr]@ == rowv);
                }
            }
            assert forall|rr: int, c: int|
                0 <= rr < r && 0 <= c < width implies #[trigger] gview(g@)[rr][c] == ' ' by {
                if rr < prev.len() {
                    assert(g@[rr] == prev[rr]);
                    assert(gview(prev)[rr][c] == ' ');
                } else {
                    assert(g@[rr]@ == rowv);
                }
            }
        }
    }
    g
}

/// Builds the finished grid for a list of placed words: every cell some
/// word covers holds that word's character (the word listed last wins, and
/// a blank character is refilled like an empty cell), and every other cell
/// holds a random lower-case noise letter.
pub fn generate_wordsearch_with_words(words: &Vec<Word>, width: u8, height: u8) -> (g: Vec<
    Vec<char>,
>)
    requires
        forall|k: int|
            0 <= k < words@.len() ==> (#[trigger] words@[k]).in_bounds(width as int, height as int),
    ensures
        g@.len() == height as int,
        forall|r: int| 0 <= r < height ==> (#[trigger] gview(g@)[r]).len() == width as int,
        forall|xx: int, yy: int|
            0 <= xx < width && 0 <= yy < height ==> match grid_char_at(words@, xx, yy) {
                Option::Some(c) => if c == ' ' {
                    is_fill_char(#[trigger] gview(g@)[yy][xx])
                } else {
                    gview(g@)[yy][xx] == c
                },
                Option::None => is_fill_char(#[trigger] gview(g@)[yy][xx]),
            },
{
    let mut g = blank_grid(width, height);
    proof {
        assert(rect(gview(g@)));
    }
    let mut k: usize = 0;
    while k < words.len()
        invariant
            k <= words@.len(),
            forall|kk: int|
                0 <= kk < words@.len() ==> (#[trigger] words@[kk]).in_bounds(
                    width as int,
                    height as int,
                ),
            g@.len() == height as int,
            forall|r: int| 0 <= r < height ==> (#[trigger] gview(g@)[r]).len() == width as int,
            forall|xx: int, yy: int|
                0 <= xx < width && 0 <= yy < height ==> #[trigger] gview(g@)[yy][xx] == match
                    grid_char_at(words@.subrange(0, k as int), xx, yy) {
                    Option::Some(c) => c,
                    Option::None => ' ',
                },
        decreases words@.len() - k,
    {
        let w = &words[k];
        proof {
            assert(words@[k as int].in_bounds(width as int, height as int));
            assert forall|i: int|
                0 <= i < w.word@.len() implies 0 <= #[trigger] w.cell_x(i) <= 255 && 0
                <= w.cell_y(i) <= 255 by {
                assert(0 <= w.cell_x(i) < width && 0 <= w.cell_y(i) < height);
            }
            assert(rect(gview(g@)));
            assert forall|i: int|
                0 <= i < w.word@.len() implies 0 <= #[trigger] w.cell_x(i) < grid_width(gview(g@))
                && 0 <= w.cell_y(i) < grid_height(gview(g@)) by {
                assert(0 <= w.cell_x(i) < width && 0 <= w.cell_y(i) < height);
            }
        }
        let ghost prev = g@;
        w.apply(&mut g);
        k = k + 1;
        proof {
            let sub = words@.subrange(0, k as int);
            assert(sub.drop_last() =~= words@.subrange(0, k - 1));
            assert(sub.last() == words@[k - 1]);
            assert forall|xx: int, yy: int|
                0 <= xx < width && 0 <= yy < height implies #[trigger] gview(g@)[yy][xx] == match
                grid_char_at(sub, xx, yy) {
                Option::Some(c) => c,
                Option::None => ' ',
            } by {
                let lw = words@[k - 1];
                if lw.covers(xx, yy) {
                    let i = word_index_at(lw, xx, yy);
                    assert(0 <= i < lw.word@.len() && lw.cell_x(i) == xx && lw.cell_y(i) == yy);
                    assert(gview(g@)[lw.cell_y(i)][lw.cell_x(i)] == lw.word@[i]);
                } else {
                    assert(gview(g@)[yy][xx] == gview(prev)[yy][xx]);
                }
            }
        }
    }
    proof {
        assert(words@.subrange(0, words@.len() as int) =~= words@);
    }
    fill_empty(&mut g);
    g
}

/// Replaces every blank cell with a random lower-case letter and leaves
/// every other cell as it stands.
pub fn fill_empty(ws: &mut Vec<Vec<char>>)
    ensures
        final (ws)@.len() == old(ws)@.len(),
        forall|r: int|
            0 <= r < old(ws)@.len() ==> (#[trigger] gview(final (ws)@)[r]).len() == gview(
                old(ws)@,
            )[r].len(),
        forall|r: int, c: int|
            0 <= r < old(ws)@.len() && 0 <= c < gview(old(ws)@)[r].len() ==> if gview(
                old(ws)@,
            )[r][c] == ' ' {
                is_fill_char(#[trigger] gview(final (ws)@)[r][c])
            } else {
                gview(final (ws)@)[r][c] == gview(old(ws)@)[r][c]
            },
{
    let mut r: usize = 0;
    while r < ws.len()
        invariant
            r <= ws@.len(),
            ws@.len() == old(ws)@.len(),
            forall|rr: int|
                0 <= rr < old(ws)@.len() ==> (#[trigger] gview(ws@)[rr]).len() == gview(
                    old(ws)@,
                )[rr].len(),
            forall|rr: int, c: int|
                0 <= rr < r && 0 <= c < gview(old(ws)@)[rr].len() ==> if gview(old(ws)@)[rr][c]
                    == ' ' {
                    is_fill_char(#[trigger] gview(ws@)[rr][c])
                } else {
                    gview(ws@)[rr][c] == gview(old(ws)@)[rr][c]
                },
            forall|rr: int, c: int|
                r <= rr < old(ws)@.len() && 0 <= c < gview(old(ws)@)[rr].len()
                    ==> #[trigger] gview(ws@)[rr][c] == gview(old(ws)@)[rr][c],
        decreases ws@.len() - r,
    {
        let cols = ws[r].len();
        proof {
            assert(cols == gview(ws@)[r as int].len());
            assert(gview(ws@)[r as int].len() == gview(old(ws)@)[r as int].len());
        }
        let mut c: usize = 0;
        while c < cols
            invariant
                r < ws@.len(),
                ws@.len() == old(ws)@.len(),
                cols == gview(old(ws)@)[r as int].len(),
                c <= cols,
                forall|rr: int|
                    0 <= rr < old(ws)@.len() ==> (#[trigger] gview(ws@)[rr]).len() == gview(
                        old(ws)@,
                    )[rr].len(),
                forall|rr: int, cc: int|
                    0 <= rr < r && 0 <= cc < gview(old(ws)@)[rr].len() ==> if gview(
                        old(ws)@,
                    )[rr][cc] == ' ' {
                        is_fill_char(#[trigger] gview(ws@)[rr][cc])
                    } else {
                        gview(ws@)[rr][cc] == gview(old(ws)@)[rr][cc]
                    },
                forall|cc: int|
                    0 <= cc < c ==> if gview(old(ws)@)[r as int][cc] == ' ' {
                        is_fill_char(#[trigger] gview(ws@)[r as int][cc])
                    } else {
                        gview(ws@)[r as int][cc] == gview(old(ws)@)[r as int][cc]
                    },
                forall|cc: int|
                    c <= cc < gview(old(ws)@)[r as int].len() ==> #[trigger] gview(
                        ws@,
                    )[r as int][cc] == gview(old(ws)@)[r as int][cc],
                forall|rr: int, cc: int|
                    r < rr < old(ws)@.len() && 0 <= cc < gview(old(ws)@)[rr].len()
                        ==> #[trigger] gview(ws@)[rr][cc] == gview(old(ws)@)[rr][cc],
            decreases cols - c,
        {
            proof {
                assert(gview(ws@)[r as int].len() == gview(old(ws)@)[r as int].len());
                assert((c as int) < ws@[r as int]@.len());
            }
            let cur = ws[r][c];
            let ghost prev = ws@;
            if cur == ' ' {
                let v = random_u8_inclusive(0, 25);
                ws[r][c] = (97 + v) as char;
            }
            proof {
                if gview(prev)[r as int][c as int] == ' ' {
                    assert(is_fill_char(gview(ws@)[r as int][c as int]));
                } else {
                    assert(ws@ == prev);
                }
                assert forall|rr: int, cc: int|
                    0 <= rr < old(ws)@.len() && 0 <= cc < gview(old(ws)@)[rr].len() && !(rr
                        == r as int && cc == c as int) implies #[trigger] gview(ws@)[rr][cc]
                    == gview(prev)[rr][cc] by {
                    if rr != r as int {
                        assert(ws@[rr] == prev[rr]);
                    } else {
                        assert(ws@[rr]@[cc] == prev[rr]@[cc]);
                    }
                }
                assert forall|rr: int|
                    0 <= rr < old(ws)@.len() implies (#[trigger] gview(ws@)[rr]).len() == gview(
                    old(ws)@,
                )[rr].len() by {
                    if rr != r as int {
                        assert(ws@[rr] == prev[rr]);
                    }
                    assert(gview(prev)[rr].len() == gview(old(ws)@)[rr].len());
                }
            }
            c = c + 1;
        }
        r = r + 1;
    }
}

/// Relies on `String::push`: it appends exactly one character at the end.
#[verifier::external_body]
fn push_char(s: &mut String, c: char)
    ensures
        final (s)@ == old(s)@.push(c),
{
    s.push(c)
}

/// One grid row as displayed: its characters upper-cased and separated by
/// single blanks.
pub open spec fn render_row(row: Seq<char>) -> Seq<char>
    decreases row.len(),
{
    if row.len() == 0 {
        Seq::empty()
    } else if row.len() == 1 {
        seq![upper(row[0])]
    } else {
        render_row(row.drop_last()) + seq![' ', upper(row.last())]
    }
}

/// The whole grid as displayed: the rendered rows joined by a semicolon and
/// a line break.
pub open spec fn render_grid_spec(g: Seq<Seq<char>>) -> Seq<char>
    decreases g.len(),
{
    if g.len() == 0 {
        Seq::empty()
    } else if g.len() == 1 {
        render_row(g[0])
    } else {
        render_grid_spec(g.drop_last()) + seq![';', '\n'] + render_row(g.last())
    }
}

/// Renders the grid for display: characters upper-cased, cells of a row
/// separated by blanks, rows separated by a semicolon and a line break.
pub fn render_grid(ws: &Vec<Vec<char>>) -> (s: String)
    ensures
        s@ == render_grid_spec(gview(ws@)),
{
    let mut s = String::new();
    let mut r: usize = 0;
    while r < ws.len()
        invariant
            r <= ws@.len(),
            s@ == render_grid_spec(gview(ws@).subrange(0, r as int)),
        decreases ws@.len() - r,
    {
        if r > 0 {
            push_char(&mut s, ';');
            push_char(&mut s, '\n');
        }
        let ghost sep = if r > 0 {
            seq![';', '\n']
        } else {
            Seq::<char>::empty()
        };
        proof {
            assert(s@ =~= render_grid_spec(gview(ws@).subrange(0, r as int)) + sep);
            assert(render_row(gview(ws@)[r as int].subrange(0, 0)) =~= Seq::<char>::empty());
        }
        let cols = ws[r].len();
        let mut c: usize = 0;
        while c < cols
            invariant
                r < ws@.len(),
                c <= cols,
                cols == gview(ws@)[r as int].len(),
                sep == if r > 0 {
                    seq![';', '\n']
                } else {
                    Seq::<char>::empty()
                },
                s@ == render_grid_spec(gview(ws@).subrange(0, r as int)) + sep + render_row(
                    gview(ws@)[r as int].subrange(0, c as int),
                ),
            decreases cols - c,
        {
            if c > 0 {
                push_char(&mut s, ' ');
            }
            let ch = to_upper(ws[r][c]);
            push_char(&mut s, ch);
            proof {
                let row = gview(ws@)[r as int];
                assert(row.subrange(0, c + 1).drop_last() =~= row.subrange(0, c as int));
                assert(row.subrange(0, c + 1).last() == row[c as int]);
                if c == 0 {
                    assert(render_row(row.subrange(0, 1)) =~= seq![upper(row[0])]);
                }
                assert(s@ =~= render_grid_spec(gview(ws@).subrange(0, r as int)) + sep
                    + render_row(row.subrange(0, c + 1)));
            }
            c = c + 1;
        }
        r = r + 1;
        proof {
            let g = gview(ws@);
            let row = g[r - 1];
            assert(row.subrange(0, row.len() as int) =~= row);
            assert(g.subrange(0, r as int).drop_last() =~= g.subrange(0, r - 1));
            assert(g.subrange(0, r as int).last() == row);
            if r == 1 {
                assert(g.subrange(0, 1)[0] == row);
            }
            assert(s@ =~= render_grid_spec(g.subrange(0, r as int)));
        }
    }
    proof {
        assert(gview(ws@).subrange(0, ws@.len() as int) =~= gview(ws@));
    }
    s
}

/// Whether one of the already placed words carries exactly this text.
fn contains_word(used_words: &Vec<Word>, w: &str) -> (r: bool)
    ensures
        r == exists|k: int| 0 <= k < used_words@.len() && (#[trigger] used_words@[k]).word@ == w@,
{
    let mut k: usize = 0;
    while k < used_words.len()
        invariant
            k <= used_words@.len(),
            forall|t: int| 0 <= t < k ==> (#[trigger] used_words@[t]).word@ != w@,
        decreases used_words@.len() - k,
    {
        if str_eq(used_words[k].word.as_str(), w) {
            return true;
        }
        k = k + 1;
    }
    false
}

/// The density factor of the word-count heuristic, in hundredths, chosen by
/// the grid area.
pub open spec fn density_hundredths(area: int) -> int {
    if area < 100 {
        2
    } else if area < 300 {
        3
    } else {
        4
    }
}

/// The most words one generation run attempts to place: the ceiling of area
/// times density, saturated at the byte maximum.
pub open spec fn max_word_target(width: u8, height: u8) -> int {
    let n = (width as int) * (height as int) * density_hundredths(
        (width as int) * (height as int),
    );
    if (n + 99) / 100 > 255 {
        255
    } else {
        (n + 99) / 100
    }
}

/// The fewest words one generation run attempts to place: half the most
/// before rounding, rounded up, saturated at the byte maximum.
pub open spec fn min_word_target(width: u8, height: u8) -> int {
    let n = (width as int) * (height as int) * density_hundredths(
        (width as int) * (height as int),
    );
    if (n + 199) / 200 > 255 {
        255
    } else {
        (n + 199) / 200
    }
}

/// Everything one generation run produces: the finished grid, the words
/// that found a place on it, and how many draws could not be placed.
pub struct GeneratedPuzzle {
    pub grid: Vec<Vec<char>>,
    pub words: Vec<Word>,
    pub failed_placements: u32,
}

/// Generates a word-search puzzle: picks a word count from the grid area by
/// the density heuristic, draws that many distinct dictionary words with
/// orientations the flags allow, places each by bounded random retry, and
/// materializes the grid. Every placed word lies fully on the grid, no two
/// placed words share a cell, no two carry the same text, and the grid
/// holds each placed word's characters with noise letters elsewhere.
pub fn generate(allow_diagonal: bool, allow_reverse: bool, width: u8, height: u8) -> (res:
    GeneratedPuzzle)
    ensures
        res.grid@.len() == height as int,
        forall|r: int| 0 <= r < height ==> (#[trigger] gview(res.grid@)[r]).len() == width as int,
        forall|k: int|
            0 <= k < res.words@.len() ==> (#[trigger] res.words@[k]).in_bounds(
                width as int,
                height as int,
            ),
        forall|k1: int, k2: int|
            0 <= k1 < k2 < res.words@.len() ==> words_disjoint(
                #[trigger] res.words@[k1],
                #[trigger] res.words@[k2],
            ),
        forall|k1: int, k2: int|
            0 <= k1 < k2 < res.words@.len() ==> (#[trigger] res.words@[k1]).word@
                != (#[trigger] res.words@[k2]).word@,
        forall|k: int|
            0 <= k < res.words@.len() ==> (!allow_diagonal ==> !(#[trigger] res.words@[k]).place_type.spec_is_diagonal())
                && (!allow_reverse ==> !res.words@[k].place_type.spec_is_reversed()),
        forall|xx: int, yy: int|
            0 <= xx < width && 0 <= yy < height ==> match grid_char_at(res.words@, xx, yy) {
                Option::Some(c) => if c == ' ' {
                    is_fill_char(#[trigger] gview(res.grid@)[yy][xx])
                } else {
                    gview(res.grid@)[yy][xx] == c
                },
                Option::None => is_fill_char(#[trigger] gview(res.grid@)[yy][xx]),
            },
        min_word_target(width, height) <= res.words@.len() + res.failed_placements
            <= max_word_target(width, height),
        forall|k: int| 0 <= k < res.words@.len() ==> (#[trigger] res.words@[k]).word@.len() > 0,
        forall|k: int, i: int|
            #![trigger res.words@[k].word@[i]]
            0 <= k < res.words@.len() && 0 <= i < res.words@[k].word@.len() ==> res.words@[k].word@[i]
                != ' ',
{
    proof {
        assert((width as int) * (height as int) <= 65025) by (nonlinear_arith)
            requires
                width <= 255,
                height <= 255,
        ;
    }
    let area: u32 = (width as u32) * (height as u32);
    let d: u32 = if area < 100 {
        2
    } else if area < 300 {
        3
    } else {
        4
    };
    proof {
        assert((area as int) * (d as int) <= 260100) by (nonlinear_arith)
            requires
                area <= 65025,
                d <= 4,
        ;
    }
    let max_words: u32 = (area * d + 99) / 100;
    let min_words: u32 = (area * d + 199) / 200;
    proof {
        assert(min_words <= max_words) by (nonlinear_arith)
            requires
                max_words == (area * d + 99) / 100,
                min_words == (area * d + 199) / 200,
                area * d >= 0,
        ;
    }
    let min8: u8 = if min_words > 255 {
        255
    } else {
        min_words as u8
    };
    let max8: u8 = if max_words > 255 {
        255
    } else {
        max_words as u8
    };
    proof {
        assert(area as int == (width as int) * (height as int));
        assert(d as int == density_hundredths(area as int));
        assert(min8 as int == min_word_target(width, height));
        assert(max8 as int == max_word_target(width, height));
    }
    let word_amount = random_u8_inclusive(min8, max8);
    let mut used_words: Vec<Word> = Vec::new();
    let mut failed_placements: u32 = 0;
    let mut attempt: u8 = 0;
    while attempt < word_amount
        invariant
            attempt <= word_amount,
            used_words@.len() + failed_placements == attempt,
            forall|k: int|
                0 <= k < used_words@.len() ==> (#[trigger] used_words@[k]).in_bounds(
                    width as int,
                    height as int,
                ),
            forall|k: int| 0 <= k < used_words@.len() ==> (#[trigger] used_words@[k]).wf(),
            forall|k1: int, k2: int|
                0 <= k1 < k2 < used_words@.len() ==> words_disjoint(
                    #[trigger] used_words@[k1],
                    #[trigger] used_words@[k2],
                ),
            forall|k1: int, k2: int|
                0 <= k1 < k2 < used_words@.len() ==> (#[trigger] used_words@[k1]).word@
                    != (#[trigger] used_words@[k2]).word@,
            forall|k: int|
                0 <= k < used_words@.len() ==> (!allow_diagonal ==> !(
                #[trigger] used_words@[k]).place_type.spec_is_diagonal()) && (!allow_reverse
                    ==> !used_words@[k].place_type.spec_is_reversed()),
            forall|k: int| 0 <= k < used_words@.len() ==> (#[trigger] used_words@[k]).word@.len() > 0,
            forall|k: int, i: int|
                #![trigger used_words@[k].word@[i]]
                0 <= k < used_words@.len() && 0 <= i < used_words@[k].word@.len()
                    ==> used_words@[k].word@[i] != ' ',
        decreases word_amount - attempt,
    {
        let mut word = random_english_word();
        let mut dup = contains_word(&used_words, word.as_str());
        let mut tries: u32 = 0;
        while dup && tries < 1000
            invariant
                dup == exists|k: int|
                    0 <= k < used_words@.len() && (#[trigger] used_words@[k]).word@ == word@,
                tries <= 1000,
                word@.len() > 0,
                forall|i: int| 0 <= i < word@.len() ==> word@[i] != ' ',
            decreases 1000 - tries,
        {
            word = random_english_word();
            dup = contains_word(&used_words, word.as_str());
            tries = tries + 1;
        }
        if dup {
            failed_placements = failed_placements + 1;
        } else {
            let place_type = random_place_type(allow_diagonal, allow_reverse);
            match random_coords(place_type, word.as_str(), &used_words, width, height) {
                Option::Some((x, y)) => {
                    let w = Word { place_type, word, x, y };
                    let ghost prev = used_words@;
                    proof {
                        assert forall|i: int|
                            0 <= i < w.word@.len() implies 0 <= #[trigger] w.cell_x(i)
                            < width as int && 0 <= w.cell_y(i) < height as int by {
                            assert(w.cell_x(i) == cell_x_at(place_type, x as int, i));
                            assert(0 <= cell_x_at(place_type, x as int, i) < width);
                            assert(0 <= cell_y_at(place_type, y as int, i) < height);
                        }
                        assert forall|k: int|
                            0 <= k < prev.len() implies words_disjoint(
                            #[trigger] prev[k],
                            w,
                        ) by {
                            assert(!collision_with(place_type, x as int, y as int, w.word@.len(), prev[k]));
                            assert forall|i: int, j: int|
                                0 <= i < w.word@.len() && 0 <= j < prev[k].word@.len() implies !(
                                #[trigger] w.cell_x(i) == #[trigger] prev[k].cell_x(j) && w.cell_y(
                                    i,
                                ) == prev[k].cell_y(j)) by {
                                assert(w.cell_x(i) == cell_x_at(place_type, x as int, i));
                                assert(w.cell_y(i) == cell_y_at(place_type, y as int, i));
                                if w.cell_x(i) == prev[k].cell_x(j) && w.cell_y(i) == prev[k].cell_y(
                                    j,
                                ) {
                                    assert(collision_with(
                                        place_type,
                                        x as int,
                                        y as int,
                                        w.word@.len(),
                                        prev[k],
                                    ));
                                }
                            }
                            lemma_disjoint_symmetric(w, prev[k]);
                        }
                    }
                    used_words.push(w);
                },
                Option::None => {
                    failed_placements = failed_placements + 1;
                },
            }
        }
        attempt = attempt + 1;
    }
    let grid = generate_wordsearch_with_words(&used_words, width, height);
    GeneratedPuzzle { grid, words: used_words, failed_placements }
}

} // verus!
