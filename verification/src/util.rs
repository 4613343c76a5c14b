//! The direction model and the placed-word data type shared by the solver
//! and the generator: the eight orientations with their unit deltas, the
//! cells a placed word occupies, and case-insensitive character matching.

use vstd::prelude::*;

verus! {

/// One of the eight orientations a word can be placed or searched along.
#[derive(Clone, Copy, Debug, PartialEq, Eq, Structural)]
pub enum PlaceType {
    UpperLeftDiagonal,
    UpperRightDiagonal,
    LowerRightDiagonal,
    LowerLeftDiagonal,
    RightStraight,
    UpStraight,
    LeftStraight,
    DownStraight,
}

/// The column step of an orientation: -1, 0 or 1.
pub open spec fn delta_x(pt: PlaceType) -> int {
    match pt {
        PlaceType::UpperLeftDiagonal => -1,
        PlaceType::UpperRightDiagonal => 1,
        PlaceType::LowerRightDiagonal => 1,
        PlaceType::LowerLeftDiagonal => -1,
        PlaceType::RightStraight => 1,
        PlaceType::UpStraight => 0,
        PlaceType::LeftStraight => -1,
        PlaceType::DownStraight => 0,
    }
}

/// The row step of an orientation: -1, 0 or 1.
pub open spec fn delta_y(pt: PlaceType) -> int {
    match pt {
        PlaceType::UpperLeftDiagonal => -1,
        PlaceType::UpperRightDiagonal => -1,
        PlaceType::LowerRightDiagonal => 1,
        PlaceType::LowerLeftDiagonal => 1,
        PlaceType::RightStraight => 0,
        PlaceType::UpStraight => -1,
        PlaceType::LeftStraight => 0,
        PlaceType::DownStraight => 1,
    }
}

/// The column of the `i`-th character of a word placed at column `x`
/// along orientation `pt`.
pub open spec fn cell_x_at(pt: PlaceType, x: int, i: int) -> int {
    x + i * delta_x(pt)
}

/// The row of the `i`-th character of a word placed at row `y`
/// along orientation `pt`.
pub open spec fn cell_y_at(pt: PlaceType, y: int, i: int) -> int {
    y + i * delta_y(pt)
}

impl PlaceType {
    pub open spec fn spec_is_vertical(self) -> bool {
        self == PlaceType::UpStraight || self == PlaceType::DownStraight
    }

    pub open spec fn spec_is_horizontal(self) -> bool {
        self == PlaceType::RightStraight || self == PlaceType::LeftStraight
    }

    pub open spec fn spec_is_diagonal(self) -> bool {
        self == PlaceType::UpperLeftDiagonal || self == PlaceType::UpperRightDiagonal
            || self == PlaceType::LowerRightDiagonal || self == PlaceType::LowerLeftDiagonal
    }

    pub open spec fn spec_is_reversed(self) -> bool {
        self == PlaceType::LeftStraight
    }

    /// Whether the orientation runs straight up or down.
    pub fn is_vertical(&self) -> (r: bool)
        ensures
            r == self.spec_is_vertical(),
    {
        match self {
            PlaceType::UpStraight => true,
            PlaceType::DownStraight => true,
            _ => false,
        }
    }

    /// Whether the orientation runs straight left or right.
    pub fn is_horizontal(&self) -> (r: bool)
        ensures
            r == self.spec_is_horizontal(),
    {
        match self {
            PlaceType::RightStraight => true,
            PlaceType::LeftStraight => true,
            _ => false,
        }
    }

    /// Whether the orientation is one of the four corner diagonals.
    pub fn is_diagonal(&self) -> (r: bool)
        ensures
            r == self.spec_is_diagonal(),
    {
        match self {
            PlaceType::UpperLeftDiagonal => true,
            PlaceType::UpperRightDiagonal => true,
            PlaceType::LowerRightDiagonal => true,
            PlaceType::LowerLeftDiagonal => true,
            _ => false,
        }
    }

    /// Whether the orientation lays the word out backwards on the row.
    pub fn is_reversed(&self) -> (r: bool)
        ensures
            r == self.spec_is_reversed(),
    {
        match self {
            PlaceType::LeftStraight => true,
            _ => false,
        }
    }
}

/// The unit step of an orientation as a `(column, row)` pair.
pub fn deltas(pt: PlaceType) -> (d: (i32, i32))
    ensures
        d.0 == delta_x(pt),
        d.1 == delta_y(pt),
{
    match pt {
        PlaceType::UpperLeftDiagonal => (-1, -1),
        PlaceType::UpperRightDiagonal => (1, -1),
        PlaceType::LowerRightDiagonal => (1, 1),
        PlaceType::LowerLeftDiagonal => (-1, 1),
        PlaceType::RightStraight => (1, 0),
        PlaceType::UpStraight => (0, -1),
        PlaceType::LeftStraight => (-1, 0),
        PlaceType::DownStraight => (0, 1),
    }
}

/// The mathematical contents of a character grid held as a vector of rows.
pub open spec fn gview(g: Seq<Vec<char>>) -> Seq<Seq<char>> {
    Seq::new(g.len(), |i: int| g[i]@)
}

/// A rectangular grid: every row is as long as the first.
pub open spec fn rect(grid: Seq<Seq<char>>) -> bool {
    forall|i: int| 0 <= i < grid.len() ==> #[trigger] grid[i].len() == grid[0].len()
}

/// The number of columns of a grid, taken from its first row.
pub open spec fn grid_width(grid: Seq<Seq<char>>) -> int {
    if grid.len() == 0 {
        0
    } else {
        grid[0].len() as int
    }
}

/// The number of rows of a grid.
pub open spec fn grid_height(grid: Seq<Seq<char>>) -> int {
    grid.len() as int
}

/// The case-folded form of a character: an ASCII upper-case letter is
/// mapped to its lower-case counterpart, every other character stays.
pub open spec fn lower(c: char) -> char {
    if 65 <= c as u32 && c as u32 <= 90 {
        ((c as u32 + 32) as u8) as char
    } else {
        c
    }
}

/// Case-folds one character, the executable counterpart of `lower`.
pub fn to_lower(c: char) -> (r: char)
    ensures
        r == lower(c),
{
    let u = c as u32;
    if 65 <= u && u <= 90 {
        ((u + 32) as u8) as char
    } else {
        c
    }
}

/// The ASCII upper-case form of a character: a lower-case letter is mapped
/// to its upper-case counterpart, every other character stays.
pub open spec fn upper(c: char) -> char {
    if 97 <= c as u32 && c as u32 <= 122 {
        ((c as u32 - 32) as u8) as char
    } else {
        c
    }
}

/// Upper-cases one character, the executable counterpart of `upper`.
pub fn to_upper(c: char) -> (r: char)
    ensures
        r == upper(c),
{
    let u = c as u32;
    if 97 <= u && u <= 122 {
        ((u - 32) as u8) as char
    } else {
        c
    }
}

/// A word accepted onto the grid: its orientation, its text, and the
/// coordinates of its first character.
#[derive(Clone, Debug)]
pub struct Word {
    pub place_type: PlaceType,
    pub word: String,
    pub x: u8,
    pub y: u8,
}

impl Word {
    /// The column of the word's `i`-th character.
    pub open spec fn cell_x(self, i: int) -> int {
        cell_x_at(self.place_type, self.x as int, i)
    }

    /// The row of the word's `i`-th character.
    pub open spec fn cell_y(self, i: int) -> int {
        cell_y_at(self.place_type, self.y as int, i)
    }

    /// Every occupied cell has coordinates that fit a byte, so walking the
    /// word never steps outside the 0..=255 coordinate range.
    pub open spec fn wf(self) -> bool {
        forall|i: int|
            0 <= i < self.word@.len() ==> 0 <= #[trigger] self.cell_x(i) <= 255 && 0 <= self.cell_y(
                i,
            ) <= 255
    }

    /// Every occupied cell lies inside a grid of the given dimensions.
    pub open spec fn in_bounds(self, width: int, height: int) -> bool {
        forall|i: int|
            0 <= i < self.word@.len() ==> 0 <= #[trigger] self.cell_x(i) < width && 0
                <= self.cell_y(i) < height
    }

    /// Whether the word occupies the cell at column `x`, row `y`.
    pub open spec fn covers(self, x: int, y: int) -> bool {
        exists|i: int|
            0 <= i < self.word@.len() && #[trigger] self.cell_x(i) == x && self.cell_y(i) == y
    }

    /// Whether one of the first `n` characters occupies the cell at `(x, y)`.
    pub open spec fn covers_upto(self, n: int, x: int, y: int) -> bool {
        exists|i: int|
            0 <= i < n && i < self.word@.len() && #[trigger] self.cell_x(i) == x && self.cell_y(i)
                == y
    }
}

/// Two placed words occupy disjoint sets of grid cells.
pub open spec fn words_disjoint(a: Word, b: Word) -> bool {
    forall|i: int, j: int|
        0 <= i < a.word@.len() && 0 <= j < b.word@.len() ==> !(#[trigger] a.cell_x(i)
            == #[trigger] b.cell_x(j) && a.cell_y(i) == b.cell_y(j))
}

/// Cell disjointness of two placed words does not depend on their order.
pub proof fn lemma_disjoint_symmetric(a: Word, b: Word)
    requires
        words_disjoint(a, b),
    ensures
        words_disjoint(b, a),
{
    assert forall|i: int, j: int|
        0 <= i < b.word@.len() && 0 <= j < a.word@.len() implies !(#[trigger] b.cell_x(i)
        == #[trigger] a.cell_x(j) && b.cell_y(i) == a.cell_y(j)) by {
        assert(!(a.cell_x(j) == b.cell_x(i) && a.cell_y(j) == b.cell_y(i)));
    }
}

/// Compares two string slices character by character.
pub fn str_eq(a: &str, b: &str) -> (r: bool)
    ensures
        r == (a@ == b@),
{
    let la = a.unicode_len();
    let lb = b.unicode_len();
    if la != lb {
        return false;
    }
    let mut i: usize = 0;
    while i < la
        invariant
            i <= la,
            la == a@.len(),
            la == b@.len(),
            forall|k: int| 0 <= k < i ==> a@[k] == b@[k],
        decreases la - i,
    {
        if a.get_char(i) != b.get_char(i) {
            return false;
        }
        i = i + 1;
    }
    proof {
        assert(a@ =~= b@);
    }
    true
}

/// Collects the characters of a string slice into a vector.
pub fn str_chars(s: &str) -> (r: Vec<char>)
    ensures
        r@ == s@,
{
    let len = s.unicode_len();
    let mut r: Vec<char> = Vec::new();
    let mut i: usize = 0;
    while i < len
        invariant
            i <= len,
            len == s@.len(),
            r@ == s@.subrange(0, i as int),
        decreases len - i,
    {
        r.push(s.get_char(i));
        i = i + 1;
        proof {
            assert(r@ =~= s@.subrange(0, i as int));
        }
    }
    proof {
        assert(r@ =~= s@);
    }
    r
}

/// The cell occupied by the `i`-th character of a word placed at `(x, y)`
/// along orientation `pt`.
pub fn cell_at(pt: PlaceType, x: u8, y: u8, i: u8) -> (r: (u8, u8))
    requires
        0 <= cell_x_at(pt, x as int, i as int) <= 255,
        0 <= cell_y_at(pt, y as int, i as int) <= 255,
    ensures
        r.0 == cell_x_at(pt, x as int, i as int),
        r.1 == cell_y_at(pt, y as int, i as int),
{
    match pt {
        PlaceType::UpperLeftDiagonal => (x - i, y - i),
        PlaceType::UpperRightDiagonal => (x + i, y - i),
        PlaceType::LowerRightDiagonal => (x + i, y + i),
        PlaceType::LowerLeftDiagonal => (x - i, y + i),
        PlaceType::RightStraight => (x + i, y),
        PlaceType::UpStraight => (x, y - i),
        PlaceType::LeftStraight => (x - i, y),
        PlaceType::DownStraight => (x, y + i),
    }
}

/// A word whose cells all fit the byte coordinate range has at most 256
/// characters: the walk moves one step per character on some axis.
pub proof fn lemma_wf_len(w: Word)
    requires
        w.wf(),
    ensures
        w.word@.len() <= 256,
{
    if w.word@.len() > 256 {
        assert(0 <= w.cell_x(256) <= 255 && 0 <= w.cell_y(256) <= 255);
        assert(false);
    }
}

impl Word {
    /// The cells the word occupies, in character order, each paired with
    /// the character written there.
    pub fn positions_and_chars(&self) -> (r: Vec<((u8, u8), char)>)
        requires
            self.wf(),
        ensures
            r@.len() == self.word@.len(),
            forall|i: int|
                0 <= i < r@.len() ==> #[trigger] r@[i] == ((
                self.cell_x(i) as u8,
                self.cell_y(i) as u8,
            ), self.word@[i]),
    {
        proof {
            lemma_wf_len(*self);
        }
        let chars = str_chars(self.word.as_str());
        let mut r: Vec<((u8, u8), char)> = Vec::new();
        let mut i: usize = 0;
        while i < chars.len()
            invariant
                self.wf(),
                i <= chars.len(),
                chars@ == self.word@,
                chars@.len() <= 256,
                r@.len() == i,
                forall|k: int|
                    0 <= k < i ==> #[trigger] r@[k] == ((
                    self.cell_x(k) as u8,
                    self.cell_y(k) as u8,
                ), self.word@[k]),
            decreases chars.len() - i,
        {
            proof {
                assert(0 <= self.cell_x(i as int) <= 255 && 0 <= self.cell_y(i as int) <= 255);
            }
            let cell = cell_at(self.place_type, self.x, self.y, i as u8);
            r.push((cell, chars[i]));
            i = i + 1;
        }
        r
    }
}

impl Word {
    /// Writes the word's characters onto the grid cells it occupies;
    /// every other cell keeps its character.
    pub fn apply(&self, ws: &mut Vec<Vec<char>>)
        requires
            self.wf(),
            rect(gview(old(ws)@)),
            self.in_bounds(grid_width(gview(old(ws)@)), grid_height(gview(old(ws)@))),
        ensures
            final (ws)@.len() == old(ws)@.len(),
            forall|r: int|
                0 <= r < old(ws)@.len() ==> #[trigger] gview(final (ws)@)[r].len() == gview(
                    old(ws)@,
                )[r].len(),
            forall|i: int|
                0 <= i < self.word@.len() ==> #[trigger] gview(final (ws)@)[self.cell_y(
                    i,
                )][self.cell_x(i)] == self.word@[i],
            forall|xx: int, yy: int|
                0 <= yy < old(ws)@.len() && 0 <= xx < gview(old(ws)@)[yy].len() && !self.covers(
                    xx,
                    yy,
                ) ==> #[trigger] gview(final (ws)@)[yy][xx] == gview(old(ws)@)[yy][xx],
    {
        let pc = self.positions_and_chars();
        let mut k: usize = 0;
        while k < pc.len()
            invariant
                self.wf(),
                rect(gview(old(ws)@)),
                self.in_bounds(grid_width(gview(old(ws)@)), grid_height(gview(old(ws)@))),
                pc@.len() == self.word@.len(),
                forall|i: int|
                    0 <= i < pc@.len() ==> #[trigger] pc@[i] == ((
                    self.cell_x(i) as u8,
                    self.cell_y(i) as u8,
                ), self.word@[i]),
                k <= pc@.len(),
                ws@.len() == old(ws)@.len(),
                forall|r: int|
                    0 <= r < old(ws)@.len() ==> #[trigger] gview(ws@)[r].len() == gview(
                        old(ws)@,
                    )[r].len(),
                forall|i: int|
                    0 <= i < k ==> #[trigger] gview(ws@)[self.cell_y(i)][self.cell_x(i)]
                        == self.word@[i],
                forall|xx: int, yy: int|
                    0 <= yy < old(ws)@.len() && 0 <= xx < gview(old(ws)@)[yy].len()
                        && !self.covers_upto(k as int, xx, yy) ==> #[trigger] gview(ws@)[yy][xx]
                        == gview(old(ws)@)[yy][xx],
            decreases pc@.len() - k,
        {
            let ((cx, cy), ch) = pc[k];
            let ghost prev = ws@;
            proof {
                assert(0 <= self.cell_x(k as int) <= 255 && 0 <= self.cell_y(k as int) <= 255);
                assert(0 <= self.cell_x(k as int) < grid_width(gview(old(ws)@)) && 0
                    <= self.cell_y(k as int) < grid_height(gview(old(ws)@)));
                assert((cy as usize) < ws@.len());
                assert(gview(ws@)[cy as int].len() == gview(old(ws)@)[cy as int].len());
                assert((cx as usize) < ws@[cy as int]@.len());
            }
            ws[cy as usize][cx as usize] = ch;
            k = k + 1;
            proof {
                assert(ws@ =~= prev.update(cy as int, ws@[cy as int]));
                assert(ws@[cy as int]@ =~= prev[cy as int]@.update(cx as int, ch));
                assert forall|i: int|
                    0 <= i < k implies #[trigger] gview(ws@)[self.cell_y(i)][self.cell_x(i)]
                    == self.word@[i] by {
                    assert(0 <= self.cell_x(i) <= 255 && 0 <= self.cell_y(i) <= 255);
                    assert(0 <= self.cell_x(i) < grid_width(gview(old(ws)@)) && 0 <= self.cell_y(
                        i,
                    ) < grid_height(gview(old(ws)@)));
                    if i < k - 1 {
                        assert(gview(prev)[self.cell_y(i)][self.cell_x(i)] == self.word@[i]);
                        lemma_cells_distinct(*self, i, k - 1);
                        assert(gview(ws@)[self.cell_y(i)] == ws@[self.cell_y(i)]@);
                        if self.cell_y(i) != cy as int {
                            assert(ws@[self.cell_y(i)] == prev[self.cell_y(i)]);
                        } else {
                            assert(self.cell_x(i) != cx as int);
                            assert(ws@[self.cell_y(i)]@[self.cell_x(i)] == prev[self.cell_y(
                                i,
                            )]@[self.cell_x(i)]);
                        }
                    } else {
                        assert(gview(ws@)[cy as int][cx as int] == ch);
                    }
                }
                assert forall|r: int|
                    0 <= r < old(ws)@.len() implies #[trigger] gview(ws@)[r].len() == gview(
                    old(ws)@,
                )[r].len() by {
                    if r != cy as int {
                        assert(ws@[r] == prev[r]);
                    }
                    assert(gview(prev)[r].len() == gview(old(ws)@)[r].len());
                }
                assert forall|xx: int, yy: int|
                    0 <= yy < old(ws)@.len() && 0 <= xx < gview(old(ws)@)[yy].len()
                        && !self.covers_upto(k as int, xx, yy) implies #[trigger] gview(
                    ws@,
                )[yy][xx] == gview(old(ws)@)[yy][xx] by {
                    if self.covers_upto(k - 1, xx, yy) {
                        let i = choose|i: int|
                            0 <= i < k - 1 && i < self.word@.len() && #[trigger] self.cell_x(i)
                                == xx && self.cell_y(i) == yy;
                        assert(self.covers_upto(k as int, xx, yy));
                    }
                    assert(gview(prev)[yy][xx] == gview(old(ws)@)[yy][xx]);
                    if self.cell_x(k - 1) == xx && self.cell_y(k - 1) == yy {
                        assert(self.covers_upto(k as int, xx, yy));
                        assert(false);
                    }
                    if yy != cy as int {
                        assert(ws@[yy] == prev[yy]);
                    } else {
                        assert(ws@[yy]@[xx] == prev[yy]@[xx]);
                    }
                }
            }
        }
        proof {
            assert forall|xx: int, yy: int|
                self.covers_upto(self.word@.len() as int, xx, yy) implies self.covers(
                xx,
                yy,
            ) by {
                let i = choose|i: int|
                    0 <= i < self.word@.len() && #[trigger] self.cell_x(i) == xx && self.cell_y(i)
                        == yy;
                assert(0 <= i < self.word@.len() && self.cell_x(i) == xx && self.cell_y(i) == yy);
            }
        }
    }
}

/// Collects, in row-major order, every cell whose character equals the
/// target, compared case-insensitively.
pub fn calculate_indices(grid: &Vec<Vec<char>>, target: char) -> (r: Vec<(usize, usize)>)
    ensures
        forall|k: int|
            0 <= k < r@.len() ==> (#[trigger] r@[k]).0 < grid@.len() && r@[k].1 < gview(
                grid@,
            )[r@[k].0 as int].len() && lower(gview(grid@)[r@[k].0 as int][r@[k].1 as int]) == lower(
                target,
            ),
        forall|i: int, j: int|
            0 <= i < grid@.len() && 0 <= j < gview(grid@)[i].len() && lower(
                #[trigger] gview(grid@)[i][j],
            ) == lower(target) ==> r@.contains((i as usize, j as usize)),
        forall|k1: int, k2: int|
            0 <= k1 < k2 < r@.len() ==> (#[trigger] r@[k1]).0 < (#[trigger] r@[k2]).0 || (r@[k1].0
                == r@[k2].0 && r@[k1].1 < r@[k2].1),
{
    let mut r: Vec<(usize, usize)> = Vec::new();
    let target_low = to_lower(target);
    let mut i: usize = 0;
    while i < grid.len()
        invariant
            i <= grid@.len(),
            target_low == lower(target),
            forall|k: int|
                0 <= k < r@.len() ==> (#[trigger] r@[k]).0 < i && r@[k].1 < gview(
                    grid@,
                )[r@[k].0 as int].len() && lower(gview(grid@)[r@[k].0 as int][r@[k].1 as int])
                    == lower(target),
            forall|ii: int, jj: int|
                0 <= ii < i && 0 <= jj < gview(grid@)[ii].len() && lower(
                    #[trigger] gview(grid@)[ii][jj],
                ) == lower(target) ==> r@.contains((ii as usize, jj as usize)),
            forall|k1: int, k2: int|
                0 <= k1 < k2 < r@.len() ==> (#[trigger] r@[k1]).0 < (#[trigger] r@[k2]).0 || (
                r@[k1].0 == r@[k2].0 && r@[k1].1 < r@[k2].1),
        decreases grid@.len() - i,
    {
        let row_len = grid[i].len();
        let mut j: usize = 0;
        while j < row_len
            invariant
                i < grid@.len(),
                j <= row_len,
                row_len == gview(grid@)[i as int].len(),
                target_low == lower(target),
                forall|k: int|
                    0 <= k < r@.len() ==> ((#[trigger] r@[k]).0 < i || (r@[k].0 == i && r@[k].1
                        < j)) && r@[k].1 < gview(grid@)[r@[k].0 as int].len() && lower(
                        gview(grid@)[r@[k].0 as int][r@[k].1 as int],
                    ) == lower(target),
                forall|ii: int, jj: int|
                    0 <= ii < grid@.len() && 0 <= jj < gview(grid@)[ii].len() && (ii < i || (ii == i
                        && jj < j)) && lower(#[trigger] gview(grid@)[ii][jj]) == lower(target)
                        ==> r@.contains((ii as usize, jj as usize)),
                forall|k1: int, k2: int|
                    0 <= k1 < k2 < r@.len() ==> (#[trigger] r@[k1]).0 < (#[trigger] r@[k2]).0 || (
                    r@[k1].0 == r@[k2].0 && r@[k1].1 < r@[k2].1),
            decreases row_len - j,
        {
            let c = grid[i][j];
            let ghost rold = r@;
            if to_lower(c) == target_low {
                r.push((i, j));
            }
            proof {
                assert forall|ii: int, jj: int|
                    0 <= ii < grid@.len() && 0 <= jj < gview(grid@)[ii].len() && (ii < i || (ii == i
                        && jj < j + 1)) && lower(#[trigger] gview(grid@)[ii][jj]) == lower(
                        target,
                    ) implies r@.contains((ii as usize, jj as usize)) by {
                    if ii == i && jj == j {
                        assert(r@[r@.len() - 1] == (i, j));
                    } else {
                        assert(rold.contains((ii as usize, jj as usize)));
                        let k = choose|k: int|
                            0 <= k < rold.len() && rold[k] == (ii as usize, jj as usize);
                        assert(r@[k] == (ii as usize, jj as usize));
                    }
                }
            }
            j = j + 1;
        }
        i = i + 1;
    }
    r
}

/// Distinct character positions of one word occupy distinct cells: each
/// orientation steps by a nonzero delta on at least one axis.
pub proof fn lemma_cells_distinct(w: Word, i: int, j: int)
    requires
        0 <= i < w.word@.len(),
        0 <= j < w.word@.len(),
        i != j,
    ensures
        w.cell_x(i) != w.cell_x(j) || w.cell_y(i) != w.cell_y(j),
{
}

} // verus!
