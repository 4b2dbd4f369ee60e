use vstd::prelude::*;

verus! {

/// A standard 9x9 sudoku board. Each cell holds a digit 1..=9, or 0 for an
/// empty cell.
#[derive(Clone, Copy, Debug, PartialEq, Eq)]
pub struct Grid {
    cells: [[u8; 9]; 9],
}

/// A (row, column) pair identifying one cell; both components lie in 0..9.
#[derive(Clone, Copy, Debug, PartialEq, Eq, Structural)]
pub struct Coord {
    pub row: usize,
    pub col: usize,
}

/// Both components of a coordinate are in range.
pub open spec fn coord_in_bounds(co: Coord) -> bool {
    co.row < 9 && co.col < 9
}

/// A row and column index are in range.
pub open spec fn in_bounds(r: int, c: int) -> bool {
    0 <= r < 9 && 0 <= c < 9
}

/// The two cells share a row, a column, or a 3x3 box.
pub open spec fn same_group(r1: int, c1: int, r2: int, c2: int) -> bool {
    r1 == r2 || c1 == c2 || (r1 / 3 == r2 / 3 && c1 / 3 == c2 / 3)
}

/// The board is a 9x9 matrix whose cells are digits 1..=9 or 0 (empty).
pub open spec fn grid_wf(v: Seq<Seq<u8>>) -> bool {
    &&& v.len() == 9
    &&& forall|r: int| 0 <= r < 9 ==> (#[trigger] v[r]).len() == 9
    &&& forall|r: int, c: int| in_bounds(r, c) ==> #[trigger] v[r][c] <= 9
}

/// Digit `d` is placed somewhere in the row, column or box of cell (r, c)
/// (the cell itself included).
pub open spec fn associated(v: Seq<Seq<u8>>, r: int, c: int, d: u8) -> bool {
    exists|i: int, j: int|
        in_bounds(i, j) && same_group(r, c, i, j) && #[trigger] v[i][j] == d && d != 0
}

/// How many digits in 1..hi are associated with cell (r, c).
pub open spec fn assoc_count(v: Seq<Seq<u8>>, r: int, c: int, hi: int) -> int
    decreases hi,
{
    if hi <= 1 {
        0
    } else {
        assoc_count(v, r, c, hi - 1) + if associated(v, r, c, (hi - 1) as u8) {
            1int
        } else {
            0int
        }
    }
}

/// The filled cell (r, c) has its value repeated elsewhere in its row,
/// column or box.
pub open spec fn conflict(v: Seq<Seq<u8>>, r: int, c: int) -> bool {
    v[r][c] != 0 && exists|i: int, j: int|
        in_bounds(i, j) && same_group(r, c, i, j) && !(i == r && j == c) && #[trigger] v[i][j]
            == v[r][c]
}

/// No filled cell repeats its value within its row, column or box.
pub open spec fn consistent(v: Seq<Seq<u8>>) -> bool {
    forall|r: int, c: int| in_bounds(r, c) ==> !#[trigger] conflict(v, r, c)
}

/// Every cell is filled.
pub open spec fn grid_full(v: Seq<Seq<u8>>) -> bool {
    forall|r: int, c: int| in_bounds(r, c) ==> #[trigger] v[r][c] != 0
}

/// A solved board: every cell filled, and no row, column or box repeats a
/// digit. For nine cells drawing on nine digits this says exactly that each
/// row, column and box holds each digit 1..=9 once.
pub open spec fn grid_valid(v: Seq<Seq<u8>>) -> bool {
    grid_full(v) && consistent(v)
}

/// `s` agrees with `v` on every cell that is filled in `v`.
pub open spec fn extends_grid(s: Seq<Seq<u8>>, v: Seq<Seq<u8>>) -> bool {
    forall|r: int, c: int| in_bounds(r, c) && #[trigger] v[r][c] != 0 ==> s[r][c] == v[r][c]
}

/// `s` is a solution of the puzzle `v`: a well-formed valid board that keeps
/// every clue of `v`.
pub open spec fn completes(s: Seq<Seq<u8>>, v: Seq<Seq<u8>>) -> bool {
    grid_wf(s) && grid_valid(s) && extends_grid(s, v)
}

/// Some solution of `v` exists.
pub open spec fn solvable(v: Seq<Seq<u8>>) -> bool {
    exists|s: Seq<Seq<u8>>| completes(s, v)
}

/// The value of a cell as the optional digit the public accessors report.
pub open spec fn cell_opt(v: Seq<Seq<u8>>, r: int, c: int) -> Option<u8> {
    if v[r][c] == 0 {
        None
    } else {
        Some(v[r][c])
    }
}

impl View for Grid {
    type V = Seq<Seq<u8>>;

    closed spec fn view(&self) -> Seq<Seq<u8>> {
        Seq::new(9, |r: int| Seq::new(9, |c: int| self.cells@[r]@[c]))
    }
}

impl Grid {
    /// Builds a grid from a literal matrix of digits, 0 meaning empty.
    /// A value above 9 is treated as an empty cell as well.
    #[verifier::loop_isolation(false)]
    pub fn from(value: [[u8; 9]; 9]) -> (g: Grid)
        ensures
            grid_wf(g@),
            forall|r: int, c: int| in_bounds(r, c) ==> #[trigger] g@[r][c] == (if 1
                <= value@[r]@[c] <= 9 {
                value@[r]@[c]
            } else {
                0u8
            }),
    {
        let mut g = Grid { cells: [[0u8; 9]; 9] };
        let mut r: usize = 0;
        while r < 9
            invariant
                r <= 9,
                grid_wf(g@),
                forall|i: int, j: int| in_bounds(i, j) && i < r ==> #[trigger] g@[i][j] == (if 1
                    <= value@[i]@[j] <= 9 {
                    value@[i]@[j]
                } else {
                    0u8
                }),
                forall|i: int, j: int| in_bounds(i, j) && i >= r ==> #[trigger] g@[i][j] == 0,
            decreases 9 - r,
        {
            let mut c: usize = 0;
            while c < 9
                invariant
                    r < 9,
                    c <= 9,
                    grid_wf(g@),
                    forall|i: int, j: int| in_bounds(i, j) && i < r ==> #[trigger] g@[i][j] == (if
                        1 <= value@[i]@[j] <= 9 {
                        value@[i]@[j]
                    } else {
                        0u8
                    }),
                    forall|j: int| 0 <= j < c ==> #[trigger] g@[r as int][j] == (if 1 <= value@[
                        r as int
                    ]@[j] <= 9 {
                        value@[r as int]@[j]
                    } else {
                        0u8
                    }),
                    forall|j: int| c <= j < 9 ==> #[trigger] g@[r as int][j] == 0,
                    forall|i: int, j: int| in_bounds(i, j) && i > r ==> #[trigger] g@[i][j] == 0,
                decreases 9 - c,
            {
                let x = value[r][c];
                if 1 <= x && x <= 9 {
                    g.set_cell_value(r, c, x);
                }
                c += 1;
            }
            r += 1;
        }
        g
    }

    /// A board with every cell empty.
    pub(crate) fn all_empty() -> (g: Grid)
        ensures
            grid_wf(g@),
            forall|i: int, j: int| in_bounds(i, j) ==> #[trigger] g@[i][j] == 0,
    {
        Grid { cells: [[0u8; 9]; 9] }
    }

    /// Writes one cell; 0 empties it.
    pub(crate) fn set_cell_value(&mut self, r: usize, c: usize, d: u8)
        requires
            r < 9,
            c < 9,
        ensures
            final(self)@ == old(self)@.update(r as int, old(self)@[r as int].update(c as int, d)),
    {
        self.cells[r][c] = d;
        proof {
            assert(final(self)@ =~~= old(self)@.update(
                r as int,
                old(self)@[r as int].update(c as int, d),
            ));
        }
    }

    /// Reads one cell as the raw digit, 0 meaning empty.
    pub(crate) fn cell_value(&self, r: usize, c: usize) -> (d: u8)
        requires
            r < 9,
            c < 9,
        ensures
            d == self@[r as int][c as int],
    {
        self.cells[r][c]
    }

    /// The value at a coordinate, or `None` for an empty cell.
    pub fn get_cell(&self, coords: &Coord) -> (r: Option<u8>)
        requires
            coord_in_bounds(*coords),
        ensures
            r == cell_opt(self@, coords.row as int, coords.col as int),
    {
        let d = self.cells[coords.row][coords.col];
        if d == 0 {
            None
        } else {
            Some(d)
        }
    }

    /// Every coordinate whose cell is empty, in row-major order.
    #[verifier::loop_isolation(false)]
    pub fn empty_coords(&self) -> (out: Vec<Coord>)
        ensures
            forall|k: int| 0 <= k < out@.len() ==> coord_in_bounds(#[trigger] out@[k]) && self@[
                out@[k].row as int
            ][out@[k].col as int] == 0,
            forall|i: int, j: int| in_bounds(i, j) && #[trigger] self@[i][j] == 0 ==> exists|k: int|
                0 <= k < out@.len() && (#[trigger] out@[k]).row == i && out@[k].col == j,
            forall|k1: int, k2: int| 0 <= k1 < k2 < out@.len() ==> coord_lt(
                #[trigger] out@[k1],
                #[trigger] out@[k2],
            ),
    {
        let mut out: Vec<Coord> = Vec::new();
        let mut r: usize = 0;
        while r < 9
            invariant
                r <= 9,
                forall|k: int| 0 <= k < out@.len() ==> coord_in_bounds(#[trigger] out@[k]) && self@[
                    out@[k].row as int
                ][out@[k].col as int] == 0 && out@[k].row < r,
                forall|i: int, j: int| in_bounds(i, j) && i < r && #[trigger] self@[i][j] == 0
                    ==> exists|k: int| 0 <= k < out@.len() && (#[trigger] out@[k]).row == i && out@[
                    k
                ].col == j,
                forall|k1: int, k2: int| 0 <= k1 < k2 < out@.len() ==> coord_lt(
                    #[trigger] out@[k1],
                    #[trigger] out@[k2],
                ),
            decreases 9 - r,
        {
            let mut c: usize = 0;
            while c < 9
                invariant
                    r < 9,
                    c <= 9,
                    forall|k: int| 0 <= k < out@.len() ==> coord_in_bounds(#[trigger] out@[k])
                        && self@[out@[k].row as int][out@[k].col as int] == 0 && (out@[k].row < r
                        || (out@[k].row == r && out@[k].col < c)),
                    forall|i: int, j: int| in_bounds(i, j) && (i < r || (i == r && j < c))
                        && #[trigger] self@[i][j] == 0 ==> exists|k: int| 0 <= k < out@.len() && (
                    #[trigger] out@[k]).row == i && out@[k].col == j,
                    forall|k1: int, k2: int| 0 <= k1 < k2 < out@.len() ==> coord_lt(
                        #[trigger] out@[k1],
                        #[trigger] out@[k2],
                    ),
                decreases 9 - c,
            {
                if self.cells[r][c] == 0 {
                    let co = Coord { row: r, col: c };
                    let ghost before = out@;
                    out.push(co);
                    proof {
                        assert(out@[out@.len() - 1] == co);
                        assert forall|k: int| 0 <= k < before.len() implies out@[k] == before[k] by {}
                        assert forall|i: int, j: int|
                            in_bounds(i, j) && (i < r || (i == r && j <= c)) && #[trigger] self@[i][j]
                                == 0 implies exists|k: int|
                            0 <= k < out@.len() && (#[trigger] out@[k]).row == i && out@[k].col
                                == j by {
                            if i == r && j == c {
                                assert(out@[out@.len() - 1].row == i && out@[out@.len() - 1].col
                                    == j);
                            } else {
                                let k0 = choose|k: int|
                                    0 <= k < before.len() && (#[trigger] before[k]).row == i
                                        && before[k].col == j;
                                assert(out@[k0].row == i && out@[k0].col == j);
                            }
                        }
                    }
                }
                c += 1;
            }
            r += 1;
        }
        out
    }

    /// True when digit `d` already appears in the row, column or box of the
    /// given coordinate.
    #[verifier::loop_isolation(false)]
    pub(crate) fn digit_associated(&self, coords: &Coord, d: u8) -> (b: bool)
        requires
            coord_in_bounds(*coords),
            1 <= d <= 9,
        ensures
            b == associated(self@, coords.row as int, coords.col as int, d),
    {
        let r = coords.row;
        let c = coords.col;
        let mut j: usize = 0;
        while j < 9
            invariant
                r < 9,
                c < 9,
                j <= 9,
                forall|jj: int| 0 <= jj < j ==> #[trigger] self@[r as int][jj] != d,
            decreases 9 - j,
        {
            if self.cells[r][j] == d {
                proof {
                    assert(in_bounds(r as int, j as int) && same_group(
                        r as int,
                        c as int,
                        r as int,
                        j as int,
                    ) && self@[r as int][j as int] == d);
                }
                return true;
            }
            j += 1;
        }
        let mut i: usize = 0;
        while i < 9
            invariant
                r < 9,
                c < 9,
                i <= 9,
                forall|ii: int| 0 <= ii < i ==> #[trigger] self@[ii][c as int] != d,
            decreases 9 - i,
        {
            if self.cells[i][c] == d {
                proof {
                    assert(in_bounds(i as int, c as int) && same_group(
                        r as int,
                        c as int,
                        i as int,
                        c as int,
                    ) && self@[i as int][c as int] == d);
                }
                return true;
            }
            i += 1;
        }
        let br = r / 3 * 3;
        let bc = c / 3 * 3;
        let mut di: usize = 0;
        while di < 3
            invariant
                r < 9,
                c < 9,
                br == r / 3 * 3,
                bc == c / 3 * 3,
                di <= 3,
                forall|ii: int, jj: int|
                    br <= ii < br + di && bc <= jj < bc + 3 ==> #[trigger] self@[ii][jj] != d,
            decreases 3 - di,
        {
            let mut dj: usize = 0;
            while dj < 3
                invariant
                    r < 9,
                    c < 9,
                    br == r / 3 * 3,
                    bc == c / 3 * 3,
                    di < 3,
                    dj <= 3,
                    forall|ii: int, jj: int|
                        br <= ii < br + di && bc <= jj < bc + 3 ==> #[trigger] self@[ii][jj] != d,
                    forall|jj: int| bc <= jj < bc + dj ==> #[trigger] self@[(br + di) as int][jj]
                        != d,
                decreases 3 - dj,
            {
                if self.cells[br + di][bc + dj] == d {
                    proof {
                        let ii = (br + di) as int;
                        let jj = (bc + dj) as int;
                        assert(in_bounds(ii, jj) && same_group(r as int, c as int, ii, jj)
                            && self@[ii][jj] == d);
                    }
                    return true;
                }
                dj += 1;
            }
            di += 1;
        }
        proof {
            assert forall|ii: int, jj: int|
                in_bounds(ii, jj) && same_group(r as int, c as int, ii, jj) implies self@[ii][jj]
                != d by {
                if ii == r as int {
                } else if jj == c as int {
                } else {
                    assert(br <= ii < br + 3 && bc <= jj < bc + 3);
                }
            }
        }
        false
    }

    /// All digits already placed in the row, column and box of `coords`,
    /// each reported once, in ascending order.
    #[verifier::loop_isolation(false)]
    pub fn associated_values(&self, coords: &Coord) -> (out: Vec<u8>)
        requires
            grid_wf(self@),
            coord_in_bounds(*coords),
        ensures
            forall|k: int| 0 <= k < out@.len() ==> 1 <= #[trigger] out@[k] <= 9 && associated(
                self@,
                coords.row as int,
                coords.col as int,
                out@[k],
            ),
            forall|d: u8| 1 <= d <= 9 && #[trigger] associated(
                self@,
                coords.row as int,
                coords.col as int,
                d,
            ) ==> out@.contains(d),
            forall|k1: int, k2: int| 0 <= k1 < k2 < out@.len() ==> out@[k1] < out@[k2],
            out@.len() == assoc_count(self@, coords.row as int, coords.col as int, 10),
    {
        let mut out: Vec<u8> = Vec::new();
        let mut d: u8 = 1;
        while d <= 9
            invariant
                grid_wf(self@),
                coord_in_bounds(*coords),
                1 <= d <= 10,
                forall|k: int| 0 <= k < out@.len() ==> 1 <= #[trigger] out@[k] < d && associated(
                    self@,
                    coords.row as int,
                    coords.col as int,
                    out@[k],
                ),
                forall|x: u8| 1 <= x < d && #[trigger] associated(
                    self@,
                    coords.row as int,
                    coords.col as int,
                    x,
                ) ==> out@.contains(x),
                forall|k1: int, k2: int| 0 <= k1 < k2 < out@.len() ==> out@[k1] < out@[k2],
                out@.len() == assoc_count(self@, coords.row as int, coords.col as int, d as int),
            decreases 10 - d,
        {
            if self.digit_associated(coords, d) {
                let ghost before = out@;
                out.push(d);
                proof {
                    assert(out@ == before.push(d));
                    assert forall|k: int| 0 <= k < before.len() implies out@[k] == before[k] by {}
                    assert forall|x: u8| 1 <= x < d + 1 && #[trigger] associated(
                        self@,
                        coords.row as int,
                        coords.col as int,
                        x,
                    ) implies out@.contains(x) by {
                        if x < d {
                            assert(before.contains(x));
                            let k = choose|k: int| 0 <= k < before.len() && before[k] == x;
                            assert(out@[k] == x);
                        } else {
                            assert(out@[out@.len() - 1] == x);
                        }
                    }
                }
            }
            d += 1;
        }
        out
    }

    /// For an empty cell, the candidate digits in ascending order: the
    /// digits 1..=9 that appear nowhere in its row, column or box. For a
    /// filled cell, `None`.
    #[verifier::loop_isolation(false)]
    pub fn cell_possible_choices(&self, coords: &Coord) -> (res: Option<Vec<u8>>)
        requires
            grid_wf(self@),
            coord_in_bounds(*coords),
        ensures
            self@[coords.row as int][coords.col as int] != 0 <==> res is None,
            res matches Some(v) ==> {
                &&& forall|k: int| 0 <= k < v@.len() ==> 1 <= #[trigger] v@[k] <= 9 && !associated(
                    self@,
                    coords.row as int,
                    coords.col as int,
                    v@[k],
                )
                &&& forall|d: u8| 1 <= d <= 9 && !#[trigger] associated(
                    self@,
                    coords.row as int,
                    coords.col as int,
                    d,
                ) ==> v@.contains(d)
                &&& forall|k1: int, k2: int| 0 <= k1 < k2 < v@.len() ==> v@[k1] < v@[k2]
                &&& v@.len() == 9 - assoc_count(self@, coords.row as int, coords.col as int, 10)
            },
    {
        if self.cells[coords.row][coords.col] != 0 {
            return None;
        }
        let mut out: Vec<u8> = Vec::new();
        let mut d: u8 = 1;
        while d <= 9
            invariant
                grid_wf(self@),
                coord_in_bounds(*coords),
                1 <= d <= 10,
                forall|k: int| 0 <= k < out@.len() ==> 1 <= #[trigger] out@[k] < d && !associated(
                    self@,
                    coords.row as int,
                    coords.col as int,
                    out@[k],
                ),
                forall|x: u8| 1 <= x < d && !#[trigger] associated(
                    self@,
                    coords.row as int,
                    coords.col as int,
                    x,
                ) ==> out@.contains(x),
                forall|k1: int, k2: int| 0 <= k1 < k2 < out@.len() ==> out@[k1] < out@[k2],
                out@.len() + assoc_count(self@, coords.row as int, coords.col as int, d as int) == d
                    - 1,
            decreases 10 - d,
        {
            if !self.digit_associated(coords, d) {
                let ghost before = out@;
                out.push(d);
                proof {
                    assert(out@ == before.push(d));
                    assert forall|k: int| 0 <= k < before.len() implies out@[k] == before[k] by {}
                    assert forall|x: u8| 1 <= x < d + 1 && !#[trigger] associated(
                        self@,
                        coords.row as int,
                        coords.col as int,
                        x,
                    ) implies out@.contains(x) by {
                        if x < d {
                            assert(before.contains(x));
                            let k = choose|k: int| 0 <= k < before.len() && before[k] == x;
                            assert(out@[k] == x);
                        } else {
                            assert(out@[out@.len() - 1] == x);
                        }
                    }
                }
            }
            d += 1;
        }
        Some(out)
    }

    /// How many digits remain possible for the cell: 0 for a filled cell,
    /// otherwise 9 minus the number of distinct associated digits.
    #[verifier::loop_isolation(false)]
    pub fn nb_cell_possible_choices(&self, coords: &Coord) -> (n: usize)
        requires
            grid_wf(self@),
            coord_in_bounds(*coords),
        ensures
            self@[coords.row as int][coords.col as int] != 0 ==> n == 0,
            self@[coords.row as int][coords.col as int] == 0 ==> n == 9 - assoc_count(
                self@,
                coords.row as int,
                coords.col as int,
                10,
            ),
    {
        if self.cells[coords.row][coords.col] != 0 {
            return 0;
        }
        let mut cnt: usize = 0;
        let mut d: u8 = 1;
        while d <= 9
            invariant
                grid_wf(self@),
                coord_in_bounds(*coords),
                1 <= d <= 10,
                cnt <= d - 1,
                cnt == assoc_count(self@, coords.row as int, coords.col as int, d as int),
            decreases 10 - d,
        {
            if self.digit_associated(coords, d) {
                cnt += 1;
            }
            d += 1;
        }
        9 - cnt
    }

    /// The nine cells of the 3x3 box containing `coords`, in row-major
    /// order, as the optional digits the cells hold.
    #[verifier::loop_isolation(false)]
    pub fn get_subsquare(&self, coords: &Coord) -> (out: Vec<Option<u8>>)
        requires
            coord_in_bounds(*coords),
        ensures
            out@.len() == 9,
            forall|k: int| 0 <= k < 9 ==> #[trigger] out@[k] == cell_opt(
                self@,
                3 * ((coords.row as int) / 3) + k / 3,
                3 * ((coords.col as int) / 3) + k % 3,
            ),
    {
        let br = coords.row / 3 * 3;
        let bc = coords.col / 3 * 3;
        let mut out: Vec<Option<u8>> = Vec::new();
        let mut di: usize = 0;
        while di < 3
            invariant
                coord_in_bounds(*coords),
                br == coords.row / 3 * 3,
                bc == coords.col / 3 * 3,
                di <= 3,
                out@.len() == 3 * di,
                forall|k: int| 0 <= k < out@.len() ==> #[trigger] out@[k] == cell_opt(
                    self@,
                    br + k / 3,
                    bc + k % 3,
                ),
            decreases 3 - di,
        {
            let mut dj: usize = 0;
            while dj < 3
                invariant
                    coord_in_bounds(*coords),
                    br == coords.row / 3 * 3,
                    bc == coords.col / 3 * 3,
                    di < 3,
                    dj <= 3,
                    out@.len() == 3 * di + dj,
                    forall|k: int| 0 <= k < out@.len() ==> #[trigger] out@[k] == cell_opt(
                        self@,
                        br + k / 3,
                        bc + k % 3,
                    ),
                decreases 3 - dj,
            {
                let d = self.cells[br + di][bc + dj];
                if d == 0 {
                    out.push(None);
                } else {
                    out.push(Some(d));
                }
                dj += 1;
            }
            di += 1;
        }
        out
    }

    /// True iff the grid is completely and correctly solved: every cell
    /// filled, and no row, column or 3x3 box repeats a digit.
    #[verifier::loop_isolation(false)]
    pub fn is_valid(&self) -> (b: bool)
        requires
            grid_wf(self@),
        ensures
            b == grid_valid(self@),
    {
        let mut r: usize = 0;
        while r < 9
            invariant
                grid_wf(self@),
                r <= 9,
                forall|i: int, j: int| in_bounds(i, j) && i < r ==> #[trigger] self@[i][j] != 0,
            decreases 9 - r,
        {
            let mut c: usize = 0;
            while c < 9
                invariant
                    grid_wf(self@),
                    r < 9,
                    c <= 9,
                    forall|i: int, j: int| in_bounds(i, j) && i < r ==> #[trigger] self@[i][j] != 0,
                    forall|j: int| 0 <= j < c ==> #[trigger] self@[r as int][j] != 0,
                decreases 9 - c,
            {
                if self.cells[r][c] == 0 {
                    proof {
                        assert(self@[r as int][c as int] == 0);
                    }
                    return false;
                }
                c += 1;
            }
            r += 1;
        }
        assert(grid_full(self@));
        let mut r: usize = 0;
        while r < 9
            invariant
                grid_wf(self@),
                grid_full(self@),
                r <= 9,
                forall|i: int, j: int| in_bounds(i, j) && i < r ==> !#[trigger] conflict(
                    self@,
                    i,
                    j,
                ),
            decreases 9 - r,
        {
            let mut c: usize = 0;
            while c < 9
                invariant
                    grid_wf(self@),
                    grid_full(self@),
                    r < 9,
                    c <= 9,
                    forall|i: int, j: int| in_bounds(i, j) && i < r ==> !#[trigger] conflict(
                        self@,
                        i,
                        j,
                    ),
                    forall|j: int| 0 <= j < c ==> !#[trigger] conflict(self@, r as int, j),
                decreases 9 - c,
            {
                if self.has_conflict(r, c) {
                    return false;
                }
                c += 1;
            }
            r += 1;
        }
        true
    }

    /// True when the filled cell (r, c) sees its own value somewhere else in
    /// its row, column or box.
    #[verifier::loop_isolation(false)]
    pub(crate) fn has_conflict(&self, r: usize, c: usize) -> (b: bool)
        requires
            grid_wf(self@),
            r < 9,
            c < 9,
        ensures
            b == conflict(self@, r as int, c as int),
    {
        let d = self.cells[r][c];
        if d == 0 {
            return false;
        }
        let mut j: usize = 0;
        while j < 9
            invariant
                grid_wf(self@),
                r < 9,
                c < 9,
                j <= 9,
                d == self@[r as int][c as int],
                forall|jj: int| 0 <= jj < j && jj != c ==> #[trigger] self@[r as int][jj] != d,
            decreases 9 - j,
        {
            if j != c && self.cells[r][j] == d {
                proof {
                    assert(in_bounds(r as int, j as int) && same_group(
                        r as int,
                        c as int,
                        r as int,
                        j as int,
                    ) && self@[r as int][j as int] == d);
                }
                return true;
            }
            j += 1;
        }
        let mut i: usize = 0;
        while i < 9
            invariant
                grid_wf(self@),
                r < 9,
                c < 9,
                i <= 9,
                d == self@[r as int][c as int],
                forall|ii: int| 0 <= ii < i && ii != r ==> #[trigger] self@[ii][c as int] != d,
            decreases 9 - i,
        {
            if i != r && self.cells[i][c] == d {
                proof {
                    assert(in_bounds(i as int, c as int) && same_group(
                        r as int,
                        c as int,
                        i as int,
                        c as int,
                    ) && self@[i as int][c as int] == d);
                }
                return true;
            }
            i += 1;
        }
        let br = r / 3 * 3;
        let bc = c / 3 * 3;
        let mut di: usize = 0;
        while di < 3
            invariant
                grid_wf(self@),
                r < 9,
                c < 9,
                br == r / 3 * 3,
                bc == c / 3 * 3,
                di <= 3,
                d == self@[r as int][c as int],
                forall|ii: int, jj: int|
                    br <= ii < br + di && bc <= jj < bc + 3 && !(ii == r && jj == c)
                        ==> #[trigger] self@[ii][jj] != d,
            decreases 3 - di,
        {
            let mut dj: usize = 0;
            while dj < 3
                invariant
                    grid_wf(self@),
                    r < 9,
                    c < 9,
                    br == r / 3 * 3,
                    bc == c / 3 * 3,
                    di < 3,
                    dj <= 3,
                    d == self@[r as int][c as int],
                    forall|ii: int, jj: int|
                        br <= ii < br + di && bc <= jj < bc + 3 && !(ii == r && jj == c)
                            ==> #[trigger] self@[ii][jj] != d,
                    forall|jj: int|
                        bc <= jj < bc + dj && !(br + di == r && jj == c) ==> #[trigger] self@[(br
                            + di) as int][jj] != d,
                decreases 3 - dj,
            {
                if !(br + di == r && bc + dj == c) && self.cells[br + di][bc + dj] == d {
                    proof {
                        let ii = (br + di) as int;
                        let jj = (bc + dj) as int;
                        assert(in_bounds(ii, jj) && same_group(r as int, c as int, ii, jj)
                            && self@[ii][jj] == d);
                    }
                    return true;
                }
                dj += 1;
            }
            di += 1;
        }
        proof {
            assert forall|ii: int, jj: int|
                in_bounds(ii, jj) && same_group(r as int, c as int, ii, jj) && !(ii == r && jj
                    == c) implies self@[ii][jj] != d by {
                if ii == r as int {
                } else if jj == c as int {
                } else {
                    assert(br <= ii < br + 3 && bc <= jj < bc + 3);
                }
            }
        }
        false
    }
}

/// Strict row-major order on coordinates.
pub open spec fn coord_lt(a: Coord, b: Coord) -> bool {
    a.row < b.row || (a.row == b.row && a.col < b.col)
}

/// Law: for an empty cell, a digit is a candidate exactly when it is not
/// among the cell's associated values, and the candidate count plus the
/// associated count is nine. `avs` and `cs` stand for anything that meets
/// the contracts of `associated_values` and `cell_possible_choices`.
pub proof fn lemma_constraint_query(v: Seq<Seq<u8>>, co: Coord, avs: Seq<u8>, cs: Seq<u8>)
    requires
        grid_wf(v),
        coord_in_bounds(co),
        v[co.row as int][co.col as int] == 0,
        forall|k: int| 0 <= k < avs.len() ==> 1 <= #[trigger] avs[k] <= 9 && associated(
            v,
            co.row as int,
            co.col as int,
            avs[k],
        ),
        forall|d: u8| 1 <= d <= 9 && #[trigger] associated(v, co.row as int, co.col as int, d)
            ==> avs.contains(d),
        avs.len() == assoc_count(v, co.row as int, co.col as int, 10),
        forall|k: int| 0 <= k < cs.len() ==> 1 <= #[trigger] cs[k] <= 9 && !associated(
            v,
            co.row as int,
            co.col as int,
            cs[k],
        ),
        forall|d: u8| 1 <= d <= 9 && !#[trigger] associated(v, co.row as int, co.col as int, d)
            ==> cs.contains(d),
        cs.len() == 9 - assoc_count(v, co.row as int, co.col as int, 10),
    ensures
        forall|d: u8| 1 <= d <= 9 ==> (#[trigger] cs.contains(d) <==> !avs.contains(d)),
        avs.len() + cs.len() == 9,
{
    assert forall|d: u8| 1 <= d <= 9 implies (#[trigger] cs.contains(d) <==> !avs.contains(
        d,
    )) by {
        if associated(v, co.row as int, co.col as int, d) {
            assert(avs.contains(d));
            if cs.contains(d) {
                let k = choose|k: int| 0 <= k < cs.len() && cs[k] == d;
                assert(false);
            }
        } else {
            assert(cs.contains(d));
            if avs.contains(d) {
                let k = choose|k: int| 0 <= k < avs.len() && avs[k] == d;
                assert(false);
            }
        }
    }
}

/// Digit `d` appears somewhere in row `r`.
pub open spec fn row_has(v: Seq<Seq<u8>>, r: int, d: u8) -> bool {
    exists|j: int| 0 <= j < 9 && #[trigger] v[r][j] == d
}

/// Digit `d` appears somewhere in column `c`.
pub open spec fn col_has(v: Seq<Seq<u8>>, c: int, d: u8) -> bool {
    exists|i: int| 0 <= i < 9 && #[trigger] v[i][c] == d
}

/// Digit `d` appears somewhere in the box of cell (r, c).
pub open spec fn box_has(v: Seq<Seq<u8>>, r: int, c: int, d: u8) -> bool {
    exists|i: int, j: int|
        in_bounds(i, j) && i / 3 == r / 3 && j / 3 == c / 3 && #[trigger] v[i][j] == d
}

/// Nine values from 0..=9 that include every digit 1..=9 are exactly the
/// nine digits, each once.
proof fn lemma_covering_group_distinct(s: Seq<int>)
    requires
        s.len() == 9,
        forall|k: int| 0 <= k < 9 ==> 0 <= #[trigger] s[k] <= 9,
        forall|d: int| 1 <= d <= 9 ==> s.contains(d),
    ensures
        forall|k: int| 0 <= k < 9 ==> 1 <= #[trigger] s[k] <= 9,
        s.no_duplicates(),
{
    broadcast use vstd::seq_lib::seq_to_set_is_finite;

    let u = vstd::set_lib::set_int_range(1, 10);
    vstd::set_lib::lemma_int_range(1, 10);
    assert(u.subset_of(s.to_set()));
    s.lemma_cardinality_of_set();
    vstd::set_lib::lemma_len_subset(u, s.to_set());
    assert(s.to_set().len() == 9);
    s.lemma_no_dup_set_cardinality();
    assert forall|k: int| 0 <= k < 9 implies 1 <= #[trigger] s[k] <= 9 by {
        if s[k] == 0 {
            let u0 = u.insert(0);
            assert(s.to_set().contains(0));
            assert(u0.subset_of(s.to_set()));
            assert(u0.len() == 10);
            vstd::set_lib::lemma_len_subset(u0, s.to_set());
            assert(false);
        }
    }
}

/// Nine pairwise distinct values drawn from 1..=9 include every digit.
proof fn lemma_nine_distinct_digits_cover(s: Seq<int>, d: int)
    requires
        s.len() == 9,
        forall|k: int| 0 <= k < 9 ==> 1 <= #[trigger] s[k] <= 9,
        forall|k1: int, k2: int| 0 <= k1 < k2 < 9 ==> s[k1] != s[k2],
        1 <= d <= 9,
    ensures
        s.contains(d),
{
    if !s.contains(d) {
        assert(s.no_duplicates());
        s.unique_seq_to_set();
        let u = vstd::set_lib::set_int_range(1, 10);
        vstd::set_lib::lemma_int_range(1, 10);
        let u2 = u.remove(d);
        assert(u2.len() == 8);
        assert forall|x: int| s.to_set().contains(x) implies u2.contains(x) by {
            let k = choose|k: int| 0 <= k < s.len() && s[k] == x;
            assert(1 <= x <= 9 && x != d);
        }
        assert(s.to_set().subset_of(u2));
        vstd::set_lib::lemma_len_subset(s.to_set(), u2);
        assert(false);
    }
}

/// Law: in a valid grid, the row, the column and the box of any cell hold
/// every digit 1..=9 — being nine cells each, they hold each digit exactly
/// once, so validity means each group is a permutation of 1..=9.
pub proof fn lemma_valid_groups_complete(v: Seq<Seq<u8>>, r: int, c: int, d: u8)
    requires
        grid_wf(v),
        grid_valid(v),
        in_bounds(r, c),
        1 <= d <= 9,
    ensures
        row_has(v, r, d),
        col_has(v, c, d),
        box_has(v, r, c, d),
{
    let rs = Seq::new(9, |j: int| v[r][j] as int);
    assert forall|k1: int, k2: int| 0 <= k1 < k2 < 9 implies rs[k1] != rs[k2] by {
        if v[r][k1] == v[r][k2] {
            assert(conflict(v, r, k1));
        }
    }
    lemma_nine_distinct_digits_cover(rs, d as int);
    let j0 = choose|k: int| 0 <= k < rs.len() && rs[k] == d as int;
    assert(v[r][j0] == d);

    let cs = Seq::new(9, |i: int| v[i][c] as int);
    assert forall|k1: int, k2: int| 0 <= k1 < k2 < 9 implies cs[k1] != cs[k2] by {
        if v[k1][c] == v[k2][c] {
            assert(conflict(v, k1, c));
        }
    }
    lemma_nine_distinct_digits_cover(cs, d as int);
    let i0 = choose|k: int| 0 <= k < cs.len() && cs[k] == d as int;
    assert(v[i0][c] == d);

    let br = 3 * (r / 3);
    let bc = 3 * (c / 3);
    let bs = Seq::new(9, |m: int| v[br + m / 3][bc + m % 3] as int);
    assert forall|k1: int, k2: int| 0 <= k1 < k2 < 9 implies bs[k1] != bs[k2] by {
        let (i1, j1) = (br + k1 / 3, bc + k1 % 3);
        let (i2, j2) = (br + k2 / 3, bc + k2 % 3);
        assert(!(i1 == i2 && j1 == j2));
        assert(same_group(i1, j1, i2, j2));
        if v[i1][j1] == v[i2][j2] {
            assert(conflict(v, i1, j1));
        }
    }
    lemma_nine_distinct_digits_cover(bs, d as int);
    let m0 = choose|k: int| 0 <= k < bs.len() && bs[k] == d as int;
    assert(v[br + m0 / 3][bc + m0 % 3] == d);
    assert((br + m0 / 3) / 3 == r / 3 && (bc + m0 % 3) / 3 == c / 3);
}

/// Law: a well-formed grid whose every row, column and box holds every
/// digit 1..=9 is valid; together with `lemma_valid_groups_complete`,
/// `is_valid` holds exactly when each row, column and box is a permutation
/// of the digits 1..=9.
#[verifier::rlimit(100)]
pub proof fn lemma_groups_complete_valid(v: Seq<Seq<u8>>)
    requires
        grid_wf(v),
        forall|r: int, d: u8| 0 <= r < 9 && 1 <= d <= 9 ==> #[trigger] row_has(v, r, d),
        forall|c: int, d: u8| 0 <= c < 9 && 1 <= d <= 9 ==> #[trigger] col_has(v, c, d),
        forall|r: int, c: int, d: u8| in_bounds(r, c) && 1 <= d <= 9 ==> #[trigger] box_has(
            v,
            r,
            c,
            d,
        ),
    ensures
        grid_valid(v),
{
    assert forall|r: int, j1: int, j2: int|
        0 <= r < 9 && 0 <= j1 < 9 && 0 <= j2 < 9 implies 1 <= #[trigger] v[r][j1] <= 9 && (j1 != j2
        ==> v[r][j1] != #[trigger] v[r][j2]) by {
        let rs = Seq::new(9, |j: int| v[r][j] as int);
        assert forall|d: int| 1 <= d <= 9 implies rs.contains(d) by {
            assert(row_has(v, r, d as u8));
            let j = choose|j: int| 0 <= j < 9 && v[r][j] == d as u8;
            assert(rs[j] == d);
        }
        lemma_covering_group_distinct(rs);
        assert(rs[j1] == v[r][j1] && rs[j2] == v[r][j2]);
    }
    assert forall|c: int, i1: int, i2: int|
        0 <= c < 9 && 0 <= i1 < 9 && 0 <= i2 < 9 && i1 != i2 implies #[trigger] v[i1][c]
        != #[trigger] v[i2][c] by {
        let cs = Seq::new(9, |i: int| v[i][c] as int);
        assert forall|d: int| 1 <= d <= 9 implies cs.contains(d) by {
            assert(col_has(v, c, d as u8));
            let i = choose|i: int| 0 <= i < 9 && v[i][c] == d as u8;
            assert(cs[i] == d);
        }
        lemma_covering_group_distinct(cs);
        assert(cs[i1] == v[i1][c] && cs[i2] == v[i2][c]);
    }
    assert forall|r1: int, c1: int, r2: int, c2: int|
        in_bounds(r1, c1) && in_bounds(r2, c2) && r1 / 3 == r2 / 3 && c1 / 3 == c2 / 3 && !(r1
            == r2 && c1 == c2) implies #[trigger] v[r1][c1] != #[trigger] v[r2][c2] by {
        let br = 3 * (r1 / 3);
        let bc = 3 * (c1 / 3);
        let bs = Seq::new(9, |m: int| v[br + m / 3][bc + m % 3] as int);
        assert forall|d: int| 1 <= d <= 9 implies bs.contains(d) by {
            assert(box_has(v, r1, c1, d as u8));
            let (i, j) = choose|i: int, j: int|
                in_bounds(i, j) && i / 3 == r1 / 3 && j / 3 == c1 / 3 && #[trigger] v[i][j] == (
                d as u8);
            let m = 3 * (i - br) + (j - bc);
            assert(br <= i < br + 3 && bc <= j < bc + 3);
            assert(m / 3 == i - br && m % 3 == j - bc);
            assert(bs[m] == d);
        }
        lemma_covering_group_distinct(bs);
        let m1 = 3 * (r1 - br) + (c1 - bc);
        let m2 = 3 * (r2 - br) + (c2 - bc);
        assert(br <= r1 < br + 3 && bc <= c1 < bc + 3);
        assert(br <= r2 < br + 3 && bc <= c2 < bc + 3);
        assert(m1 / 3 == r1 - br && m1 % 3 == c1 - bc);
        assert(m2 / 3 == r2 - br && m2 % 3 == c2 - bc);
        assert(m1 != m2);
        assert(bs[m1] == v[r1][c1] && bs[m2] == v[r2][c2]);
    }
    assert forall|r: int, c: int| in_bounds(r, c) implies !#[trigger] conflict(v, r, c) by {
        if conflict(v, r, c) {
            let (i2, j2) = choose|i2: int, j2: int|
                in_bounds(i2, j2) && same_group(r, c, i2, j2) && !(i2 == r && j2 == c)
                    && #[trigger] v[i2][j2] == v[r][c];
            if r == i2 {
                assert(false);
            } else if c == j2 {
                assert(false);
            } else {
                assert(false);
            }
        }
    }
}

/// Law: a grid with an empty cell is never valid.
pub proof fn lemma_incomplete_invalid(v: Seq<Seq<u8>>, r: int, c: int)
    requires
        in_bounds(r, c),
        v[r][c] == 0,
    ensures
        !grid_valid(v),
{
}

} // verus!
