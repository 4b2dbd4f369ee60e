use crate::grid::{
    assoc_count, associated, completes, conflict, consistent, coord_in_bounds, coord_lt, grid_wf,
    in_bounds, same_group, solvable, Coord, Grid,
};
use vstd::prelude::*;

verus! {

/// Lexicographic order on (choice count, row, column) triples; this is the
/// order in which the solver visits empty cells.
pub open spec fn triple_le(a: (usize, usize, usize), b: (usize, usize, usize)) -> bool {
    a.0 < b.0 || (a.0 == b.0 && (a.1 < b.1 || (a.1 == b.1 && a.2 <= b.2)))
}

/// How many digits remain possible for the cell at `co` (9 minus the number
/// of distinct associated digits).
pub open spec fn choice_count(v: Seq<Seq<u8>>, co: Coord) -> int {
    9 - assoc_count(v, co.row as int, co.col as int, 10)
}

/// Strict order on empty cells: fewer remaining choices first, ties broken
/// in row-major order.
pub open spec fn order_key_lt(v: Seq<Seq<u8>>, a: Coord, b: Coord) -> bool {
    choice_count(v, a) < choice_count(v, b) || (choice_count(v, a) == choice_count(v, b)
        && coord_lt(a, b))
}

/// The suffix `ord[pos..]` lists exactly the empty cells of `v`, each once,
/// all in bounds.
pub open spec fn order_ok(v: Seq<Seq<u8>>, ord: Seq<Coord>, pos: int) -> bool {
    &&& forall|k: int| pos <= k < ord.len() ==> coord_in_bounds(#[trigger] ord[k]) && v[ord[
        k
    ].row as int][ord[k].col as int] == 0
    &&& forall|i: int, j: int| in_bounds(i, j) && #[trigger] v[i][j] == 0 ==> exists|k: int|
        pos <= k < ord.len() && (#[trigger] ord[k]).row == i && ord[k].col == j
    &&& forall|k1: int, k2: int|
        #![trigger ord[k1], ord[k2]]
        pos <= k1 < ord.len() && pos <= k2 < ord.len() && k1 != k2 ==> ord[k1] != ord[k2]
}

/// The grid `g` with digit `d` written at (r, c).
pub open spec fn cell_set(g: Seq<Seq<u8>>, r: int, c: int, d: u8) -> Seq<Seq<u8>> {
    g.update(r, g[r].update(c, d))
}

/// Relies on itertools::Itertools::sorted: it sorts the elements ascending
/// by their `Ord` order, which for triples of `usize` is the documented
/// lexicographic order, and returns a permutation of its input.
#[verifier::external_body]
fn sorted_triples(v: Vec<(usize, usize, usize)>) -> (r: Vec<(usize, usize, usize)>)
    ensures
        forall|k1: int, k2: int| 0 <= k1 < k2 < r@.len() ==> #[trigger] triple_le(r@[k1], r@[k2]),
        r@.to_multiset() == v@.to_multiset(),
{
    itertools::Itertools::sorted(v.into_iter()).collect()
}

/// Writing an allowed digit into an empty cell keeps the board well formed
/// and consistent, and the remaining suffix of the visit order still lists
/// exactly the empty cells.
proof fn lemma_assign(g: Seq<Seq<u8>>, ord: Seq<Coord>, pos: int, d: u8)
    requires
        grid_wf(g),
        consistent(g),
        0 <= pos < ord.len(),
        order_ok(g, ord, pos),
        1 <= d <= 9,
        !associated(g, ord[pos].row as int, ord[pos].col as int, d),
    ensures
        grid_wf(cell_set(g, ord[pos].row as int, ord[pos].col as int, d)),
        consistent(cell_set(g, ord[pos].row as int, ord[pos].col as int, d)),
        order_ok(cell_set(g, ord[pos].row as int, ord[pos].col as int, d), ord, pos + 1),
{
    let r = ord[pos].row as int;
    let c = ord[pos].col as int;
    let u = cell_set(g, r, c, d);
    assert forall|i: int, j: int| in_bounds(i, j) implies #[trigger] u[i][j] == (if i == r && j
        == c {
        d
    } else {
        g[i][j]
    }) by {}
    assert(grid_wf(u));
    assert forall|i: int, j: int| in_bounds(i, j) implies !conflict(u, i, j) by {
        if conflict(u, i, j) {
            let (i2, j2) = choose|i2: int, j2: int|
                in_bounds(i2, j2) && same_group(i, j, i2, j2) && !(i2 == i && j2 == j) && u[i2][j2]
                    == u[i][j];
            if i == r && j == c {
                assert(g[i2][j2] == d);
                assert(associated(g, r, c, d));
                assert(false);
            } else if i2 == r && j2 == c {
                assert(g[i][j] == d);
                assert(associated(g, r, c, d));
                assert(false);
            } else {
                assert(conflict(g, i, j));
                assert(false);
            }
        }
    }
    assert forall|k: int| pos + 1 <= k < ord.len() implies coord_in_bounds(#[trigger] ord[k])
        && u[ord[k].row as int][ord[k].col as int] == 0 by {
        assert(ord[k] != ord[pos]);
    }
    assert forall|i: int, j: int| in_bounds(i, j) && #[trigger] u[i][j] == 0 implies exists|k: int|
        pos + 1 <= k < ord.len() && (#[trigger] ord[k]).row == i && ord[k].col == j by {
        assert(g[i][j] == 0);
        let k0 = choose|k: int|
            pos <= k < ord.len() && (#[trigger] ord[k]).row == i && ord[k].col == j;
        assert(k0 != pos);
        assert(pos + 1 <= k0 < ord.len() && ord[k0].row == i && ord[k0].col == j);
    }
}

impl Grid {
    /// The empty cells of the grid in the order the solver visits them:
    /// fewest remaining candidate digits first, ties in row-major order.
    #[verifier::loop_isolation(false)]
    pub fn search_order(&self) -> (out: Vec<Coord>)
        requires
            grid_wf(self@),
        ensures
            order_ok(self@, out@, 0),
            forall|k1: int, k2: int| 0 <= k1 < k2 < out@.len() ==> #[trigger] order_key_lt(
                self@,
                out@[k1],
                out@[k2],
            ),
    {
        let empties = self.empty_coords();
        let mut triples: Vec<(usize, usize, usize)> = Vec::new();
        let mut idx: usize = 0;
        while idx < empties.len()
            invariant
                idx <= empties@.len(),
                triples@.len() == idx,
                forall|k: int| 0 <= k < idx ==> (#[trigger] triples@[k]).0 == choice_count(
                    self@,
                    empties@[k],
                ) && triples@[k].1 == empties@[k].row && triples@[k].2 == empties@[k].col,
            decreases empties@.len() - idx,
        {
            let co = empties[idx];
            let n = self.nb_cell_possible_choices(&co);
            triples.push((n, co.row, co.col));
            idx += 1;
        }
        let sorted = sorted_triples(triples);
        let mut out: Vec<Coord> = Vec::new();
        let mut k: usize = 0;
        while k < sorted.len()
            invariant
                k <= sorted@.len(),
                out@.len() == k,
                forall|m: int| 0 <= m < k ==> (#[trigger] out@[m]).row == sorted@[m].1
                    && out@[m].col == sorted@[m].2,
            decreases sorted@.len() - k,
        {
            let t = sorted[k];
            out.push(Coord { row: t.1, col: t.2 });
            k += 1;
        }
        proof {
            let ev = empties@;
            let tv = triples@;
            let sv = sorted@;
            tv.to_multiset_ensures();
            sv.to_multiset_ensures();
            // the two vectors hold the same triples
            assert forall|x: (usize, usize, usize)| #[trigger] sv.contains(x) implies tv.contains(
                x,
            ) by {
                assert(sv.to_multiset().count(x) > 0);
            }
            assert forall|x: (usize, usize, usize)| #[trigger] tv.contains(x) implies sv.contains(
                x,
            ) by {
                assert(tv.to_multiset().count(x) > 0);
            }
            // the row-major list has no duplicate coordinates, hence no
            // duplicate triples
            assert forall|k1: int, k2: int|
                #![trigger ev[k1], ev[k2]]
                0 <= k1 < ev.len() && 0 <= k2 < ev.len() && k1 != k2 implies ev[k1] != ev[k2] by {
                if k1 < k2 {
                    assert(coord_lt(ev[k1], ev[k2]));
                } else {
                    assert(coord_lt(ev[k2], ev[k1]));
                }
            }
            assert(tv.no_duplicates()) by {
                assert forall|k1: int, k2: int|
                    0 <= k1 < tv.len() && 0 <= k2 < tv.len() && k1 != k2 implies #[trigger] tv[k1]
                    != #[trigger] tv[k2] by {
                    assert(ev[k1] != ev[k2]);
                }
            }
            tv.lemma_multiset_has_no_duplicates();
            sv.lemma_multiset_has_no_duplicates_conv();
            assert(sv.no_duplicates());
            // every output coordinate carries its triple's data
            assert forall|m: int| 0 <= m < sv.len() implies coord_in_bounds(#[trigger] out@[m])
                && self@[out@[m].row as int][out@[m].col as int] == 0 && sv[m].0 == choice_count(
                self@,
                out@[m],
            ) by {
                assert(sv.contains(sv[m]));
                assert(tv.contains(sv[m]));
                let m0 = choose|k: int| 0 <= k < tv.len() && tv[k] == sv[m];
                assert(out@[m].row == ev[m0].row && out@[m].col == ev[m0].col);
                assert(out@[m] == ev[m0]);
            }
            // every empty cell appears in the output
            assert forall|i: int, j: int| in_bounds(i, j) && #[trigger] self@[i][j] == 0 implies
                exists|k: int|
                0 <= k < out@.len() && (#[trigger] out@[k]).row == i && out@[k].col == j by {
                let k0 = choose|k: int|
                    0 <= k < ev.len() && (#[trigger] ev[k]).row == i && ev[k].col == j;
                assert(tv[k0].1 == i && tv[k0].2 == j);
                assert(tv.contains(tv[k0]));
                assert(sv.contains(tv[k0]));
                let k1 = choose|k: int| 0 <= k < sv.len() && sv[k] == tv[k0];
                assert(out@[k1].row == i && out@[k1].col == j);
            }
            // no coordinate appears twice in the output
            assert forall|k1: int, k2: int|
                #![trigger out@[k1], out@[k2]]
                0 <= k1 < out@.len() && 0 <= k2 < out@.len() && k1 != k2 implies out@[k1] != out@[
                k2
            ] by {
                if out@[k1] == out@[k2] {
                    assert(sv.contains(sv[k1]));
                    assert(tv.contains(sv[k1]));
                    let m1 = choose|k: int| 0 <= k < tv.len() && tv[k] == sv[k1];
                    assert(sv.contains(sv[k2]));
                    assert(tv.contains(sv[k2]));
                    let m2 = choose|k: int| 0 <= k < tv.len() && tv[k] == sv[k2];
                    assert(ev[m1].row == ev[m2].row && ev[m1].col == ev[m2].col);
                    assert(ev[m1] == ev[m2]);
                    assert(m1 == m2);
                    assert(sv[k1] == sv[k2]);
                    assert(false);
                }
            }
            // the output is strictly ordered by the search key
            assert forall|k1: int, k2: int| 0 <= k1 < k2 < out@.len() implies #[trigger]
                order_key_lt(self@, out@[k1], out@[k2]) by {
                assert(triple_le(sv[k1], sv[k2]));
                assert(sv[k1] != sv[k2]);
                assert(sv[k1].0 == choice_count(self@, out@[k1]));
                assert(sv[k2].0 == choice_count(self@, out@[k2]));
                assert(out@[k1] != out@[k2]);
            }
        }
        out
    }

    /// The backtracking search. `order[pos..]` must list exactly the empty
    /// cells of the board. On success the returned grid is a solution of the
    /// board as it was on entry; on failure the board is restored and no
    /// solution of it exists at all.
    #[verifier::loop_isolation(false)]
    pub fn backtrack(&mut self, order: &Vec<Coord>, pos: usize) -> (res: Result<Grid, ()>)
        requires
            grid_wf(old(self)@),
            consistent(old(self)@),
            pos <= order@.len(),
            order_ok(old(self)@, order@, pos as int),
        ensures
            res matches Ok(sol) ==> completes(sol@, old(self)@),
            res is Err ==> final(self)@ == old(self)@ && !solvable(old(self)@),
        decreases order@.len() - pos,
    {
        if pos == order.len() {
            proof {
                assert forall|i: int, j: int| in_bounds(i, j) implies #[trigger] self@[i][j]
                    != 0 by {
                    if self@[i][j] == 0 {
                        assert(false);
                    }
                }
                assert(completes(self@, old(self)@));
            }
            return Ok(*self);
        }
        let coord = order[pos];
        proof {
            assert(order@[pos as int] == coord);
        }
        let choices_opt = self.cell_possible_choices(&coord);
        let choices = match choices_opt {
            Some(v) => v,
            None => {
                proof {
                    assert(false);
                }
                return Err(());
            },
        };
        let mut i: usize = 0;
        while i < choices.len()
            invariant
                self@ == old(self)@,
                i <= choices@.len(),
                forall|s: Seq<Seq<u8>>, m: int|
                    #![trigger completes(s, old(self)@), choices@[m]]
                    0 <= m < i && completes(s, old(self)@) && s[coord.row as int][coord.col as int]
                        == choices@[m] ==> false,
            decreases choices@.len() - i,
        {
            let d = choices[i];
            proof {
                assert(choices@[i as int] == d);
                lemma_assign(old(self)@, order@, pos as int, d);
            }
            self.set_cell_value(coord.row, coord.col, d);
            let ghost g1 = self@;
            proof {
                assert(g1 == cell_set(old(self)@, coord.row as int, coord.col as int, d));
            }
            let res = self.backtrack(order, pos + 1);
            match res {
                Ok(sol) => {
                    proof {
                        assert forall|rr: int, cc: int|
                            in_bounds(rr, cc) && #[trigger] old(self)@[rr][cc] != 0 implies sol@[
                            rr
                        ][cc] == old(self)@[rr][cc] by {
                            assert(g1[rr][cc] == old(self)@[rr][cc]);
                        }
                        assert(completes(sol@, old(self)@));
                    }
                    return Ok(sol);
                },
                Err(()) => {
                    self.set_cell_value(coord.row, coord.col, 0);
                    proof {
                        assert(self@ =~~= old(self)@);
                        assert forall|s: Seq<Seq<u8>>|
                            #[trigger] completes(s, old(self)@) && s[coord.row as int][coord.col as int]
                                == d implies false by {
                            assert forall|rr: int, cc: int|
                                in_bounds(rr, cc) && #[trigger] g1[rr][cc] != 0 implies s[rr][cc]
                                == g1[rr][cc] by {
                                if rr == coord.row as int && cc == coord.col as int {
                                } else {
                                    assert(g1[rr][cc] == old(self)@[rr][cc]);
                                }
                            }
                            assert(completes(s, g1));
                            assert(solvable(g1));
                            assert(false);
                        }
                    }
                },
            }
            i += 1;
        }
        proof {
            assert forall|s: Seq<Seq<u8>>| #[trigger] completes(s, old(self)@) implies false by {
                let rr = coord.row as int;
                let cc = coord.col as int;
                let dv = s[rr][cc];
                assert(s[rr][cc] != 0);
                assert(dv <= 9);
                assert(!associated(old(self)@, rr, cc, dv)) by {
                    if associated(old(self)@, rr, cc, dv) {
                        let (ii, jj) = choose|ii: int, jj: int|
                            in_bounds(ii, jj) && same_group(rr, cc, ii, jj) && #[trigger] old(
                                self,
                            )@[ii][jj] == dv && dv != 0;
                        assert(s[ii][jj] == dv);
                        assert(conflict(s, rr, cc));
                        assert(false);
                    }
                }
                assert(choices@.contains(dv));
                let m = choose|m: int| 0 <= m < choices@.len() && choices@[m] == dv;
                assert(false);
            }
        }
        Err(())
    }

    /// Solves the puzzle: returns a completely filled, rule-abiding grid
    /// that keeps every clue of this one. The puzzle must be solvable; a
    /// well-formed standard sudoku always is.
    pub fn solution(&self) -> (sol: Grid)
        requires
            grid_wf(self@),
            solvable(self@),
        ensures
            completes(sol@, self@),
    {
        proof {
            assert forall|i: int, j: int| in_bounds(i, j) implies !conflict(self@, i, j) by {
                if conflict(self@, i, j) {
                    lemma_conflict_unsolvable(self@, i, j);
                }
            }
        }
        let order = self.search_order();
        let mut work = *self;
        let res = work.backtrack(&order, 0);
        match res {
            Ok(sol) => sol,
            Err(()) => vstd::pervasive::unreached(),
        }
    }
}

/// A repeated digit in a row, column or box rules every solution out.
proof fn lemma_conflict_unsolvable(v: Seq<Seq<u8>>, r: int, c: int)
    requires
        in_bounds(r, c),
        conflict(v, r, c),
    ensures
        !solvable(v),
{
    if solvable(v) {
        let s = choose|s: Seq<Seq<u8>>| completes(s, v);
        let (i2, j2) = choose|i2: int, j2: int|
            in_bounds(i2, j2) && same_group(r, c, i2, j2) && !(i2 == r && j2 == c) && #[trigger] v[
                i2
            ][j2] == v[r][c];
        assert(s[r][c] == v[r][c]);
        assert(s[i2][j2] == v[i2][j2]);
        assert(conflict(s, r, c));
        assert(false);
    }
}

impl Grid {
    /// Solves the puzzle if it can be solved: `Some` holds a completely
    /// filled, rule-abiding grid keeping every clue of this one, and `None`
    /// comes back exactly when no such grid exists.
    #[verifier::loop_isolation(false)]
    pub fn try_solution(&self) -> (res: Option<Grid>)
        requires
            grid_wf(self@),
        ensures
            res matches Some(sol) ==> completes(sol@, self@),
            res is Some <==> solvable(self@),
    {
        let mut r: usize = 0;
        while r < 9
            invariant
                r <= 9,
                forall|i: int, j: int| in_bounds(i, j) && i < r ==> !#[trigger] conflict(
                    self@,
                    i,
                    j,
                ),
            decreases 9 - r,
        {
            let mut c: usize = 0;
            while c < 9
                invariant
                    r < 9,
                    c <= 9,
                    forall|i: int, j: int| in_bounds(i, j) && i < r ==> !#[trigger] conflict(
                        self@,
                        i,
                        j,
                    ),
                    forall|j: int| 0 <= j < c ==> !#[trigger] conflict(self@, r as int, j),
                decreases 9 - c,
            {
                if self.has_conflict(r, c) {
                    proof {
                        lemma_conflict_unsolvable(self@, r as int, c as int);
                    }
                    return None;
                }
                c += 1;
            }
            r += 1;
        }
        assert(consistent(self@));
        let order = self.search_order();
        let mut work = *self;
        match work.backtrack(&order, 0) {
            Ok(sol) => {
                proof {
                    assert(completes(sol@, self@));
                }
                Some(sol)
            },
            Err(()) => None,
        }
    }
}

/// Two sequences that are strictly sorted by an asymmetric relation and hold
/// the same elements are equal.
pub proof fn lemma_strict_sorted_unique<T>(a: Seq<T>, b: Seq<T>, lt: spec_fn(T, T) -> bool)
    requires
        forall|x: T, y: T| #[trigger] lt(x, y) ==> !lt(y, x),
        forall|k1: int, k2: int| 0 <= k1 < k2 < a.len() ==> #[trigger] lt(a[k1], a[k2]),
        forall|k1: int, k2: int| 0 <= k1 < k2 < b.len() ==> #[trigger] lt(b[k1], b[k2]),
        forall|x: T| #![trigger a.contains(x)] #![trigger b.contains(x)] a.contains(x)
            <==> b.contains(x),
    ensures
        a == b,
    decreases a.len(),
{
    if a.len() == 0 {
        if b.len() > 0 {
            assert(b.contains(b[0]));
            assert(a.contains(b[0]));
            assert(false);
        }
        assert(a =~= b);
    } else {
        assert(a.contains(a[0]));
        assert(b.contains(a[0]));
        let jb = choose|k: int| 0 <= k < b.len() && b[k] == a[0];
        assert(b.contains(b[0]));
        assert(a.contains(b[0]));
        let ja = choose|k: int| 0 <= k < a.len() && a[k] == b[0];
        if jb > 0 && ja > 0 {
            assert(lt(b[0], b[jb]));
            assert(lt(a[0], a[ja]));
            assert(false);
        }
        assert(a[0] == b[0]);
        let at = a.drop_first();
        let bt = b.drop_first();
        assert forall|x: T| #[trigger] at.contains(x) implies bt.contains(x) by {
            let k = choose|k: int| 0 <= k < at.len() && at[k] == x;
            assert(a[k + 1] == x);
            assert(a.contains(x));
            assert(b.contains(x));
            let m = choose|m: int| 0 <= m < b.len() && b[m] == x;
            if m == 0 {
                assert(lt(a[0], a[k + 1]));
                assert(false);
            }
            assert(bt[m - 1] == x);
            assert(bt.contains(x));
        }
        assert forall|x: T| #[trigger] bt.contains(x) implies at.contains(x) by {
            let k = choose|k: int| 0 <= k < bt.len() && bt[k] == x;
            assert(b[k + 1] == x);
            assert(b.contains(x));
            assert(a.contains(x));
            let m = choose|m: int| 0 <= m < a.len() && a[m] == x;
            if m == 0 {
                assert(lt(b[0], b[k + 1]));
                assert(false);
            }
            assert(at[m - 1] == x);
            assert(at.contains(x));
        }
        assert forall|k1: int, k2: int| 0 <= k1 < k2 < at.len() implies #[trigger] lt(
            at[k1],
            at[k2],
        ) by {
            assert(lt(a[k1 + 1], a[k2 + 1]));
        }
        assert forall|k1: int, k2: int| 0 <= k1 < k2 < bt.len() implies #[trigger] lt(
            bt[k1],
            bt[k2],
        ) by {
            assert(lt(b[k1 + 1], b[k2 + 1]));
        }
        lemma_strict_sorted_unique(at, bt, lt);
        assert forall|i: int| 0 <= i < a.len() implies a[i] == b[i] by {
            if i > 0 {
                assert(a[i] == at[i - 1]);
                assert(b[i] == bt[i - 1]);
            }
        }
        assert(a =~= b);
    }
}

/// Law: the candidate list for an empty cell is a function of the grid
/// alone: any two sequences that meet `cell_possible_choices`'s contract
/// are equal.
pub proof fn lemma_choices_deterministic(v: Seq<Seq<u8>>, co: Coord, cs1: Seq<u8>, cs2: Seq<u8>)
    requires
        forall|k: int| 0 <= k < cs1.len() ==> 1 <= #[trigger] cs1[k] <= 9 && !associated(
            v,
            co.row as int,
            co.col as int,
            cs1[k],
        ),
        forall|d: u8| 1 <= d <= 9 && !#[trigger] associated(v, co.row as int, co.col as int, d)
            ==> cs1.contains(d),
        forall|k1: int, k2: int| 0 <= k1 < k2 < cs1.len() ==> cs1[k1] < cs1[k2],
        forall|k: int| 0 <= k < cs2.len() ==> 1 <= #[trigger] cs2[k] <= 9 && !associated(
            v,
            co.row as int,
            co.col as int,
            cs2[k],
        ),
        forall|d: u8| 1 <= d <= 9 && !#[trigger] associated(v, co.row as int, co.col as int, d)
            ==> cs2.contains(d),
        forall|k1: int, k2: int| 0 <= k1 < k2 < cs2.len() ==> cs2[k1] < cs2[k2],
    ensures
        cs1 == cs2,
{
    let lt = |a: u8, b: u8| a < b;
    assert forall|x: u8| #[trigger] cs1.contains(x) implies cs2.contains(x) by {
        let k = choose|k: int| 0 <= k < cs1.len() && cs1[k] == x;
    }
    assert forall|x: u8| #[trigger] cs2.contains(x) implies cs1.contains(x) by {
        let k = choose|k: int| 0 <= k < cs2.len() && cs2[k] == x;
    }
    assert forall|k1: int, k2: int| 0 <= k1 < k2 < cs1.len() implies #[trigger] lt(
        cs1[k1],
        cs1[k2],
    ) by {}
    assert forall|k1: int, k2: int| 0 <= k1 < k2 < cs2.len() implies #[trigger] lt(
        cs2[k1],
        cs2[k2],
    ) by {}
    lemma_strict_sorted_unique(cs1, cs2, lt);
}

/// Law: the solver's visit order is a function of the grid alone. Any two
/// sequences that meet `search_order`'s contract are equal, so solving the
/// same grid twice explores cells, and therefore candidate digits, in the
/// same order.
pub proof fn lemma_search_order_deterministic(
    v: Seq<Seq<u8>>,
    ord1: Seq<Coord>,
    ord2: Seq<Coord>,
)
    requires
        order_ok(v, ord1, 0),
        forall|k1: int, k2: int| 0 <= k1 < k2 < ord1.len() ==> #[trigger] order_key_lt(
            v,
            ord1[k1],
            ord1[k2],
        ),
        order_ok(v, ord2, 0),
        forall|k1: int, k2: int| 0 <= k1 < k2 < ord2.len() ==> #[trigger] order_key_lt(
            v,
            ord2[k1],
            ord2[k2],
        ),
    ensures
        ord1 == ord2,
{
    let lt = |a: Coord, b: Coord| order_key_lt(v, a, b);
    assert forall|x: Coord| #[trigger] ord1.contains(x) implies ord2.contains(x) by {
        let k = choose|k: int| 0 <= k < ord1.len() && ord1[k] == x;
        assert(coord_in_bounds(ord1[k]) && v[x.row as int][x.col as int] == 0);
        let m = choose|m: int|
            0 <= m < ord2.len() && (#[trigger] ord2[m]).row == x.row as int && ord2[m].col
                == x.col as int;
        assert(ord2[m] == x);
    }
    assert forall|x: Coord| #[trigger] ord2.contains(x) implies ord1.contains(x) by {
        let k = choose|k: int| 0 <= k < ord2.len() && ord2[k] == x;
        assert(coord_in_bounds(ord2[k]) && v[x.row as int][x.col as int] == 0);
        let m = choose|m: int|
            0 <= m < ord1.len() && (#[trigger] ord1[m]).row == x.row as int && ord1[m].col
                == x.col as int;
        assert(ord1[m] == x);
    }
    lemma_strict_sorted_unique(ord1, ord2, lt);
}

} // verus!
