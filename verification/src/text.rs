use crate::errors::ParseGridError;
use crate::grid::{grid_wf, in_bounds, Grid};
use vstd::prelude::*;
use vstd::slice::slice_to_vec;
use vstd::string::{StringExecFns, StringSliceAdditionalSpecFns};

verus! {

/// Whitespace allowed between the tokens of a line: space, tab, carriage
/// return.
pub open spec fn is_line_ws(b: u8) -> bool {
    b == 32 || b == 9 || b == 13
}

/// Whitespace stripped from the ends of the input, newline included.
pub open spec fn is_any_ws(b: u8) -> bool {
    is_line_ws(b) || b == 10
}

/// A filled-cell token: an ASCII digit 1 to 9.
pub open spec fn is_digit_byte(b: u8) -> bool {
    49 <= b <= 57
}

/// An empty-cell token: one of the characters `_ . ? *`.
pub open spec fn is_marker_byte(b: u8) -> bool {
    b == 95 || b == 46 || b == 63 || b == 42
}

/// The input with leading whitespace removed.
pub open spec fn trim_front(s: Seq<u8>) -> Seq<u8>
    decreases s.len(),
{
    if s.len() == 0 || !is_any_ws(s[0]) {
        s
    } else {
        trim_front(s.drop_first())
    }
}

/// The input with trailing whitespace removed.
pub open spec fn trim_back(s: Seq<u8>) -> Seq<u8>
    decreases s.len(),
{
    if s.len() == 0 || !is_any_ws(s[s.len() - 1]) {
        s
    } else {
        trim_back(s.drop_last())
    }
}

/// The input with whitespace removed from both ends.
pub open spec fn trim_bytes(s: Seq<u8>) -> Seq<u8> {
    trim_back(trim_front(s))
}

/// Index of the first newline, or the length when there is none.
pub open spec fn nl_pos(s: Seq<u8>) -> nat
    decreases s.len(),
{
    if s.len() == 0 || s[0] == 10 {
        0
    } else {
        (1 + nl_pos(s.drop_first())) as nat
    }
}

/// The input split at newlines, as `str::lines` sees a trimmed text.
pub open spec fn nl_split(s: Seq<u8>) -> Seq<Seq<u8>>
    decreases s.len(),
{
    let p = nl_pos(s) as int;
    if p >= s.len() {
        seq![s]
    } else {
        seq![s.take(p)] + nl_split(s.skip(p + 1))
    }
}

/// A row of nine empty cells.
pub open spec fn zero_row() -> Seq<u8> {
    Seq::new(9, |i: int| 0u8)
}

/// The tokens read so far, extended with empty cells to a full row.
pub open spec fn row_pad(acc: Seq<u8>) -> Seq<u8> {
    if acc.len() >= 9 {
        acc
    } else {
        acc + Seq::new((9 - acc.len()) as nat, |i: int| 0u8)
    }
}

/// Reads the cells of one line, at most nine of them: whitespace is
/// skipped, a digit 1-9 is a filled cell, one of `_ . ? *` an empty cell,
/// and anything else fails the parse. Missing cells stay empty.
pub open spec fn parse_row_rec(line: Seq<u8>, acc: Seq<u8>) -> Option<Seq<u8>>
    decreases line.len(),
{
    if acc.len() >= 9 || line.len() == 0 {
        Some(row_pad(acc))
    } else if is_line_ws(line[0]) {
        parse_row_rec(line.drop_first(), acc)
    } else if is_digit_byte(line[0]) {
        parse_row_rec(line.drop_first(), acc.push((line[0] - 48) as u8))
    } else if is_marker_byte(line[0]) {
        parse_row_rec(line.drop_first(), acc.push(0u8))
    } else {
        None
    }
}

/// One line of the input as a row of the grid.
pub open spec fn parse_row(line: Seq<u8>) -> Option<Seq<u8>> {
    parse_row_rec(line, Seq::empty())
}

/// Rows `k..9` of the grid read from the split lines; lines beyond the
/// ninth are ignored, missing lines give empty rows.
pub open spec fn parse_rows(ls: Seq<Seq<u8>>, k: int) -> Option<Seq<Seq<u8>>>
    decreases 9 - k,
{
    if k >= 9 {
        Some(Seq::empty())
    } else {
        let row = if k < ls.len() {
            parse_row(ls[k])
        } else {
            Some(zero_row())
        };
        match (row, parse_rows(ls, k + 1)) {
            (Some(r), Some(rest)) => Some(seq![r] + rest),
            _ => None,
        }
    }
}

/// The grid read from a text, or nothing when the text is rejected.
pub open spec fn parse_bytes(s: Seq<u8>) -> Option<Seq<Seq<u8>>> {
    parse_rows(nl_split(trim_bytes(s)), 0)
}

/// Rows already built, glued to the outcome for the remaining rows.
pub open spec fn glue(pre: Seq<Seq<u8>>, rest: Option<Seq<Seq<u8>>>) -> Option<Seq<Seq<u8>>> {
    match rest {
        Some(t) => Some(pre + t),
        None => None,
    }
}

/// Where the first non-whitespace byte sits, `trim_front` is a skip.
proof fn lemma_trim_front_at(s: Seq<u8>, a: int)
    requires
        0 <= a <= s.len(),
        forall|k: int| 0 <= k < a ==> is_any_ws(#[trigger] s[k]),
        a == s.len() || !is_any_ws(s[a]),
    ensures
        trim_front(s) == s.skip(a),
    decreases a,
{
    if a == 0 {
        assert(s.skip(0) =~= s);
    } else {
        let t = s.drop_first();
        assert forall|k: int| 0 <= k < a - 1 implies is_any_ws(#[trigger] t[k]) by {
            assert(t[k] == s[k + 1]);
        }
        if a - 1 < t.len() {
            assert(t[a - 1] == s[a]);
        }
        lemma_trim_front_at(t, a - 1);
        assert(t.skip(a - 1) =~= s.skip(a));
    }
}

/// Where the last non-whitespace byte sits, `trim_back` is a take.
proof fn lemma_trim_back_at(s: Seq<u8>, h: int)
    requires
        0 <= h <= s.len(),
        forall|k: int| h <= k < s.len() ==> is_any_ws(#[trigger] s[k]),
        h == 0 || !is_any_ws(s[h - 1]),
    ensures
        trim_back(s) == s.take(h),
    decreases s.len() - h,
{
    if h == s.len() {
        assert(s.take(h) =~= s);
    } else {
        assert(is_any_ws(s[s.len() - 1]));
        let t = s.drop_last();
        assert forall|k: int| h <= k < t.len() implies is_any_ws(#[trigger] t[k]) by {
            assert(t[k] == s[k]);
        }
        lemma_trim_back_at(t, h);
        assert(t.take(h) =~= s.take(h));
    }
}

/// Pins `nl_pos` to the scanned position of the first newline.
proof fn lemma_nl_pos_at(s: Seq<u8>, p: int)
    requires
        0 <= p <= s.len(),
        forall|k: int| 0 <= k < p ==> #[trigger] s[k] != 10,
        p == s.len() || s[p] == 10,
    ensures
        nl_pos(s) == p,
    decreases p,
{
    if p == 0 {
    } else {
        let t = s.drop_first();
        assert forall|k: int| 0 <= k < p - 1 implies #[trigger] t[k] != 10 by {
            assert(t[k] == s[k + 1]);
        }
        if p - 1 < t.len() {
            assert(t[p - 1] == s[p]);
        }
        lemma_nl_pos_at(t, p - 1);
    }
}

fn byte_is_line_ws(b: u8) -> (r: bool)
    ensures
        r == is_line_ws(b),
{
    b == 32 || b == 9 || b == 13
}

fn byte_is_any_ws(b: u8) -> (r: bool)
    ensures
        r == is_any_ws(b),
{
    b == 32 || b == 9 || b == 13 || b == 10
}

impl Grid {
    /// Reads a grid from text: up to nine lines, each up to nine tokens; a
    /// digit 1-9 is a filled cell, each of `_ . ? *` an empty cell, and
    /// whitespace between tokens is skipped. Any other character fails the
    /// parse. Missing lines or tokens leave cells empty; surplus ones are
    /// ignored.
    #[verifier::loop_isolation(false)]
    #[verifier::rlimit(100)]
    pub fn parse(s: &str) -> (res: Result<Grid, ParseGridError>)
        ensures
            res matches Ok(g) ==> grid_wf(g@) && parse_bytes(s.spec_bytes()) == Some(g@),
            res is Err ==> parse_bytes(s.spec_bytes()) is None,
    {
        let bytes: Vec<u8> = slice_to_vec(s.as_bytes());
        let ghost whole = bytes@;
        let n = bytes.len();
        let mut lo: usize = 0;
        while lo < n && byte_is_any_ws(bytes[lo])
            invariant
                lo <= n,
                forall|k: int| 0 <= k < lo ==> is_any_ws(#[trigger] whole[k]),
            decreases n - lo,
        {
            lo += 1;
        }
        let mut hi: usize = n;
        while hi > lo && byte_is_any_ws(bytes[hi - 1])
            invariant
                lo <= hi <= n,
                forall|k: int| hi <= k < n ==> is_any_ws(#[trigger] whole[k]),
            decreases hi,
        {
            hi -= 1;
        }
        proof {
            lemma_trim_front_at(whole, lo as int);
            let fs = whole.skip(lo as int);
            assert forall|k: int| hi - lo <= k < fs.len() implies is_any_ws(#[trigger] fs[k]) by {
                assert(fs[k] == whole[k + lo]);
            }
            if hi > lo {
                assert(fs[hi - lo - 1] == whole[hi - 1]);
            }
            lemma_trim_back_at(fs, hi - lo);
            assert(fs.take(hi - lo) =~= whole.subrange(lo as int, hi as int));
        }
        let ghost tseq = whole.subrange(lo as int, hi as int);
        let ghost ls = nl_split(tseq);
        proof {
            assert(trim_bytes(whole) == tseq);
            assert(parse_bytes(whole) == parse_rows(ls, 0));
        }
        let mut g = Grid::all_empty();
        let mut p: usize = lo;
        let mut exhausted: bool = false;
        let mut k: usize = 0;
        while k < 9
            invariant
                grid_wf(g@),
                lo <= p <= hi,
                k <= 9,
                !exhausted ==> nl_split(whole.subrange(p as int, hi as int)) == ls.skip(k as int)
                    && (k as int) < ls.len(),
                exhausted ==> k as int >= ls.len(),
                parse_rows(ls, 0) == glue(g@.take(k as int), parse_rows(ls, k as int)),
                forall|i: int, j: int| in_bounds(i, j) && i >= k ==> #[trigger] g@[i][j] == 0,
            decreases 9 - k,
        {
            if !exhausted {
                let mut e: usize = p;
                while e < hi && bytes[e] != 10
                    invariant
                        p <= e <= hi,
                        forall|m: int| p <= m < e ==> #[trigger] whole[m] != 10,
                    decreases hi - e,
                {
                    e += 1;
                }
                let ghost rem = whole.subrange(p as int, hi as int);
                let ghost line = whole.subrange(p as int, e as int);
                proof {
                    assert forall|m: int| 0 <= m < e - p implies #[trigger] rem[m] != 10 by {
                        assert(rem[m] == whole[m + p]);
                    }
                    if e < hi {
                        assert(rem[e - p] == whole[e as int]);
                    }
                    lemma_nl_pos_at(rem, e - p);
                    assert(rem.take(e - p) =~= line);
                    if e == hi {
                        assert(rem =~= line);
                        assert(nl_split(rem) == seq![line]);
                        assert(ls.skip(k as int).len() == 1);
                        assert(ls.len() == k + 1);
                        assert(ls[k as int] == ls.skip(k as int)[0]);
                        assert(ls[k as int] == line);
                    } else {
                        let nxt = nl_split(rem.skip(e - p + 1));
                        assert(nl_split(rem) == seq![line] + nxt);
                        assert((seq![line] + nxt)[0] == line);
                        assert(ls[k as int] == ls.skip(k as int)[0]);
                        assert(ls[k as int] == line);
                        assert(rem.skip(e - p + 1) =~= whole.subrange(e as int + 1, hi as int));
                        assert((seq![line] + nxt).drop_first() =~= nxt);
                        assert(ls.skip(k as int + 1) =~= (seq![line] + nxt).drop_first());
                        assert(nl_split(whole.subrange(e as int + 1, hi as int)) == ls.skip(
                            k as int + 1,
                        ));
                        assert((k as int + 1) < ls.len()) by {
                            assert(nxt.len() >= 1);
                        }
                    }
                    assert(parse_row(line) == parse_row_rec(
                        line.skip(0),
                        g@[k as int].take(0),
                    )) by {
                        assert(line.skip(0) =~= line);
                        assert(g@[k as int].take(0) =~= Seq::<u8>::empty());
                    }
                }
                let ghost gpre = g@;
                let mut q: usize = p;
                let mut cnt: usize = 0;
                while q < e && cnt < 9
                    invariant
                        p <= q <= e,
                        cnt <= 9,
                        grid_wf(g@),
                        parse_row(line) == parse_row_rec(
                            line.skip(q as int - p as int),
                            g@[k as int].take(cnt as int),
                        ),
                        forall|j: int| cnt <= j < 9 ==> #[trigger] g@[k as int][j] == 0,
                        forall|i: int, j: int| in_bounds(i, j) && i != k ==> #[trigger] g@[i][j]
                            == gpre[i][j],
                    decreases e - q,
                {
                    let b = bytes[q];
                    let ghost suf = line.skip(q as int - p as int);
                    proof {
                        assert(suf.len() == e - q);
                        assert(suf[0] == line[q as int - p as int]);
                        assert(line[q as int - p as int] == whole[q as int]);
                        assert(suf.drop_first() =~= line.skip(q as int - p as int + 1));
                    }
                    if byte_is_line_ws(b) {
                        q += 1;
                    } else if 49 <= b && b <= 57 {
                        let ghost accb = g@[k as int].take(cnt as int);
                        g.set_cell_value(k, cnt, b - 48);
                        proof {
                            assert(g@[k as int].take(cnt as int + 1) =~= accb.push(
                                (b - 48) as u8,
                            ));
                            assert forall|j: int| cnt + 1 <= j < 9 implies #[trigger] g@[
                                k as int
                            ][j] == 0 by {}
                        }
                        cnt += 1;
                        q += 1;
                    } else if b == 95 || b == 46 || b == 63 || b == 42 {
                        proof {
                            assert(g@[k as int][cnt as int] == 0);
                            assert(g@[k as int].take(cnt as int + 1) =~= g@[k as int].take(
                                cnt as int,
                            ).push(0u8));
                        }
                        cnt += 1;
                        q += 1;
                    } else {
                        proof {
                            assert(parse_row(ls[k as int]) is None);
                            assert(parse_rows(ls, k as int) is None);
                            assert(parse_rows(ls, 0) is None);
                        }
                        return Err(ParseGridError);
                    }
                }
                proof {
                    if cnt < 9 {
                        assert(line.skip(q as int - p as int).len() == 0);
                    }
                    assert(parse_row(line) == Some(row_pad(g@[k as int].take(cnt as int))));
                    assert(row_pad(g@[k as int].take(cnt as int)) =~= g@[k as int]);
                    assert(parse_row(ls[k as int]) == Some(g@[k as int]));
                    assert(g@.take(k as int) =~~= gpre.take(k as int));
                }
                if e < hi {
                    p = e + 1;
                } else {
                    exhausted = true;
                    p = hi;
                }
            } else {
                proof {
                    assert(zero_row() =~= g@[k as int]);
                    assert(parse_row_rec(Seq::<u8>::empty(), Seq::<u8>::empty()) == Some(
                        row_pad(Seq::<u8>::empty()),
                    ));
                }
            }
            proof {
                assert(parse_row(ls[k as int]) == Some(g@[k as int]) || (k as int >= ls.len()
                    && zero_row() == g@[k as int]));
                assert(g@.take(k as int + 1) =~= g@.take(k as int).push(g@[k as int]));
                if parse_rows(ls, k as int + 1) is Some {
                    let rest = parse_rows(ls, k as int + 1)->Some_0;
                    assert(parse_rows(ls, k as int) == Some(seq![g@[k as int]] + rest));
                    assert(g@.take(k as int + 1) + rest =~= g@.take(k as int) + (seq![g@[
                        k as int
                    ]] + rest));
                } else {
                    assert(parse_rows(ls, k as int) is None);
                }
            }
            k += 1;
        }
        proof {
            assert(parse_rows(ls, 9) == Some(Seq::<Seq<u8>>::empty()));
            assert(g@.take(9) + Seq::<Seq<u8>>::empty() =~= g@);
            assert(parse_rows(ls, 0) == Some(g@));
        }
        Ok(g)
    }
}

/// The character a cell renders as: its digit, or `_` when empty.
pub open spec fn render_cell_char(d: u8) -> char {
    if 1 <= d <= 9 {
        ((48 + d) as u8) as char
    } else {
        '_'
    }
}

/// Cells `c..9` of one row as text: cells separated by single spaces.
pub open spec fn render_row_chars(row: Seq<u8>, c: int) -> Seq<char>
    decreases 9 - c,
{
    if c >= 9 {
        Seq::empty()
    } else if c == 8 {
        seq![render_cell_char(row[8])]
    } else {
        seq![render_cell_char(row[c]), ' '] + render_row_chars(row, c + 1)
    }
}

/// Rows `r..9` of the board as text: rows separated by single newlines,
/// with no trailing newline.
pub open spec fn render_chars(v: Seq<Seq<u8>>, r: int) -> Seq<char>
    decreases 9 - r,
{
    if r >= 9 {
        Seq::empty()
    } else if r == 8 {
        render_row_chars(v[8], 0)
    } else {
        render_row_chars(v[r], 0) + seq!['\n'] + render_chars(v, r + 1)
    }
}

/// The canonical text of a board.
pub open spec fn grid_text(v: Seq<Seq<u8>>) -> Seq<char> {
    render_chars(v, 0)
}

/// The bytes of an ASCII text.
pub open spec fn chars_to_bytes(t: Seq<char>) -> Seq<u8> {
    Seq::new(t.len(), |i: int| t[i] as u8)
}

impl Grid {
    /// The canonical text of the grid: nine lines of nine characters
    /// separated by single spaces, a digit for a filled cell and `_` for an
    /// empty one.
    #[verifier::loop_isolation(false)]
    #[verifier::rlimit(100)]
    pub fn to_text(&self) -> (out: String)
        requires
            grid_wf(self@),
        ensures
            out@ == grid_text(self@),
    {
        proof {
            reveal_strlit("1");
            reveal_strlit("2");
            reveal_strlit("3");
            reveal_strlit("4");
            reveal_strlit("5");
            reveal_strlit("6");
            reveal_strlit("7");
            reveal_strlit("8");
            reveal_strlit("9");
            reveal_strlit("_");
            reveal_strlit(" ");
            reveal_strlit("\n");
        }
        let mut out = String::new();
        let mut r: usize = 0;
        proof {
            assert(out@ + render_chars(self@, 0) =~= render_chars(self@, 0));
        }
        while r < 9
            invariant
                r <= 9,
                grid_text(self@) == out@ + render_chars(self@, r as int),
            decreases 9 - r,
        {
            let ghost row_tail: Seq<char> = if r < 8 {
                seq!['\n'] + render_chars(self@, r as int + 1)
            } else {
                Seq::<char>::empty()
            };
            proof {
                if r == 8 {
                    assert(out@ + render_chars(self@, 8) =~= out@ + render_row_chars(
                        self@[8],
                        0,
                    ) + row_tail);
                } else {
                    assert(out@ + render_chars(self@, r as int) =~= out@ + render_row_chars(
                        self@[r as int],
                        0,
                    ) + row_tail);
                }
            }
            let mut c: usize = 0;
            while c < 9
                invariant
                    r < 9,
                    c <= 9,
                    grid_text(self@) == out@ + render_row_chars(self@[r as int], c as int)
                        + row_tail,
                decreases 9 - c,
            {
                let d = self.cell_value(r, c);
                let ghost pre = out@;
                if d == 1 {
                    out.append("1");
                } else if d == 2 {
                    out.append("2");
                } else if d == 3 {
                    out.append("3");
                } else if d == 4 {
                    out.append("4");
                } else if d == 5 {
                    out.append("5");
                } else if d == 6 {
                    out.append("6");
                } else if d == 7 {
                    out.append("7");
                } else if d == 8 {
                    out.append("8");
                } else if d == 9 {
                    out.append("9");
                } else {
                    out.append("_");
                }
                proof {
                    assert(out@ =~= pre + seq![
                        render_cell_char(self@[r as int][c as int]),
                    ]);
                }
                if c < 8 {
                    out.append(" ");
                    proof {
                        assert(out@ + render_row_chars(self@[r as int], c as int + 1) =~= pre
                            + render_row_chars(self@[r as int], c as int));
                    }
                } else {
                    proof {
                        assert(out@ + render_row_chars(self@[r as int], c as int + 1) =~= pre
                            + render_row_chars(self@[r as int], c as int));
                    }
                }
                c += 1;
            }
            if r < 8 {
                out.append("\n");
            }
            proof {
                assert(out@ + render_chars(self@, r as int + 1) =~= grid_text(self@));
            }
            r += 1;
        }
        proof {
            assert(out@ =~= grid_text(self@));
        }
        out
    }
}

/// Shape of one rendered row: 17 characters, none of them a newline, and
/// neither end whitespace.
proof fn lemma_render_row_shape(row: Seq<u8>, c: int)
    requires
        row.len() == 9,
        forall|j: int| 0 <= j < 9 ==> #[trigger] row[j] <= 9,
        0 <= c <= 8,
    ensures
        render_row_chars(row, c).len() == 17 - 2 * c,
        forall|m: int| 0 <= m < render_row_chars(row, c).len() ==> (#[trigger] render_row_chars(
            row,
            c,
        )[m] as u8) != 10,
        !is_any_ws(render_row_chars(row, c)[0] as u8),
        !is_any_ws(render_row_chars(row, c)[render_row_chars(row, c).len() - 1] as u8),
    decreases 9 - c,
{
    if c == 8 {
    } else {
        lemma_render_row_shape(row, c + 1);
    }
}

/// Parsing one rendered row gives back exactly that row.
proof fn lemma_parse_row_render(row: Seq<u8>, c: int)
    requires
        row.len() == 9,
        forall|j: int| 0 <= j < 9 ==> #[trigger] row[j] <= 9,
        0 <= c <= 8,
    ensures
        parse_row_rec(chars_to_bytes(render_row_chars(row, c)), row.take(c)) == Some(row),
    decreases 9 - c,
{
    let line = chars_to_bytes(render_row_chars(row, c));
    let cc = render_cell_char(row[c]);
    assert(line[0] == cc as u8);
    if 1 <= row[c] <= 9 {
        assert(cc == ((48 + row[c]) as u8) as char);
        assert(line[0] == 48 + row[c]);
        assert(is_digit_byte(line[0]) && !is_line_ws(line[0]));
        assert((line[0] - 48) as u8 == row[c]);
    } else {
        assert(row[c] == 0);
        assert(line[0] == 95);
        assert(is_marker_byte(line[0]) && !is_line_ws(line[0]) && !is_digit_byte(line[0]));
    }
    let acc1 = if 1 <= row[c] <= 9 {
        row.take(c).push((line[0] - 48) as u8)
    } else {
        row.take(c).push(0u8)
    };
    assert(acc1 =~= row.take(c + 1));
    assert(parse_row_rec(line, row.take(c)) == parse_row_rec(line.drop_first(), row.take(c + 1)));
    if c == 8 {
        assert(row.take(9) =~= row);
        assert(line.drop_first() =~= Seq::<u8>::empty());
        assert(parse_row_rec(Seq::<u8>::empty(), row) == Some(row_pad(row)));
        assert(row_pad(row) == row);
    } else {
        let rest = chars_to_bytes(render_row_chars(row, c + 1));
        assert(line.drop_first()[0] == 32);
        assert(line.drop_first().len() > 0);
        assert(row.take(c + 1).len() < 9);
        assert(parse_row_rec(line.drop_first(), row.take(c + 1)) == parse_row_rec(
            line.drop_first().drop_first(),
            row.take(c + 1),
        ));
        assert(line.drop_first().drop_first() =~= rest);
        lemma_parse_row_render(row, c + 1);
    }
}

/// The rendered board splits back into its nine rendered rows.
proof fn lemma_render_lines(v: Seq<Seq<u8>>, r: int)
    requires
        grid_wf(v),
        0 <= r <= 8,
    ensures
        render_chars(v, r).len() == 18 * (9 - r) - 1,
        !is_any_ws(render_chars(v, r)[0] as u8),
        !is_any_ws(render_chars(v, r)[render_chars(v, r).len() - 1] as u8),
        nl_split(chars_to_bytes(render_chars(v, r))) == Seq::new(
            (9 - r) as nat,
            |m: int| chars_to_bytes(render_row_chars(v[r + m], 0)),
        ),
    decreases 9 - r,
{
    let b = chars_to_bytes(render_chars(v, r));
    lemma_render_row_shape(v[r], 0);
    if r == 8 {
        assert forall|m: int| 0 <= m < b.len() implies #[trigger] b[m] != 10 by {
            assert(b[m] == render_row_chars(v[8], 0)[m] as u8);
        }
        lemma_nl_pos_at(b, b.len() as int);
        assert(nl_split(b) == seq![b]);
        assert(seq![b] =~= Seq::new(1, |m: int| chars_to_bytes(render_row_chars(v[8 + m], 0))));
    } else {
        lemma_render_lines(v, r + 1);
        let head = chars_to_bytes(render_row_chars(v[r], 0));
        let tail = chars_to_bytes(render_chars(v, r + 1));
        assert forall|m: int| 0 <= m < 17 implies #[trigger] b[m] != 10 by {
            assert(b[m] == render_row_chars(v[r], 0)[m] as u8);
        }
        assert(b.len() == 18 * (9 - r) - 1);
        assert(b[17] == ('\n' as u8));
        lemma_nl_pos_at(b, 17);
        assert(b.take(17) =~= head);
        assert(b.skip(18) =~= tail);
        assert(nl_split(b) == seq![head] + nl_split(tail));
        assert(seq![head] + Seq::new((9 - (r + 1)) as nat, |m: int| chars_to_bytes(
            render_row_chars(v[r + 1 + m], 0),
        )) =~= Seq::new((9 - r) as nat, |m: int| chars_to_bytes(render_row_chars(v[r + m], 0))));
        assert(!is_any_ws(b[0] as char as u8));
    }
}

/// Every character a row renders to is ASCII.
proof fn lemma_render_row_ascii(row: Seq<u8>, c: int)
    requires
        0 <= c <= 8,
    ensures
        forall|m: int| 0 <= m < render_row_chars(row, c).len() ==> '\0' <= #[trigger]
            render_row_chars(row, c)[m] <= '\u{7f}',
    decreases 9 - c,
{
    assert forall|x: u8| '\0' <= #[trigger] render_cell_char(x) <= '\u{7f}' by {
        if 1 <= x <= 9 {
            assert(render_cell_char(x) == ((48 + x) as u8) as char);
            assert(48 + x <= 57);
        }
    }
    if c < 8 {
        lemma_render_row_ascii(row, c + 1);
        assert forall|m: int| 0 <= m < render_row_chars(row, c).len() implies '\0' <= #[trigger]
            render_row_chars(row, c)[m] <= '\u{7f}' by {
            if m >= 2 {
                assert(render_row_chars(row, c)[m] == render_row_chars(row, c + 1)[m - 2]);
            }
        }
    }
}

/// Every character the board renders to is ASCII.
proof fn lemma_render_ascii(v: Seq<Seq<u8>>, r: int)
    requires
        0 <= r <= 8,
    ensures
        forall|m: int| 0 <= m < render_chars(v, r).len() ==> '\0' <= #[trigger] render_chars(
            v,
            r,
        )[m] <= '\u{7f}',
    decreases 9 - r,
{
    lemma_render_row_ascii(v[r], 0);
    if r < 8 {
        lemma_render_ascii(v, r + 1);
        let a = render_row_chars(v[r], 0);
        let rest = render_chars(v, r + 1);
        assert forall|m: int| 0 <= m < render_chars(v, r).len() implies '\0' <= #[trigger]
            render_chars(v, r)[m] <= '\u{7f}' by {
            if m < a.len() {
                assert(render_chars(v, r)[m] == a[m]);
            } else if m == a.len() {
                assert(render_chars(v, r)[m] == '\n');
            } else {
                assert(render_chars(v, r)[m] == rest[m - a.len() - 1]);
            }
        }
    }
}

/// Law: the canonical text is ASCII, so its UTF-8 bytes are exactly its
/// characters; with `lemma_text_round_trip`, parsing the bytes of the text
/// that `to_text` returns gives back the grid it was called on.
pub proof fn lemma_grid_text_ascii(v: Seq<Seq<u8>>)
    requires
        grid_wf(v),
    ensures
        vstd::utf8::is_ascii_chars(grid_text(v)),
        vstd::utf8::encode_utf8(grid_text(v)) == chars_to_bytes(grid_text(v)),
{
    lemma_render_ascii(v, 0);
    assert(vstd::utf8::is_ascii_chars(grid_text(v)));
    vstd::utf8::is_ascii_chars_encode_utf8(grid_text(v));
    assert(vstd::utf8::encode_utf8(grid_text(v)) =~= chars_to_bytes(grid_text(v)));
}

/// Parsing the rendered rows rebuilds rows `k..9` of the board.
proof fn lemma_parse_rows_render(v: Seq<Seq<u8>>, ls: Seq<Seq<u8>>, k: int)
    requires
        grid_wf(v),
        0 <= k <= 9,
        ls == Seq::new(9, |m: int| chars_to_bytes(render_row_chars(v[m], 0))),
    ensures
        parse_rows(ls, k) == Some(v.skip(k)),
    decreases 9 - k,
{
    if k == 9 {
        assert(v.skip(9) =~= Seq::<Seq<u8>>::empty());
    } else {
        lemma_parse_row_render(v[k], 0);
        assert(v[k].take(0) =~= Seq::<u8>::empty());
        assert(parse_row(ls[k]) == Some(v[k]));
        lemma_parse_rows_render(v, ls, k + 1);
        assert(seq![v[k]] + v.skip(k + 1) =~= v.skip(k));
    }
}

/// Law: writing a grid out and reading the text back yields the same grid;
/// serialization loses nothing.
pub proof fn lemma_text_round_trip(v: Seq<Seq<u8>>)
    requires
        grid_wf(v),
    ensures
        parse_bytes(chars_to_bytes(grid_text(v))) == Some(v),
{
    let b = chars_to_bytes(grid_text(v));
    lemma_render_lines(v, 0);
    assert(trim_front(b) == b);
    assert(trim_back(b) == b);
    let ls = nl_split(b);
    let ls0 = Seq::new(9, |m: int| chars_to_bytes(render_row_chars(v[m], 0)));
    assert(ls =~= ls0);
    lemma_parse_rows_render(v, ls0, 0);
    assert(v.skip(0) =~= v);
}

impl core::str::FromStr for Grid {
    type Err = ParseGridError;

    fn from_str(s: &str) -> Result<Grid, ParseGridError> {
        Grid::parse(s)
    }
}

} // verus!
