//! The computing side of the multithreading exercises: checking a sudoku
//! solution and merge sorting a list of numbers, both read from text. The
//! sudoku's rows, columns and boxes are checked by separate threads of the
//! program, each with `unit_complete`; the merge sort sorts its two halves on
//! two threads of its own.
use vstd::prelude::*;
use crate::text::{chars_of, parse_i32, parsed_i32, split_chars, split_on, string_of};

verus! {

broadcast use vstd::seq_lib::group_to_multiset_ensures;

/// The pieces of a text between spaces and newlines.
pub open spec fn number_tokens(s: Seq<char>) -> Seq<Seq<char>> {
    split_on(s, seq!['\n', ' '])
}

/// The 81 cells of a sudoku, row by row, read from the first 81 pieces of the
/// text; `None` when there are fewer or one of them is not an `i32`.
pub open spec fn grid_of(s: Seq<char>) -> Option<Seq<i32>> {
    let t = number_tokens(s);
    if t.len() >= 81 && forall|k: int| 0 <= k < 81 ==> #[trigger] parsed_i32(t[k]) is Some {
        Some(Seq::new(81, |k: int| parsed_i32(t[k])->0))
    } else {
        None
    }
}

/// Whether the nine values hold each of the digits 1 to 9.
pub open spec fn complete(vals: Seq<i32>) -> bool {
    forall|d: i32| 1 <= d <= 9 ==> #[trigger] vals.contains(d)
}

/// Row `r` of the grid `m`.
pub open spec fn row_of(m: Seq<i32>, r: int) -> Seq<i32> {
    Seq::new(9, |c: int| m[9 * r + c])
}

/// Column `c` of the grid `m`.
pub open spec fn col_of(m: Seq<i32>, c: int) -> Seq<i32> {
    Seq::new(9, |r: int| m[9 * r + c])
}

/// The 3x3 box whose top left cell is at row `3 * br` and column `3 * bc`.
pub open spec fn box_of(m: Seq<i32>, br: int, bc: int) -> Seq<i32> {
    Seq::new(9, |k: int| m[9 * (3 * br + k / 3) + 3 * bc + k % 3])
}

/// Whether every row, column and box of the grid holds each digit 1 to 9.
pub open spec fn sudoku_solved(m: Seq<i32>) -> bool {
    &&& forall|r: int| 0 <= r < 9 ==> complete(#[trigger] row_of(m, r))
    &&& forall|c: int| 0 <= c < 9 ==> complete(#[trigger] col_of(m, c))
    &&& forall|br: int, bc: int| 0 <= br < 3 && 0 <= bc < 3 ==> complete(#[trigger] box_of(m, br, bc))
}

/// Whether every cell holds a value from 0 to 9.
pub open spec fn cells_in_range(m: Seq<i32>) -> bool {
    forall|k: int| 0 <= k < m.len() ==> 0 <= #[trigger] m[k] <= 9
}

/// What checking the sudoku in the text `s` gives: `None` when the text has
/// no 81 numbers or a cell lies outside 0 to 9, else whether it is solved.
pub open spec fn sudoku_result(s: Seq<char>) -> Option<bool> {
    match grid_of(s) {
        None => None,
        Some(m) => if cells_in_range(m) {
            Some(sudoku_solved(m))
        } else {
            None
        },
    }
}

/// Reads the 81 cells of a sudoku from a text.
pub fn parse_grid(contents: &str) -> (r: Option<Vec<i32>>)
    ensures
        match grid_of(contents@) {
            None => r is None,
            Some(m) => r matches Some(v) && v@ == m,
        },
{
    let seps: [char; 2] = ['\n', ' '];
    let toks = split_chars(&chars_of(contents), &seps);
    assert(seps@ =~= seq!['\n', ' ']);
    let ghost t = number_tokens(contents@);
    if toks.len() < 81 {
        return None;
    }
    let mut m: Vec<i32> = Vec::new();
    let mut k: usize = 0;
    while k < 81
        invariant
            k <= 81 <= toks@.len(),
            t == number_tokens(contents@),
            toks@.len() == t.len(),
            forall|j: int| 0 <= j < toks@.len() ==> #[trigger] toks@[j]@ == t[j],
            m@.len() == k,
            forall|j: int| 0 <= j < k ==> parsed_i32(#[trigger] t[j]) == Some(m@[j]),
        decreases 81 - k,
    {
        let s = string_of(&toks[k]);
        assert(s@ == t[k as int]);
        match parse_i32(s.as_str()) {
            None => {
                assert(parsed_i32(t[k as int]) is None);
                return None;
            },
            Some(v) => {
                m.push(v);
            },
        }
        k += 1;
    }
    assert(m@ =~= Seq::new(81, |k: int| parsed_i32(t[k])->0));
    Some(m)
}

/// Whether the nine values, each from 0 to 9, hold each digit 1 to 9.
pub fn unit_complete(vals: &Vec<i32>) -> (r: bool)
    requires
        vals@.len() == 9,
        forall|k: int| 0 <= k < 9 ==> 0 <= #[trigger] vals@[k] <= 9,
    ensures
        r == complete(vals@),
{
    let mut ocr: Vec<bool> = Vec::new();
    let mut d: usize = 0;
    while d < 10
        invariant
            d <= 10,
            ocr@.len() == d,
            forall|e: int| 0 <= e < d ==> !#[trigger] ocr@[e],
        decreases 10 - d,
    {
        ocr.push(false);
        d += 1;
    }
    let mut k: usize = 0;
    while k < 9
        invariant
            k <= 9,
            vals@.len() == 9,
            forall|j: int| 0 <= j < 9 ==> 0 <= #[trigger] vals@[j] <= 9,
            ocr@.len() == 10,
            forall|e: int| 0 <= e < 10 ==> #[trigger] ocr@[e] == vals@.take(k as int).contains(e as i32),
        decreases 9 - k,
    {
        let v = vals[k];
        let ghost before = ocr@;
        ocr.set(v as usize, true);
        assert(ocr@ == before.update(v as int, true));
        assert forall|e: int| 0 <= e < 10 implies #[trigger] ocr@[e] == vals@.take(k + 1 as int).contains(e as i32) by {
            assert(vals@.take(k + 1 as int) == vals@.take(k as int).push(v));
            let t = vals@.take(k as int);
            if e == v as int {
                assert(t.push(v)[k as int] == v);
            }
            if t.contains(e as i32) {
                let j = choose|j: int| 0 <= j < t.len() && #[trigger] t[j] == e as i32;
                assert(t.push(v)[j] == e as i32);
            }
            if t.push(v).contains(e as i32) {
                let j = choose|j: int| 0 <= j < t.len() + 1 && #[trigger] t.push(v)[j] == e as i32;
                if j < k {
                    assert(t[j] == e as i32);
                }
            }
        }
        k += 1;
    }
    assert(vals@.take(9) == vals@);
    let mut ans = true;
    let mut e: usize = 1;
    while e < 10
        invariant
            1 <= e <= 10,
            ocr@.len() == 10,
            forall|x: int| 0 <= x < 10 ==> #[trigger] ocr@[x] == vals@.contains(x as i32),
            ans == forall|x: int| 1 <= x < e ==> #[trigger] ocr@[x],
        decreases 10 - e,
    {
        ans = ans && ocr[e];
        e += 1;
    }
    assert(ans == complete(vals@)) by {
        if ans {
            assert forall|x: i32| 1 <= x <= 9 implies #[trigger] vals@.contains(x) by {
                assert(ocr@[x as int]);
            }
        } else {
            let x = choose|x: int| 1 <= x < 10 && !ocr@[x];
            assert(!vals@.contains(x as i32));
        }
    }
    ans
}

/// Row `r` of the grid `m`.
pub fn row_values(m: &Vec<i32>, r: usize) -> (vals: Vec<i32>)
    requires
        m@.len() == 81,
        r < 9,
    ensures
        vals@ == row_of(m@, r as int),
{
    let mut vals: Vec<i32> = Vec::new();
    let mut c: usize = 0;
    while c < 9
        invariant
            r < 9,
            c <= 9,
            m@.len() == 81,
            vals@ == row_of(m@, r as int).take(c as int),
        decreases 9 - c,
    {
        vals.push(m[9 * r + c]);
        c += 1;
    }
    vals
}

/// Column `c` of the grid `m`.
pub fn col_values(m: &Vec<i32>, c: usize) -> (vals: Vec<i32>)
    requires
        m@.len() == 81,
        c < 9,
    ensures
        vals@ == col_of(m@, c as int),
{
    let mut vals: Vec<i32> = Vec::new();
    let mut r: usize = 0;
    while r < 9
        invariant
            c < 9,
            r <= 9,
            m@.len() == 81,
            vals@ == col_of(m@, c as int).take(r as int),
        decreases 9 - r,
    {
        vals.push(m[9 * r + c]);
        r += 1;
    }
    vals
}

/// The box at box row `br` and box column `bc` of the grid `m`.
pub fn box_values(m: &Vec<i32>, br: usize, bc: usize) -> (vals: Vec<i32>)
    requires
        m@.len() == 81,
        br < 3,
        bc < 3,
    ensures
        vals@ == box_of(m@, br as int, bc as int),
{
    let mut vals: Vec<i32> = Vec::new();
    let mut k: usize = 0;
    while k < 9
        invariant
            br < 3,
            bc < 3,
            k <= 9,
            m@.len() == 81,
            vals@ == box_of(m@, br as int, bc as int).take(k as int),
        decreases 9 - k,
    {
        vals.push(m[9 * (3 * br + k / 3) + 3 * bc + k % 3]);
        k += 1;
    }
    vals
}

proof fn lemma_unit_in_range(m: Seq<i32>, vals: Seq<i32>, idx: spec_fn(int) -> int)
    requires
        m.len() == 81,
        cells_in_range(m),
        vals.len() == 9,
        forall|k: int| 0 <= k < 9 ==> 0 <= #[trigger] idx(k) < 81 && vals[k] == m[idx(k)],
    ensures
        forall|k: int| 0 <= k < 9 ==> 0 <= #[trigger] vals[k] <= 9,
{
    assert forall|k: int| 0 <= k < 9 implies 0 <= #[trigger] vals[k] <= 9 by {
        assert(0 <= m[idx(k)] <= 9);
    }
}

/// Whether the grid, whose cells lie in 0 to 9, is a solved sudoku.
pub fn grid_solved(m: &Vec<i32>) -> (r: bool)
    requires
        m@.len() == 81,
        cells_in_range(m@),
    ensures
        r == sudoku_solved(m@),
{
    let mut ans = true;
    let mut u: usize = 0;
    while u < 9
        invariant
            u <= 9,
            m@.len() == 81,
            cells_in_range(m@),
            ans == (forall|r: int| 0 <= r < u ==> complete(#[trigger] row_of(m@, r))),
        decreases 9 - u,
    {
        let vals = row_values(m, u);
        proof {
            lemma_unit_in_range(m@, vals@, |k: int| 9 * u + k);
        }
        ans = ans && unit_complete(&vals);
        u += 1;
    }
    let mut u: usize = 0;
    while u < 9
        invariant
            u <= 9,
            m@.len() == 81,
            cells_in_range(m@),
            ans == ((forall|r: int| 0 <= r < 9 ==> complete(#[trigger] row_of(m@, r))) && (forall|
                c: int,
            |
                0 <= c < u ==> complete(#[trigger] col_of(m@, c)))),
        decreases 9 - u,
    {
        let vals = col_values(m, u);
        proof {
            lemma_unit_in_range(m@, vals@, |k: int| 9 * k + u);
        }
        ans = ans && unit_complete(&vals);
        u += 1;
    }
    let mut b: usize = 0;
    while b < 9
        invariant
            b <= 9,
            m@.len() == 81,
            cells_in_range(m@),
            ans == ((forall|r: int| 0 <= r < 9 ==> complete(#[trigger] row_of(m@, r))) && (forall|
                c: int,
            |
                0 <= c < 9 ==> complete(#[trigger] col_of(m@, c))) && (forall|br: int, bc: int|
                0 <= br < 3 && 0 <= bc < 3 && 3 * br + bc < b ==> complete(
                    #[trigger] box_of(m@, br, bc),
                ))),
        decreases 9 - b,
    {
        let br = b / 3;
        let bc = b % 3;
        let vals = box_values(m, br, bc);
        proof {
            lemma_unit_in_range(m@, vals@, |k: int| 9 * (3 * br + k / 3) + 3 * bc + k % 3);
        }
        ans = ans && unit_complete(&vals);
        assert(3 * br + bc == b);
        b += 1;
    }
    ans
}

/// Checks the sudoku written in `contents`: `None` when the text has no 81
/// numbers or a cell lies outside 0 to 9, else whether every row, column and
/// box holds each digit 1 to 9.
pub fn check_sudoku(contents: &str) -> (r: Option<bool>)
    ensures
        r == sudoku_result(contents@),
{
    match parse_grid(contents) {
        None => None,
        Some(m) => {
            let mut k: usize = 0;
            while k < 81
                invariant
                    k <= 81,
                    grid_of(contents@) == Some(m@),
                    m@.len() == 81,
                    forall|j: int| 0 <= j < k ==> 0 <= #[trigger] m@[j] <= 9,
                decreases 81 - k,
            {
                if m[k] < 0 || m[k] > 9 {
                    assert(!(0 <= m@[k as int] <= 9));
                    return None;
                }
                k += 1;
            }
            Some(grid_solved(&m))
        },
    }
}

/// The cell at row `r` and column `c` of the grid `m` (81 cells, row by row).
pub open spec fn cell(m: Seq<i32>, r: int, c: int) -> i32 {
    m[9 * r + c]
}

/// The cell at row `i` and column `j` of the 3x3 box whose top left cell is
/// at row `3 * br` and column `3 * bc`.
pub open spec fn box_cell(m: Seq<i32>, br: int, bc: int, i: int, j: int) -> i32 {
    m[9 * (3 * br + i) + 3 * bc + j]
}

/// Whether the digit `d` occurs in row `r` of the grid `m`.
pub open spec fn in_row(m: Seq<i32>, r: int, d: i32) -> bool {
    exists|c: int| 0 <= c < 9 && #[trigger] cell(m, r, c) == d
}

/// Whether the digit `d` occurs in column `c` of the grid `m`.
pub open spec fn in_col(m: Seq<i32>, c: int, d: i32) -> bool {
    exists|r: int| 0 <= r < 9 && #[trigger] cell(m, r, c) == d
}

/// Whether the digit `d` occurs in the 3x3 box `(br, bc)` of the grid `m`.
pub open spec fn in_box(m: Seq<i32>, br: int, bc: int, d: i32) -> bool {
    exists|i: int, j: int| 0 <= i < 3 && 0 <= j < 3 && #[trigger] box_cell(m, br, bc, i, j) == d
}

proof fn lemma_units(m: Seq<i32>)
    requires
        m.len() == 81,
    ensures
        (forall|r: int| 0 <= r < 9 ==> complete(#[trigger] row_of(m, r))) <==> (forall|
            r: int,
            d: i32,
        | 0 <= r < 9 && 1 <= d <= 9 ==> #[trigger] in_row(m, r, d)),
        (forall|c: int| 0 <= c < 9 ==> complete(#[trigger] col_of(m, c))) <==> (forall|
            c: int,
            d: i32,
        | 0 <= c < 9 && 1 <= d <= 9 ==> #[trigger] in_col(m, c, d)),
        (forall|br: int, bc: int|
            0 <= br < 3 && 0 <= bc < 3 ==> complete(#[trigger] box_of(m, br, bc))) <==> (forall|
            br: int,
            bc: int,
            d: i32,
        | 0 <= br < 3 && 0 <= bc < 3 && 1 <= d <= 9 ==> #[trigger] in_box(m, br, bc, d)),
{
    assert forall|r: int, d: i32| 0 <= r < 9 && 1 <= d <= 9 implies (#[trigger] row_of(
        m,
        r,
    ).contains(d) <==> in_row(m, r, d)) by {
        if row_of(m, r).contains(d) {
            let k = choose|k: int| 0 <= k < 9 && row_of(m, r)[k] == d;
            assert(cell(m, r, k) == d);
        }
        if in_row(m, r, d) {
            let c = choose|c: int| 0 <= c < 9 && #[trigger] cell(m, r, c) == d;
            assert(row_of(m, r)[c] == d);
        }
    }
    assert forall|c: int, d: i32| 0 <= c < 9 && 1 <= d <= 9 implies (#[trigger] col_of(
        m,
        c,
    ).contains(d) <==> in_col(m, c, d)) by {
        if col_of(m, c).contains(d) {
            let k = choose|k: int| 0 <= k < 9 && col_of(m, c)[k] == d;
            assert(cell(m, k, c) == d);
        }
        if in_col(m, c, d) {
            let r = choose|r: int| 0 <= r < 9 && #[trigger] cell(m, r, c) == d;
            assert(col_of(m, c)[r] == d);
        }
    }
    assert forall|br: int, bc: int, d: i32|
        0 <= br < 3 && 0 <= bc < 3 && 1 <= d <= 9 implies (#[trigger] box_of(m, br, bc).contains(d)
        <==> in_box(m, br, bc, d)) by {
        if box_of(m, br, bc).contains(d) {
            let k = choose|k: int| 0 <= k < 9 && box_of(m, br, bc)[k] == d;
            assert(box_cell(m, br, bc, k / 3, k % 3) == d);
        }
        if in_box(m, br, bc, d) {
            let (i, j) = choose|i: int, j: int|
                0 <= i < 3 && 0 <= j < 3 && #[trigger] box_cell(m, br, bc, i, j) == d;
            let k = 3 * i + j;
            assert(k / 3 == i && k % 3 == j);
            assert(box_of(m, br, bc)[k] == d);
        }
    }
    if forall|r: int| 0 <= r < 9 ==> complete(#[trigger] row_of(m, r)) {
        assert forall|r: int, d: i32| 0 <= r < 9 && 1 <= d <= 9 implies #[trigger] in_row(m, r, d) by {
            assert(complete(row_of(m, r)));
            assert(row_of(m, r).contains(d));
        }
    }
    if forall|r: int, d: i32| 0 <= r < 9 && 1 <= d <= 9 ==> #[trigger] in_row(m, r, d) {
        assert forall|r: int| 0 <= r < 9 implies complete(#[trigger] row_of(m, r)) by {
            assert forall|d: i32| 1 <= d <= 9 implies #[trigger] row_of(m, r).contains(d) by {
                assert(in_row(m, r, d));
            }
        }
    }
    if forall|c: int| 0 <= c < 9 ==> complete(#[trigger] col_of(m, c)) {
        assert forall|c: int, d: i32| 0 <= c < 9 && 1 <= d <= 9 implies #[trigger] in_col(m, c, d) by {
            assert(complete(col_of(m, c)));
            assert(col_of(m, c).contains(d));
        }
    }
    if forall|c: int, d: i32| 0 <= c < 9 && 1 <= d <= 9 ==> #[trigger] in_col(m, c, d) {
        assert forall|c: int| 0 <= c < 9 implies complete(#[trigger] col_of(m, c)) by {
            assert forall|d: i32| 1 <= d <= 9 implies #[trigger] col_of(m, c).contains(d) by {
                assert(in_col(m, c, d));
            }
        }
    }
    if forall|br: int, bc: int| 0 <= br < 3 && 0 <= bc < 3 ==> complete(#[trigger] box_of(m, br, bc)) {
        assert forall|br: int, bc: int, d: i32|
            0 <= br < 3 && 0 <= bc < 3 && 1 <= d <= 9 implies #[trigger] in_box(m, br, bc, d) by {
            assert(complete(box_of(m, br, bc)));
            assert(box_of(m, br, bc).contains(d));
        }
    }
    if forall|br: int, bc: int, d: i32|
        0 <= br < 3 && 0 <= bc < 3 && 1 <= d <= 9 ==> #[trigger] in_box(m, br, bc, d) {
        assert forall|br: int, bc: int| 0 <= br < 3 && 0 <= bc < 3 implies complete(
            #[trigger] box_of(m, br, bc),
        ) by {
            assert forall|d: i32| 1 <= d <= 9 implies #[trigger] box_of(m, br, bc).contains(d) by {
                assert(in_box(m, br, bc, d));
            }
        }
    }
}

/// A sudoku text is reported solved exactly when it holds 81 numbers, each
/// from 0 to 9, and each of the digits 1 to 9 occurs in every row, in every
/// column and in every one of the nine 3x3 boxes.
pub proof fn law_sudoku_answer(s: Seq<char>)
    ensures
        sudoku_result(s) == Some(true) <==> (grid_of(s) matches Some(m) && cells_in_range(m) && (
        forall|r: int, d: i32| 0 <= r < 9 && 1 <= d <= 9 ==> #[trigger] in_row(m, r, d)) && (
        forall|c: int, d: i32| 0 <= c < 9 && 1 <= d <= 9 ==> #[trigger] in_col(m, c, d)) && (
        forall|br: int, bc: int, d: i32|
            0 <= br < 3 && 0 <= bc < 3 && 1 <= d <= 9 ==> #[trigger] in_box(m, br, bc, d))),
{
    if let Some(m) = grid_of(s) {
        lemma_units(m);
    }
}

/// A complete unit (row, column or box) of nine cells holds only the digits
/// 1 to 9, and each of them: in particular it holds a 9, and a unit with a
/// blank (0) cell is never complete.
pub proof fn law_complete_unit(vals: Seq<i32>)
    requires
        vals.len() == 9,
        complete(vals),
    ensures
        forall|k: int| 0 <= k < 9 ==> 1 <= #[trigger] vals[k] <= 9,
        forall|d: i32| 1 <= d <= 9 ==> #[trigger] vals.contains(d),
        vals.contains(9),
        !vals.contains(0),
{
    broadcast use vstd::set::group_set_axioms, vstd::seq_lib::seq_to_set_is_finite;

    let digits = set![1i32, 2i32, 3i32, 4i32, 5i32, 6i32, 7i32, 8i32, 9i32];
    assert(digits.len() == 9);
    assert(vals.contains(9i32));
    vals.lemma_cardinality_of_set();
    assert forall|k: int| 0 <= k < 9 implies 1 <= #[trigger] vals[k] <= 9 by {
        if !(1 <= vals[k] <= 9) {
            let all = digits.insert(vals[k]);
            assert(!digits.contains(vals[k]));
            assert(all.len() == 10);
            assert forall|x: i32| all.contains(x) implies vals.to_set().contains(x) by {
                if x != vals[k] {
                    assert(digits.contains(x));
                    assert(vals.contains(x));
                }
            }
            assert(all.subset_of(vals.to_set()));
            vstd::set_lib::lemma_len_subset(all, vals.to_set());
        }
    }
    if vals.contains(0) {
        let k = choose|k: int| 0 <= k < vals.len() && vals[k] == 0;
        assert(1 <= vals[k] <= 9);
    }
}

/// A grid reported solved holds no blank: every cell is one of the digits 1 to 9.
pub proof fn law_solved_has_no_blank(s: Seq<char>)
    ensures
        sudoku_result(s) == Some(true) ==> forall|k: int|
            0 <= k < 81 ==> 1 <= #[trigger] grid_of(s)->0[k] <= 9,
{
    if sudoku_result(s) == Some(true) {
        let m = grid_of(s)->0;
        assert forall|k: int| 0 <= k < 81 implies 1 <= #[trigger] m[k] <= 9 by {
            let r = k / 9;
            let c = k % 9;
            assert(complete(row_of(m, r)));
            law_complete_unit(row_of(m, r));
            assert(row_of(m, r)[c] == m[k]);
        }
    }
}

/// Whether `s` is in ascending order.
pub open spec fn sorted(s: Seq<i32>) -> bool {
    forall|i: int, j: int| 0 <= i <= j < s.len() ==> s[i] <= s[j]
}

/// Sorts `vec[st..=md]` and `vec[md1..=ed]` with `m_sort`, each on a thread
/// of its own started by `ScopedThreadBuilder::spawn` inside `crossbeam::scope`.
/// The scope joins the threads before it returns. When both threads started,
/// each half comes back as `m_sort` ensures it: in ascending order, with the
/// values of that part of `vec`. `None` when the system could not start one of
/// the threads (the builder's `io::Error`), or when `scope` reports a panicked
/// thread; then nothing is said of the halves.
#[verifier::external_body]
fn sort_halves(vec: &Vec<i32>, st: usize, md: usize, md1: usize, ed: usize) -> (r: Option<
    (Vec<i32>, Vec<i32>),
>)
    requires
        st <= md,
        md1 == md + 1,
        md1 <= ed < vec@.len(),
    ensures
        r matches Some((left, right)) ==> {
            &&& sorted(left@)
            &&& left@.to_multiset() == vec@.subrange(st as int, md + 1).to_multiset()
            &&& sorted(right@)
            &&& right@.to_multiset() == vec@.subrange(md1 as int, ed + 1).to_multiset()
        },
{
    let mut vec_l = Vec::new();
    let mut vec_r = Vec::new();
    let started = crossbeam::scope(|s| {
        let l = s.builder().spawn(|_| vec_l = m_sort(vec, st, md));
        let r = s.builder().spawn(|_| vec_r = m_sort(vec, md1, ed));
        l.is_ok() && r.is_ok()
    });
    match started {
        Ok(true) => Some((vec_l, vec_r)),
        _ => None,
    }
}

/// `vec[st..=ed]` in ascending order: the same values, each as often. The
/// two halves are sorted at the same time, on two threads; one after the
/// other when the threads cannot be started.
pub fn m_sort(vec: &Vec<i32>, st: usize, ed: usize) -> (r: Vec<i32>)
    requires
        st <= ed < vec@.len(),
    ensures
        sorted(r@),
        r@.to_multiset() == vec@.subrange(st as int, ed + 1).to_multiset(),
    decreases ed - st,
{
    if st == ed {
        let mut r: Vec<i32> = Vec::new();
        r.push(vec[st]);
        assert(r@ == vec@.subrange(st as int, ed + 1));
        return r;
    }
    let md = st + (ed - st) / 2;
    let (vec_l, vec_r) = match sort_halves(vec, st, md, md + 1, ed) {
        Some(halves) => halves,
        None => (m_sort(vec, st, md), m_sort(vec, md + 1, ed)),
    };
    let mut vec_a: Vec<i32> = Vec::new();
    let n_vec_l = vec_l.len();
    let n_vec_r = vec_r.len();
    let mut i: usize = 0;
    let mut j: usize = 0;
    while i < n_vec_l && j < n_vec_r
        invariant
            n_vec_l == vec_l@.len(),
            n_vec_r == vec_r@.len(),
            i <= n_vec_l,
            j <= n_vec_r,
            sorted(vec_l@),
            sorted(vec_r@),
            sorted(vec_a@),
            vec_a@.to_multiset() == vec_l@.take(i as int).to_multiset().add(
                vec_r@.take(j as int).to_multiset(),
            ),
            forall|k: int| 0 <= k < vec_a@.len() && i < n_vec_l ==> vec_a@[k] <= vec_l@[i as int],
            forall|k: int| 0 <= k < vec_a@.len() && j < n_vec_r ==> vec_a@[k] <= vec_r@[j as int],
        decreases n_vec_l + n_vec_r - i - j,
    {
        if vec_l[i] < vec_r[j] {
            vec_a.push(vec_l[i]);
            assert(vec_l@.take(i + 1 as int) == vec_l@.take(i as int).push(vec_l@[i as int]));
            i = i + 1;
        } else {
            vec_a.push(vec_r[j]);
            assert(vec_r@.take(j + 1 as int) == vec_r@.take(j as int).push(vec_r@[j as int]));
            j = j + 1;
        }
    }
    while i < n_vec_l
        invariant
            n_vec_l == vec_l@.len(),
            n_vec_r == vec_r@.len(),
            i <= n_vec_l,
            j <= n_vec_r,
            i < n_vec_l ==> j == n_vec_r,
            sorted(vec_l@),
            sorted(vec_r@),
            sorted(vec_a@),
            forall|k: int| 0 <= k < vec_a@.len() && j < n_vec_r ==> vec_a@[k] <= vec_r@[j as int],
            vec_a@.to_multiset() == vec_l@.take(i as int).to_multiset().add(
                vec_r@.take(j as int).to_multiset(),
            ),
            forall|k: int| 0 <= k < vec_a@.len() && i < n_vec_l ==> vec_a@[k] <= vec_l@[i as int],
        decreases n_vec_l - i,
    {
        vec_a.push(vec_l[i]);
        assert(vec_l@.take(i + 1 as int) == vec_l@.take(i as int).push(vec_l@[i as int]));
        i = i + 1;
    }
    while j < n_vec_r
        invariant
            n_vec_l == vec_l@.len(),
            n_vec_r == vec_r@.len(),
            i == n_vec_l,
            j <= n_vec_r,
            sorted(vec_r@),
            sorted(vec_a@),
            vec_a@.to_multiset() == vec_l@.take(i as int).to_multiset().add(
                vec_r@.take(j as int).to_multiset(),
            ),
            forall|k: int| 0 <= k < vec_a@.len() && j < n_vec_r ==> vec_a@[k] <= vec_r@[j as int],
        decreases n_vec_r - j,
    {
        vec_a.push(vec_r[j]);
        assert(vec_r@.take(j + 1 as int) == vec_r@.take(j as int).push(vec_r@[j as int]));
        j = j + 1;
    }
    assert(vec_l@.take(i as int) == vec_l@);
    assert(vec_r@.take(j as int) == vec_r@);
    proof {
        let a = vec@.subrange(st as int, md + 1);
        let b = vec@.subrange(md + 1, ed + 1);
        assert(a + b == vec@.subrange(st as int, ed + 1));
        vstd::seq_lib::lemma_multiset_commutative(a, b);
    }
    vec_a
}

/// The numbers of a text separated by spaces and newlines; `None` when a
/// piece is not an `i32` (an empty piece included).
pub open spec fn numbers_of(s: Seq<char>) -> Option<Seq<i32>> {
    let t = number_tokens(s);
    if forall|k: int| 0 <= k < t.len() ==> #[trigger] parsed_i32(t[k]) is Some {
        Some(Seq::new(t.len(), |k: int| parsed_i32(t[k])->0))
    } else {
        None
    }
}

/// Reads the numbers of `contents`, separated by spaces and newlines; `None`
/// when a piece between them is not an `i32`.
pub fn parse_numbers(contents: &str) -> (r: Option<Vec<i32>>)
    ensures
        match numbers_of(contents@) {
            None => r is None,
            Some(nums) => r matches Some(v) && v@ == nums,
        },
        r matches Some(v) ==> v@.len() >= 1,
{
    let seps: [char; 2] = [' ', '\n'];
    let toks = split_chars(&chars_of(contents), &seps);
    assert forall|c: char| seps@.contains(c) == seq!['\n', ' '].contains(c) by {
        if seq!['\n', ' '].contains(c) {
            let k = choose|k: int| 0 <= k < 2 && seq!['\n', ' '][k] == c;
            assert(k == 0 || k == 1);
            assert(seps@[1 - k] == c);
        }
        if seps@.contains(c) {
            let k = choose|k: int| 0 <= k < 2 && seps@[k] == c;
            assert(seq!['\n', ' '][1 - k] == c);
        }
    }
    proof {
        lemma_split_same_seps(contents@, seps@, seq!['\n', ' ']);
        crate::text::lemma_split_on_len(contents@, seq!['\n', ' ']);
    }
    let ghost t = number_tokens(contents@);
    let mut nums: Vec<i32> = Vec::new();
    let mut k: usize = 0;
    while k < toks.len()
        invariant
            k <= toks@.len(),
            t == number_tokens(contents@),
            toks@.len() == t.len(),
            forall|j: int| 0 <= j < toks@.len() ==> #[trigger] toks@[j]@ == t[j],
            nums@.len() == k,
            forall|j: int| 0 <= j < k ==> parsed_i32(#[trigger] t[j]) == Some(nums@[j]),
        decreases toks.len() - k,
    {
        let s = string_of(&toks[k]);
        assert(s@ == t[k as int]);
        match parse_i32(s.as_str()) {
            None => {
                assert(parsed_i32(t[k as int]) is None);
                return None;
            },
            Some(v) => {
                nums.push(v);
            },
        }
        k += 1;
    }
    assert(nums@ =~= Seq::new(t.len(), |k: int| parsed_i32(t[k])->0));
    Some(nums)
}

/// Reads the numbers of `contents` and sorts them; `None` when a piece
/// between spaces and newlines is not an `i32`.
pub fn check_sort(contents: &str) -> (r: Option<Vec<i32>>)
    ensures
        match numbers_of(contents@) {
            None => r is None,
            Some(nums) => r matches Some(v) && sorted(v@) && v@.to_multiset() == nums.to_multiset(),
        },
{
    match parse_numbers(contents) {
        None => None,
        Some(nums) => {
            let n = nums.len() - 1;
            let sorted_nums = m_sort(&nums, 0, n);
            assert(nums@.subrange(0, n + 1) == nums@);
            Some(sorted_nums)
        },
    }
}

proof fn lemma_split_same_seps(s: Seq<char>, a: Seq<char>, b: Seq<char>)
    requires
        forall|c: char| a.contains(c) == b.contains(c),
    ensures
        split_on(s, a) == split_on(s, b),
    decreases s.len(),
{
    if s.len() > 0 {
        lemma_split_same_seps(s.drop_last(), a, b);
    }
}

} // verus!
