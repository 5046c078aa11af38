//! Cell indices of the rows, columns and 3x3 boxes of the grid.
use vstd::prelude::*;

use crate::sudoku::Sudoku;

verus! {

/// The row that cell `c` (row-major index) lies in.
pub open spec fn row_of(c: int) -> int {
    c / 9
}

/// The column that cell `c` lies in.
pub open spec fn col_of(c: int) -> int {
    c % 9
}

/// The 3x3 box that cell `c` lies in, numbered row-major.
pub open spec fn box_of(c: int) -> int {
    (c / 27) * 3 + (c % 9) / 3
}

/// The place of cell `c` inside its box, row-major.
pub open spec fn box_pos(c: int) -> int {
    3 * ((c / 9) % 3) + (c % 9) % 3
}

/// Distinct cells `a` and `b` share a row, a column or a box.
pub open spec fn is_peer(a: int, b: int) -> bool {
    &&& 0 <= a < 81
    &&& 0 <= b < 81
    &&& a != b
    &&& (row_of(a) == row_of(b) || col_of(a) == col_of(b) || box_of(a) == box_of(b))
}

/// The cells of the unit of kind `k` (0: row, 1: column, 2: box) of `c`.
pub open spec fn same_unit(k: int, c: int, x: int) -> bool {
    0 <= x < 81 && if k == 0 {
        row_of(x) == row_of(c)
    } else if k == 1 {
        col_of(x) == col_of(c)
    } else {
        box_of(x) == box_of(c)
    }
}

/// A list of cell indices in strictly ascending order.
pub open spec fn ascending(s: Seq<u8>) -> bool {
    forall|i: int, j: int| 0 <= i < j < s.len() ==> s[i] < s[j]
}

/// `s` lists, ascending, the other eight cells of the unit of kind `k` of `c`.
pub open spec fn lists_unit(s: Seq<u8>, k: int, c: int) -> bool {
    &&& s.len() == 8
    &&& ascending(s)
    &&& forall|x: u8| #[trigger] s.contains(x) <==> (same_unit(k, c, x as int) && x != c)
}

/// The `j`-th cell (`0 <= j < 9`) of the unit of kind `k` of cell `c`.
pub open spec fn unit_cell(k: int, c: int, j: int) -> int {
    if k == 0 {
        (c / 9) * 9 + j
    } else if k == 1 {
        j * 9 + c % 9
    } else {
        27 * (c / 27) + 3 * ((c % 9) / 3) + 9 * (j / 3) + j % 3
    }
}

/// The nine cells `unit_cell(k, c, 0..9)` lie in the unit and are distinct.
pub proof fn lemma_unit_cell(k: int, c: int, j: int, j2: int)
    requires
        0 <= k < 3,
        0 <= c < 81,
        0 <= j < 9,
        0 <= j2 < 9,
    ensures
        same_unit(k, c, unit_cell(k, c, j)),
        j != j2 ==> unit_cell(k, c, j) != unit_cell(k, c, j2),
{
    if k == 0 {
        lemma_div_unique(unit_cell(k, c, j), c / 9, j, 9);
        lemma_div_unique(unit_cell(k, c, j2), c / 9, j2, 9);
    } else if k == 1 {
        lemma_div_unique(unit_cell(k, c, j), j, c % 9, 9);
        lemma_div_unique(unit_cell(k, c, j2), j2, c % 9, 9);
    } else {
        lemma_box_cell(c, j);
        lemma_box_cell(c, j2);
    }
}

/// Pushing `x` adds `x` and nothing else.
pub proof fn lemma_push_contains(s: Seq<u8>, x: u8)
    ensures
        forall|y: u8| #[trigger] s.push(x).contains(y) <==> (s.contains(y) || y == x),
{
    assert forall|y: u8| #[trigger] s.push(x).contains(y) <==> (s.contains(y) || y == x) by {
        if s.contains(y) {
            let i = choose|i: int| 0 <= i < s.len() && s[i] == y;
            assert(s.push(x)[i] == y);
        }
        if y == x {
            assert(s.push(x)[s.len() as int] == y);
        }
        if s.push(x).contains(y) && y != x {
            let i = choose|i: int| 0 <= i < s.len() + 1 && s.push(x)[i] == y;
            assert(s[i] == y);
        }
    }
}

pub proof fn lemma_div_unique(x: int, q: int, r: int, m: int)
    requires
        m > 0,
        x == q * m + r,
        0 <= r < m,
    ensures
        x / m == q,
        x % m == r,
{
    assert(x / m == q && x % m == r) by (nonlinear_arith)
        requires
            m > 0,
            x == q * m + r,
            0 <= r < m,
    ;
}

pub proof fn lemma_box_cell(c: int, k: int)
    requires
        0 <= c < 81,
        0 <= k < 9,
    ensures
        ({
            let x = 27 * (c / 27) + 3 * ((c % 9) / 3) + 9 * (k / 3) + k % 3;
            0 <= x < 81 && box_of(x) == box_of(c) && box_pos(x) == k
        }),
{
    let rr = c / 27;
    let cc = (c % 9) / 3;
    let a = k / 3;
    let b = k % 3;
    let x = 27 * rr + 3 * cc + 9 * a + b;
    lemma_div_unique(x, rr, 3 * cc + 9 * a + b, 27);
    lemma_div_unique(x, 3 * rr + a, 3 * cc + b, 9);
    lemma_div_unique(3 * cc + b, cc, b, 3);
    lemma_div_unique(3 * rr + a, rr, a, 3);
    lemma_div_unique(k, a, b, 3);
}

proof fn lemma_box_pos(x: int, c: int)
    requires
        0 <= c < 81,
        0 <= x < 81,
        box_of(x) == box_of(c),
    ensures
        x == 27 * (c / 27) + 3 * ((c % 9) / 3) + 9 * (box_pos(x) / 3) + box_pos(x) % 3,
{
    let p = box_pos(x);
    let a = (x / 9) % 3;
    let b = (x % 9) % 3;
    lemma_div_unique(p, a, b, 3);
    lemma_div_unique(x / 9, x / 27, a, 3);
    lemma_div_unique(x % 9, (x % 9) / 3, b, 3);
    lemma_div_unique(x, x / 9, x % 9, 9);
    lemma_div_unique(c % 9, (c % 9) / 3, (c % 9) % 3, 3);
    lemma_div_unique(x % 9, (x % 9) / 3, (x % 9) % 3, 3);
    assert(x / 27 == c / 27 && (x % 9) / 3 == (c % 9) / 3);
}

impl Sudoku {
    /// The other cells of the row of `cell`, ascending.
    pub fn row(cell: u8) -> (r: Vec<u8>)
        requires
            cell < 81,
        ensures
            lists_unit(r@, 0, cell as int),
    {
        let row: u8 = cell / 9;
        let mut r: Vec<u8> = Vec::new();
        let mut k: u8 = 0;
        while k < 9
            invariant
                k <= 9,
                row == cell / 9,
                cell < 81,
                r@.len() == if k <= cell % 9 { k as int } else { k - 1 },
                ascending(r@),
                forall|i: int| 0 <= i < r@.len() ==> r@[i] < row * 9 + k,
                forall|x: u8|
                    #[trigger] r@.contains(x) <==> (x < 81 && x / 9 == row && x % 9 < k && x
                        != cell),
            decreases 9 - k,
        {
            let x: u8 = row * 9 + k;
            let ghost prev = r@;
            if x != cell {
                r.push(x);
                proof {
                    lemma_push_contains(prev, x);
                }
            }
            proof {
                assert forall|y: u8|
                    #[trigger] r@.contains(y) <==> (y < 81 && y / 9 == row && y % 9 < k + 1 && y
                        != cell) by {
                    if y < 81 && y / 9 == row && y % 9 == k {
                        assert(y == x);
                    }
                }
            }
            k = k + 1;
        }
        r
    }

    /// The other cells of the column of `cell`, ascending.
    pub fn column(cell: u8) -> (r: Vec<u8>)
        requires
            cell < 81,
        ensures
            lists_unit(r@, 1, cell as int),
    {
        let column: u8 = cell % 9;
        let mut r: Vec<u8> = Vec::new();
        let mut k: u8 = 0;
        while k < 9
            invariant
                k <= 9,
                column == cell % 9,
                cell < 81,
                r@.len() == if k <= cell / 9 { k as int } else { k - 1 },
                ascending(r@),
                forall|i: int| 0 <= i < r@.len() ==> r@[i] < k * 9 + column,
                forall|x: u8|
                    #[trigger] r@.contains(x) <==> (x < 81 && x % 9 == column && x / 9 < k && x
                        != cell),
            decreases 9 - k,
        {
            let x: u8 = k * 9 + column;
            let ghost prev = r@;
            if x != cell {
                r.push(x);
                proof {
                    lemma_push_contains(prev, x);
                }
            }
            proof {
                assert forall|y: u8|
                    #[trigger] r@.contains(y) <==> (y < 81 && y % 9 == column && y / 9 < k + 1
                        && y != cell) by {
                    if y < 81 && y % 9 == column && y / 9 == k {
                        assert(y == x);
                    }
                }
            }
            k = k + 1;
        }
        r
    }

    /// The other cells of the 3x3 box of `cell`, ascending.
    pub fn square(cell: u8) -> (r: Vec<u8>)
        requires
            cell < 81,
        ensures
            lists_unit(r@, 2, cell as int),
    {
        let base: u8 = 27 * (cell / 27) + 3 * ((cell % 9) / 3);
        let mut r: Vec<u8> = Vec::new();
        let mut k: u8 = 0;
        while k < 9
            invariant
                k <= 9,
                base == 27 * (cell / 27) + 3 * ((cell % 9) / 3),
                cell < 81,
                r@.len() == if k <= box_pos(cell as int) { k as int } else { k - 1 },
                ascending(r@),
                forall|i: int| 0 <= i < r@.len() ==> r@[i] < base + 9 * (k / 3) + k % 3,
                forall|x: u8|
                    #[trigger] r@.contains(x) <==> (x < 81 && box_of(x as int) == box_of(
                        cell as int,
                    ) && box_pos(x as int) < k && x != cell),
            decreases 9 - k,
        {
            let x: u8 = base + 9 * (k / 3) + k % 3;
            proof {
                lemma_box_cell(cell as int, k as int);
                lemma_box_pos(cell as int, cell as int);
            }
            let ghost prev = r@;
            if x != cell {
                r.push(x);
                proof {
                    lemma_push_contains(prev, x);
                }
            }
            proof {
                assert forall|y: u8|
                    #[trigger] r@.contains(y) <==> (y < 81 && box_of(y as int) == box_of(
                        cell as int,
                    ) && box_pos(y as int) < k + 1 && y != cell) by {
                    if y < 81 && box_of(y as int) == box_of(cell as int) && box_pos(y as int)
                        == k {
                        lemma_box_pos(y as int, cell as int);
                        assert(y == x);
                    }
                }
            }
            k = k + 1;
        }
        r
    }

    /// The row, the column and the box of cell `i`, each without `i`.
    pub fn units(i: u8) -> (r: Vec<Vec<u8>>)
        requires
            i < 81,
        ensures
            r@.len() == 3,
            forall|k: int| 0 <= k < 3 ==> lists_unit(#[trigger] r@[k]@, k, i as int),
    {
        let r = vec![Sudoku::row(i), Sudoku::column(i), Sudoku::square(i)];
        r
    }

    /// The row, the column and the box of cell `i` one after the other, each
    /// without `i`; a cell of both the box and the row (or column)
    /// appears twice.
    pub fn peers(i: u8) -> (r: Vec<u8>)
        requires
            i < 81,
        ensures
            r@.len() == 24,
            lists_unit(r@.subrange(0, 8), 0, i as int),
            lists_unit(r@.subrange(8, 16), 1, i as int),
            lists_unit(r@.subrange(16, 24), 2, i as int),
            forall|x: u8| #[trigger] r@.contains(x) <==> is_peer(i as int, x as int),
    {
        let mut r = Sudoku::row(i);
        let mut c = Sudoku::column(i);
        let mut b = Sudoku::square(i);
        let ghost (rs, cs, bs) = (r@, c@, b@);
        r.append(&mut c);
        r.append(&mut b);
        proof {
            assert(r@ =~= rs + cs + bs);
            assert(r@.subrange(0, 8) =~= rs);
            assert(r@.subrange(8, 16) =~= cs);
            assert(r@.subrange(16, 24) =~= bs);
            assert forall|x: u8| #[trigger] r@.contains(x) <==> is_peer(i as int, x as int) by {
                if rs.contains(x) {
                    let j = choose|j: int| 0 <= j < 8 && rs[j] == x;
                    assert(r@[j] == x);
                }
                if cs.contains(x) {
                    let j = choose|j: int| 0 <= j < 8 && cs[j] == x;
                    assert(r@[j + 8] == x);
                }
                if bs.contains(x) {
                    let j = choose|j: int| 0 <= j < 8 && bs[j] == x;
                    assert(r@[j + 16] == x);
                }
                if r@.contains(x) {
                    let j = choose|j: int| 0 <= j < 24 && r@[j] == x;
                    if j < 8 {
                        assert(rs[j] == x);
                    } else if j < 16 {
                        assert(cs[j - 8] == x);
                    } else {
                        assert(bs[j - 16] == x);
                    }
                }
            }
        }
        r
    }
}

} // verus!
