//! A puzzle: 81 digits in row-major order, 0 for an unknown cell.
use vstd::prelude::*;
use vstd::string::{StrSliceExecFns, StringExecFns};

use crate::values::{
    all_solved, fits, grid_wf, is_solution, lemma_solved_grid, ok_at, settled, solved_at, Values,
};

verus! {

/// A puzzle grid; `0` marks an unknown cell.
pub struct Sudoku(pub [u8; 81]);

/// The digits of a puzzle as integers.
pub open spec fn grid_digits(p: Seq<u8>) -> Seq<int> {
    p.map_values(|x: u8| x as int)
}

/// The filled grid `g` keeps every given digit of the puzzle `p`.
pub open spec fn agrees(g: Seq<int>, p: Seq<u8>) -> bool {
    forall|i: int| 0 <= i < 81 && p[i] != 0 ==> #[trigger] g[i] == p[i]
}

/// A character that fills one cell: a digit, or `.` for an unknown cell.
pub open spec fn is_cell_char(c: char) -> bool {
    c == '.' || ('0' <= c && c <= '9')
}

/// The digit a cell character stands for, `0` for `.`.
pub open spec fn cell_value(c: char) -> u8 {
    if c == '.' {
        0
    } else {
        (c as u32 - '0' as u32) as u8
    }
}

/// The cell values that the text `s` spells, in order; every character
/// other than a digit or `.` is skipped.
pub open spec fn cell_values(s: Seq<char>) -> Seq<u8>
    decreases s.len(),
{
    if s.len() == 0 {
        Seq::empty()
    } else if is_cell_char(s.last()) {
        cell_values(s.drop_last()).push(cell_value(s.last()))
    } else {
        cell_values(s.drop_last())
    }
}

proof fn lemma_cell_values_grow(s: Seq<char>, n: int)
    requires
        0 <= n < s.len(),
    ensures
        cell_values(s.take(n + 1)) == if is_cell_char(s[n]) {
            cell_values(s.take(n)).push(cell_value(s[n]))
        } else {
            cell_values(s.take(n))
        },
{
    assert(s.take(n + 1).drop_last() =~= s.take(n));
}

proof fn lemma_cell_values_prefix(s: Seq<char>, n: int, m: int)
    requires
        0 <= n <= m <= s.len(),
    ensures
        cell_values(s.take(n)).len() <= cell_values(s.take(m)).len(),
        cell_values(s.take(m)).take(cell_values(s.take(n)).len() as int) == cell_values(s.take(n)),
    decreases m - n,
{
    if n < m {
        lemma_cell_values_prefix(s, n, m - 1);
        lemma_cell_values_grow(s, m - 1);
        let a = cell_values(s.take(n));
        let b = cell_values(s.take(m - 1));
        assert(cell_values(s.take(m)).take(a.len() as int) =~= b.take(a.len() as int));
    } else {
        assert(cell_values(s.take(n)).take(cell_values(s.take(n)).len() as int) =~= cell_values(s.take(n)));
    }
}

/// The text of one cell: its digit and a space, or `. ` when unknown.
pub open spec fn cell_text(n: u8) -> Seq<char> {
    if n == 0 {
        ". "@
    } else {
        seq![('0' as u32 + n as u32) as char, ' ']
    }
}

/// What stands before cell `i`: the end of the previous row, a horizontal
/// rule above every third row, and a bar before every third column.
pub open spec fn cell_prefix(i: int) -> Seq<char> {
    (if i != 0 && i % 9 == 0 {
        "|\n"@
    } else {
        Seq::empty()
    }) + (if i % 27 == 0 {
        "+------+------+------+\n"@
    } else {
        Seq::empty()
    }) + (if i % 3 == 0 {
        "|"@
    } else {
        Seq::empty()
    })
}

/// The text of the first `n` cells.
pub open spec fn text_upto(p: Seq<u8>, n: int) -> Seq<char>
    decreases n,
{
    if n <= 0 {
        Seq::empty()
    } else {
        text_upto(p, n - 1) + cell_prefix(n - 1) + cell_text(p[n - 1])
    }
}

/// The text of a whole grid, boxes framed by rules and bars.
pub open spec fn grid_text(p: Seq<u8>) -> Seq<char> {
    text_upto(p, 81) + "|\n+------+------+------+\n"@
}

/// The text of one cell with digit `n`.
fn digit_text(n: u8) -> (r: &'static str)
    requires
        n <= 9,
    ensures
        r@ == cell_text(n),
{
    proof {
        reveal_strlit(". ");
        reveal_strlit("1 ");
        reveal_strlit("2 ");
        reveal_strlit("3 ");
        reveal_strlit("4 ");
        reveal_strlit("5 ");
        reveal_strlit("6 ");
        reveal_strlit("7 ");
        reveal_strlit("8 ");
        reveal_strlit("9 ");
    }
    let r = match n {
        0 => ". ",
        1 => "1 ",
        2 => "2 ",
        3 => "3 ",
        4 => "4 ",
        5 => "5 ",
        6 => "6 ",
        7 => "7 ",
        8 => "8 ",
        _ => "9 ",
    };
    assert(r@ =~= cell_text(n));
    r
}

impl Sudoku {
    /// The grid as text, nine lines of digits (`.` for an unknown cell)
    /// with the boxes framed.
    pub fn to_text(&self) -> (r: String)
        requires
            forall|i: int| 0 <= i < 81 ==> #[trigger] self.0@[i] <= 9,
        ensures
            r@ == grid_text(self.0@),
    {
        let mut buffer = String::from_str("");
        proof {
            reveal_strlit("");
            assert(buffer@ =~= text_upto(self.0@, 0));
        }
        let mut i: usize = 0;
        while i < 81
            invariant
                i <= 81,
                forall|j: int| 0 <= j < 81 ==> #[trigger] self.0@[j] <= 9,
                buffer@ == text_upto(self.0@, i as int),
            decreases 81 - i,
        {
            let ghost start = buffer@;
            if i != 0 && i % 9 == 0 {
                buffer.append("|\n");
            }
            if i % 27 == 0 {
                buffer.append("+------+------+------+\n");
            }
            if i % 3 == 0 {
                buffer.append("|");
            }
            buffer.append(digit_text(self.0[i]));
            proof {
                assert(buffer@ =~= start + cell_prefix(i as int) + cell_text(self.0@[i as int]));
            }
            i = i + 1;
        }
        buffer.append("|\n+------+------+------+\n");
        buffer
    }

    /// Reads a puzzle from text: the first 81 digits and dots, row-major,
    /// where `.` and `0` mark an unknown cell and every other character is
    /// skipped. Fails when the text has fewer than 81 of them.
    pub fn try_from(value: &str) -> (r: Result<Sudoku, &'static str>)
        ensures
            match r {
                Ok(p) => cell_values(value@).len() >= 81 && p.0@ == cell_values(value@).take(81),
                Err(e) => cell_values(value@).len() < 81 && e@ == "malformed grid"@,
            },
    {
        let mut grid = [0u8; 81];
        proof {
            assert(value@.take(0) =~= Seq::<char>::empty());
        }
        let n = value.unicode_len();
        let mut i: usize = 0;
        let mut k: usize = 0;
        while k < n
            invariant
                n == value@.len(),
                k <= n,
                i <= 81,
                i == cell_values(value@.take(k as int)).len(),
                grid@.len() == 81,
                forall|j: int| 0 <= j < i ==> #[trigger] grid@[j] == cell_values(value@.take(k as int))[j],
                forall|j: int| i <= j < 81 ==> #[trigger] grid@[j] == 0,
            ensures
                i == 81 || k == n,
            decreases n - k,
        {
            if i > 80 {
                break;
            }
            let c = value.get_char(k);
            proof {
                lemma_cell_values_grow(value@, k as int);
            }
            if c == '.' {
                i = i + 1;
            } else if '0' <= c && c <= '9' {
                grid[i] = (c as u32 - '0' as u32) as u8;
                i = i + 1;
            }
            k = k + 1;
        }
        proof {
            lemma_cell_values_prefix(value@, k as int, value@.len() as int);
            assert(value@.take(value@.len() as int) =~= value@);
        }
        if i == 81 {
            let r = Sudoku(grid);
            proof {
                let t = cell_values(value@.take(k as int));
                assert(t.len() == 81);
                assert(cell_values(value@).take(81) =~= t);
                assert(r.0@ =~= t);
            }
            Ok(r)
        } else {
            Err("malformed grid")
        }
    }

    /// Fills the puzzle with the first solution found and returns `true`;
    /// returns `false`, leaving the puzzle as it was, when there is none.
    pub fn solve(&mut self) -> (r: bool)
        requires
            forall|i: int| 0 <= i < 81 ==> #[trigger] old(self).0@[i] <= 9,
        ensures
            r ==> is_solution(grid_digits(final(self).0@)),
            r ==> agrees(grid_digits(final(self).0@), old(self).0@),
            !r ==> final(self).0@ == old(self).0@,
            (exists|g: Seq<int>| is_solution(g) && #[trigger] agrees(g, old(self).0@)) ==> r,
    {
        let ghost p = self.0@;
        let mut values = Values::new();
        proof {
            assert forall|c: int| 0 <= c < 81 implies #[trigger] ok_at(values.0@, c) by {
                values.0@[c].lemma_count_full(9);
            }
        }
        let mut i: usize = 0;
        while i < 81
            invariant
                i <= 81,
                self.0@ == p,
                p.len() == 81,
                forall|j: int| 0 <= j < 81 ==> #[trigger] p[j] <= 9,
                grid_wf(values.0@),
                settled(values.0@),
                forall|j: int, e: int|
                    0 <= j < i && p[j] != 0 && #[trigger] values.0@[j].has(e) ==> e == p[j],
                forall|g: Seq<int>|
                    is_solution(g) && #[trigger] agrees(g, p) ==> fits(g, values.0@),
            decreases 81 - i,
        {
            let v = self.0[i];
            if v != 0 {
                match values.assign(v, i) {
                    Some(x) => {
                        values = x;
                    },
                    None => {
                        return false;
                    },
                }
            }
            i = i + 1;
        }
        match values.search() {
            Some(solved) => {
                proof {
                    assert forall|j: int, e: int|
                        0 <= j < 81 && p[j] != 0 && #[trigger] solved.0@[j].has(e) implies e
                        == p[j] by {
                        assert(solved.0@[j].subset_of(values.0@[j]));
                        assert(values.0@[j].has(e));
                    }
                }
                let mut k: usize = 0;
                while k < 81
                    invariant
                        k <= 81,
                        self.0@.len() == 81,
                        p.len() == 81,
                        grid_wf(solved.0@),
                        all_solved(solved.0@),
                        forall|j: int, e: int|
                            0 <= j < 81 && p[j] != 0 && #[trigger] solved.0@[j].has(e) ==> e == p[j],
                        forall|j: int| 0 <= j < k ==> #[trigger] solved.0@[j].has(self.0@[j] as int),
                        forall|j: int| k <= j < 81 ==> #[trigger] self.0@[j] == p[j],
                    decreases 81 - k,
                {
                    let d = solved.0[k].n();
                    proof {
                        assert(solved_at(solved.0@, k as int));
                        solved.0@[k as int].lemma_count_zero(9);
                    }
                    self.0[k] = d;
                    k = k + 1;
                }
                proof {
                    let g = grid_digits(self.0@);
                    assert(fits(g, solved.0@));
                    lemma_solved_grid(solved.0@, g);
                    assert forall|j: int| 0 <= j < 81 && p[j] != 0 implies #[trigger] g[j] == p[j] by {
                        assert(solved.0@[j].has(g[j]));
                    }
                }
                true
            },
            None => false,
        }
    }
}

} // verus!
