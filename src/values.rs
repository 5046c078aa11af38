//! The candidates of every cell, and the propagation and search that
//! narrow them down to a solution.
use vstd::prelude::*;

use vstd::set_lib::{lemma_int_range, lemma_map_size, lemma_subset_equality, set_int_range};

use crate::geometry::{is_peer, lemma_unit_cell, lists_unit, same_unit, unit_cell};
use crate::possible::Possible;
use crate::sudoku::Sudoku;

verus! {

/// The candidate set of each of the 81 cells, row-major.
#[derive(Clone, Debug)]
pub struct Values(pub Vec<Possible>);

/// 81 well-formed candidate sets.
pub open spec fn grid_wf(s: Seq<Possible>) -> bool {
    s.len() == 81 && forall|i: int| 0 <= i < 81 ==> #[trigger] s[i].wf()
}

/// The number of candidates over the first `n` cells.
pub open spec fn total_upto(s: Seq<Possible>, n: int) -> nat
    decreases n,
{
    if n <= 0 {
        0
    } else {
        total_upto(s, n - 1) + s[n - 1].size()
    }
}

/// The number of candidates over the whole grid.
pub open spec fn total(s: Seq<Possible>) -> nat {
    total_upto(s, 81)
}

/// Each cell of `new` has no candidate that it had not in `old`, and a cell
/// that had one has one still.
pub open spec fn shrinks(new: Seq<Possible>, old: Seq<Possible>) -> bool {
    &&& new.len() == old.len()
    &&& forall|i: int|
        0 <= i < old.len() ==> (#[trigger] new[i]).subset_of(old[i]) && (old[i].size() > 0
            ==> new[i].size() > 0)
}

/// Cell `c` is solved: it has exactly one candidate.
pub open spec fn solved_at(s: Seq<Possible>, c: int) -> bool {
    s[c].size() == 1
}

/// If cell `c` is solved, no peer of it keeps its digit as a candidate.
pub open spec fn ok_at(s: Seq<Possible>, c: int) -> bool {
    solved_at(s, c) ==> forall|p: int, d: int|
        is_peer(c, p) && s[c].has(d) ==> !#[trigger] s[p].has(d)
}

/// Every cell for which `ok_at` held in `a` has it in `b`.
pub open spec fn keeps_ok(a: Seq<Possible>, b: Seq<Possible>) -> bool {
    forall|c: int| 0 <= c < 81 && ok_at(a, c) ==> #[trigger] ok_at(b, c)
}

/// `ok_at` holds of every cell.
pub open spec fn settled(s: Seq<Possible>) -> bool {
    forall|c: int| 0 <= c < 81 ==> #[trigger] ok_at(s, c)
}

/// Every cell is solved.
pub open spec fn all_solved(s: Seq<Possible>) -> bool {
    forall|c: int| 0 <= c < 81 ==> #[trigger] solved_at(s, c)
}

/// A filled grid that obeys the rules: digits 1 to 9, no two peers alike,
/// and each digit somewhere in every row, column and box.
pub open spec fn is_solution(g: Seq<int>) -> bool {
    &&& g.len() == 81
    &&& forall|i: int| 0 <= i < 81 ==> 1 <= #[trigger] g[i] <= 9
    &&& forall|a: int, b: int| #[trigger] is_peer(a, b) ==> g[a] != g[b]
    &&& forall|k: int, c: int, d: int|
        0 <= k < 3 && 0 <= c < 81 && 1 <= d <= 9 ==> #[trigger] unit_holds(g, k, c, d)
}

/// Digit `d` stands somewhere in the unit of kind `k` of cell `c`.
pub open spec fn unit_holds(g: Seq<int>, k: int, c: int, d: int) -> bool {
    exists|x: int| #[trigger] same_unit(k, c, x) && g[x] == d
}

/// The filled grid `g` agrees with the candidates `s`: each of its digits
/// is a candidate of its cell.
pub open spec fn fits(g: Seq<int>, s: Seq<Possible>) -> bool {
    forall|i: int| 0 <= i < 81 ==> #[trigger] s[i].has(g[i])
}

/// Every cell has at least one candidate.
pub open spec fn no_empty_cell(s: Seq<Possible>) -> bool {
    forall|i: int| 0 <= i < 81 ==> #[trigger] s[i].size() > 0
}

/// Digit `d` is a candidate somewhere in the unit of kind `k` of cell `c`.
pub open spec fn has_place(s: Seq<Possible>, k: int, c: int, d: int) -> bool {
    exists|x: int| same_unit(k, c, x) && #[trigger] s[x].has(d)
}

/// Cell `x` is the only place for digit `d` in the unit of kind `k` of `c`.
pub open spec fn sole_place(s: Seq<Possible>, k: int, c: int, d: int, x: int) -> bool {
    &&& same_unit(k, c, x)
    &&& s[x].has(d)
    &&& forall|y: int| same_unit(k, c, y) && #[trigger] s[y].has(d) ==> y == x
}

/// Digit `d` still has a place in the unit of kind `k` of `c`, and a sole
/// place is a solved cell.
pub open spec fn placed(s: Seq<Possible>, k: int, c: int, d: int) -> bool {
    &&& has_place(s, k, c, d)
    &&& forall|x: int| #[trigger] sole_place(s, k, c, d, x) ==> solved_at(s, x)
}

/// Whenever a cell of `a` lost a digit in `b`, the digit is `placed` in
/// every unit of that cell in `b`; the cell `c` and digit `dg` are left out.
pub open spec fn places_kept_but(a: Seq<Possible>, b: Seq<Possible>, c: int, dg: int) -> bool {
    forall|z: int, k: int, d: int|
        0 <= z < 81 && 0 <= k < 3 && a[z].has(d) && !b[z].has(d) && !(z == c && d == dg)
            ==> #[trigger] placed(b, k, z, d)
}

/// Whenever a cell of `a` lost a digit in `b`, the digit is `placed` in
/// every unit of that cell in `b`.
pub open spec fn places_kept(a: Seq<Possible>, b: Seq<Possible>) -> bool {
    places_kept_but(a, b, -1, 0)
}

/// A later step that keeps its own removals placed keeps an earlier
/// placement.
proof fn lemma_placed_step(a: Seq<Possible>, b: Seq<Possible>, k: int, y: int, d: int)
    requires
        a.len() == 81,
        shrinks(b, a),
        places_kept(a, b),
        placed(a, k, y, d),
        0 <= y < 81,
        0 <= k < 3,
    ensures
        placed(b, k, y, d),
{
    let x = choose|x: int| same_unit(k, y, x) && #[trigger] a[x].has(d);
    if b[x].has(d) {
        assert(has_place(b, k, y, d));
    } else {
        assert(placed(b, k, x, d));
        let w = choose|w: int| same_unit(k, x, w) && #[trigger] b[w].has(d);
        assert(same_unit(k, y, w));
        assert(has_place(b, k, y, d));
    }
    assert forall|x2: int| #[trigger] sole_place(b, k, y, d, x2) implies solved_at(b, x2) by {
        assert(b[x2].subset_of(a[x2]));
        if exists|z: int| same_unit(k, y, z) && #[trigger] a[z].has(d) && z != x2 {
            let z = choose|z: int| same_unit(k, y, z) && #[trigger] a[z].has(d) && z != x2;
            assert(!b[z].has(d));
            assert(placed(b, k, z, d));
            assert forall|y2: int| same_unit(k, z, y2) && #[trigger] b[y2].has(d) implies y2
                == x2 by {
                assert(same_unit(k, y, y2));
            }
            assert(sole_place(b, k, z, d, x2));
        } else {
            assert(sole_place(a, k, y, d, x2));
            b[x2].lemma_count_subset(a[x2], 9);
        }
    }
}

/// Placements kept over two steps are kept over both.
proof fn lemma_places_trans(a: Seq<Possible>, b: Seq<Possible>, c: Seq<Possible>)
    requires
        a.len() == 81,
        shrinks(b, a),
        shrinks(c, b),
        places_kept(a, b),
        places_kept(b, c),
    ensures
        places_kept(a, c),
{
    assert forall|z: int, k: int, d: int|
        0 <= z < 81 && 0 <= k < 3 && a[z].has(d) && !c[z].has(d) && !(z == -1 && d == 0)
            implies #[trigger] placed(c, k, z, d) by {
        if !b[z].has(d) {
            assert(placed(b, k, z, d));
            lemma_placed_step(b, c, k, z, d);
        }
    }
}

/// A step that keeps its own removals placed keeps the placements of the
/// steps before it.
proof fn lemma_keep_but(a: Seq<Possible>, b: Seq<Possible>, c: Seq<Possible>, cell: int, dg: int)
    requires
        a.len() == 81,
        shrinks(b, a),
        shrinks(c, b),
        places_kept_but(a, b, cell, dg),
        places_kept(b, c),
    ensures
        places_kept_but(a, c, cell, dg),
{
    assert forall|z: int, k: int, d: int|
        0 <= z < 81 && 0 <= k < 3 && a[z].has(d) && !c[z].has(d) && !(z == cell && d == dg)
            implies #[trigger] placed(c, k, z, d) by {
        if !b[z].has(d) {
            assert(placed(b, k, z, d));
            lemma_placed_step(b, c, k, z, d);
        }
    }
}

/// No filled grid fits candidates with an empty cell.
proof fn lemma_empty_no_fit(s: Seq<Possible>, i: int)
    requires
        0 <= i < 81,
        s[i].size() == 0,
    ensures
        forall|g: Seq<int>| !#[trigger] fits(g, s),
{
    s[i].lemma_count_zero(9);
    assert forall|g: Seq<int>| !#[trigger] fits(g, s) by {
        if fits(g, s) {
            assert(s[i].has(g[i]));
        }
    }
}

proof fn lemma_total_upto(new: Seq<Possible>, old: Seq<Possible>, n: int)
    requires
        shrinks(new, old),
        n <= old.len(),
    ensures
        total_upto(new, n) <= total_upto(old, n),
    decreases n,
{
    if n > 0 {
        lemma_total_upto(new, old, n - 1);
        new[n - 1].lemma_count_subset(old[n - 1], 9);
    }
}

proof fn lemma_total_upto_strict(new: Seq<Possible>, old: Seq<Possible>, n: int, c: int, d: int)
    requires
        shrinks(new, old),
        n <= old.len(),
        0 <= c < n,
        1 <= d <= 9,
        old[c].has(d),
        !new[c].has(d),
    ensures
        total_upto(new, n) < total_upto(old, n),
    decreases n,
{
    if n - 1 == c {
        lemma_total_upto(new, old, n - 1);
        new[c].lemma_count_strict(old[c], d, 9);
    } else {
        lemma_total_upto_strict(new, old, n - 1, c, d);
        new[n - 1].lemma_count_subset(old[n - 1], 9);
    }
}

/// A grid that has shrunk has no more candidates in all.
pub proof fn lemma_total(new: Seq<Possible>, old: Seq<Possible>)
    requires
        shrinks(new, old),
        old.len() == 81,
    ensures
        total(new) <= total(old),
{
    lemma_total_upto(new, old, 81);
}

/// A grid that has lost a candidate has fewer in all.
pub proof fn lemma_total_strict(new: Seq<Possible>, old: Seq<Possible>, c: int, d: int)
    requires
        shrinks(new, old),
        old.len() == 81,
        0 <= c < 81,
        1 <= d <= 9,
        old[c].has(d),
        !new[c].has(d),
    ensures
        total(new) < total(old),
{
    lemma_total_upto_strict(new, old, 81, c, d);
}

/// A cell whose candidates lie within `{d}` and that is not empty holds `d`.
proof fn lemma_single(p: Possible, d: int)
    requires
        forall|e: int| #[trigger] p.has(e) ==> e == d,
    ensures
        p.size() <= 1,
        p.size() == 1 <==> p.has(d),
{
    p.lemma_count_single(d, 9);
}

/// Nine cells of one unit with pairwise different digits from 1 to 9 hold
/// every digit.
proof fn lemma_unit_holds(g: Seq<int>, k: int, c: int, d: int)
    requires
        g.len() == 81,
        forall|i: int| 0 <= i < 81 ==> 1 <= #[trigger] g[i] <= 9,
        forall|a: int, b: int| #[trigger] is_peer(a, b) ==> g[a] != g[b],
        0 <= k < 3,
        0 <= c < 81,
        1 <= d <= 9,
    ensures
        unit_holds(g, k, c, d),
{
    let f = |j: int| g[unit_cell(k, c, j)];
    let pos = set_int_range(0, 9);
    let digs = set_int_range(1, 10);
    lemma_int_range(0, 9);
    lemma_int_range(1, 10);
    assert forall|a: int, b: int| pos.contains(a) && pos.contains(b) && f(a) == f(b) implies a
        == b by {
        lemma_unit_cell(k, c, a, b);
        lemma_unit_cell(k, c, b, a);
        if a != b {
            assert(is_peer(unit_cell(k, c, a), unit_cell(k, c, b)));
        }
    }
    let img = pos.map(f);
    lemma_map_size(pos, img, f);
    assert forall|x: int| img.contains(x) implies digs.contains(x) by {
        let j = choose|j: int| pos.contains(j) && f(j) == x;
        lemma_unit_cell(k, c, j, j);
    }
    lemma_subset_equality(img, digs);
    assert(digs.contains(d));
    let j = choose|j: int| pos.contains(j) && f(j) == d;
    lemma_unit_cell(k, c, j, j);
    assert(same_unit(k, c, unit_cell(k, c, j)));
}

/// In a solution every row, column and box holds each digit exactly once.
pub proof fn lemma_solution_exactly_once(g: Seq<int>, k: int, c: int, d: int)
    requires
        is_solution(g),
        0 <= k < 3,
        0 <= c < 81,
        1 <= d <= 9,
    ensures
        exists|x: int| #[trigger] same_unit(k, c, x) && g[x] == d,
        forall|x: int, y: int|
            #[trigger] same_unit(k, c, x) && #[trigger] same_unit(k, c, y) && g[x] == d && g[y]
                == d ==> x == y,
{
    assert(unit_holds(g, k, c, d));
    assert forall|x: int, y: int|
        #[trigger] same_unit(k, c, x) && #[trigger] same_unit(k, c, y) && g[x] == d && g[y]
            == d implies x == y by {
        if x != y {
            assert(is_peer(x, y));
        }
    }
}

/// When every cell is solved and no solved digit stays a candidate of a
/// peer, the digits of the cells form a solution.
pub proof fn lemma_solved_grid(v: Seq<Possible>, g: Seq<int>)
    requires
        grid_wf(v),
        settled(v),
        all_solved(v),
        g.len() == 81,
        fits(g, v),
    ensures
        is_solution(g),
{
    assert forall|i: int| 0 <= i < 81 implies 1 <= #[trigger] g[i] <= 9 by {
        assert(v[i].has(g[i]));
    }
    assert forall|a: int, b: int| #[trigger] is_peer(a, b) implies g[a] != g[b] by {
        assert(ok_at(v, a));
        assert(solved_at(v, a));
        assert(v[a].has(g[a]));
        assert(v[b].has(g[b]));
    }
    assert forall|k: int, c: int, d: int|
        0 <= k < 3 && 0 <= c < 81 && 1 <= d <= 9 implies #[trigger] unit_holds(g, k, c, d) by {
        lemma_unit_holds(g, k, c, d);
    }
}

impl Values {
    /// Whether some cell has no candidate left.
    fn has_empty_cell(&self) -> (r: bool)
        requires
            grid_wf(self.0@),
        ensures
            r == !no_empty_cell(self.0@),
    {
        let mut i: usize = 0;
        while i < 81
            invariant
                i <= 81,
                grid_wf(self.0@),
                forall|j: int| 0 <= j < i ==> #[trigger] self.0@[j].size() > 0,
            decreases 81 - i,
        {
            if self.0[i].is_empty() {
                return true;
            }
            i = i + 1;
        }
        false
    }

    /// Every digit possible in every cell.
    pub fn new() -> (r: Self)
        ensures
            grid_wf(r.0@),
            forall|i: int, d: int| 0 <= i < 81 && 1 <= d <= 9 ==> #[trigger] r.0@[i].has(d),
    {
        let mut v: Vec<Possible> = Vec::new();
        let mut i: usize = 0;
        while i < 81
            invariant
                i <= 81,
                v@.len() == i,
                forall|j: int| 0 <= j < i ==> (#[trigger] v@[j]).wf(),
                forall|j: int, d: int| 0 <= j < i && 1 <= d <= 9 ==> #[trigger] v@[j].has(d),
            decreases 81 - i,
        {
            v.push(Possible::new());
            i = i + 1;
        }
        let r = Values(v);
        r
    }

    /// Makes `digit` the only candidate of `cell` by eliminating each other
    /// candidate in turn; `None` on a contradiction, which includes a grid
    /// with a cell without candidates and a `digit` that is no longer a
    /// candidate of `cell`.
    pub fn assign(self, digit: u8, cell: usize) -> (r: Option<Values>)
        requires
            grid_wf(self.0@),
            1 <= digit <= 9,
            cell < 81,
        ensures
            match r {
                Some(v) => {
                    &&& grid_wf(v.0@)
                    &&& shrinks(v.0@, self.0@)
                    &&& keeps_ok(self.0@, v.0@)
                    &&& no_empty_cell(v.0@)
                    &&& places_kept(self.0@, v.0@)
                    &&& v.0@[cell as int].has(digit as int)
                    &&& forall|e: int| e != digit ==> !(#[trigger] v.0@[cell as int].has(e))
                },
                None => true,
            },
            !no_empty_cell(self.0@) ==> r is None,
            !self.0@[cell as int].has(digit as int) ==> r is None,
            no_empty_cell(self.0@) && (forall|e: int| #[trigger] self.0@[cell as int].has(e) ==> e
                == digit) ==> (r matches Some(v) && v.0@ == self.0@),
            forall|g: Seq<int>|
                is_solution(g) && #[trigger] fits(g, self.0@) && g[cell as int] == digit ==> (
                r matches Some(v) && fits(g, v.0@)),
        decreases total(self.0@), 1int,
    {
        let ghost s0 = self.0@;
        if self.has_empty_cell() {
            proof {
                let i = choose|i: int| 0 <= i < 81 && !(#[trigger] s0[i].size() > 0);
                lemma_empty_no_fit(s0, i);
            }
            return None;
        }
        let others = self.0[cell].values();
        proof {
            s0[cell as int].lemma_digits_upto(9);
        }
        let mut values = self;
        let mut j: usize = 0;
        while j < others.len()
            invariant
                j <= others@.len(),
                others@ == s0[cell as int].digits(),
                forall|i: int| 0 <= i < others@.len() ==> 1 <= #[trigger] others@[i] <= 9,
                forall|i: int| 0 <= i < others@.len() ==> s0[cell as int].has(#[trigger] others@[i] as int),
                grid_wf(s0),
                s0 == self.0@,
                no_empty_cell(s0),
                (forall|e: int| #[trigger] s0[cell as int].has(e) ==> e == digit) ==> values.0@ == s0,
                grid_wf(values.0@),
                shrinks(values.0@, s0),
                total(values.0@) <= total(s0),
                keeps_ok(s0, values.0@),
                places_kept(s0, values.0@),
                forall|g: Seq<int>|
                    is_solution(g) && #[trigger] fits(g, s0) && g[cell as int] == digit ==> fits(
                        g,
                        values.0@,
                    ),
                forall|i: int|
                    0 <= i < j && others@[i] != digit ==> !#[trigger] values.0@[cell as int].has(
                        others@[i] as int,
                    ),
                1 <= digit <= 9,
                cell < 81,
            decreases others@.len() - j,
        {
            let d = others[j];
            if d != digit {
                let ghost before = values.0@;
                match values.eliminate(d, cell) {
                    Some(v) => {
                        values = v;
                    },
                    None => {
                        return None;
                    },
                }
                proof {
                    lemma_total(values.0@, before);
                    lemma_places_trans(s0, before, values.0@);
                }
            }
            j = j + 1;
        }
        proof {
            assert forall|e: int| e != digit implies !(#[trigger] values.0@[cell as int].has(e)) by {
                if s0[cell as int].has(e) {
                    let i = choose|i: int| 0 <= i < others@.len() && others@[i] == e as u8;
                    assert(others@[i] != digit);
                }
            }
            lemma_single(values.0@[cell as int], digit as int);
            assert(values.0@[cell as int].subset_of(s0[cell as int]));
        }
        Some(values)
    }

    /// Removes `digit` from the candidates of `cell` and propagates: a cell
    /// left with one candidate takes that digit from its peers, and a digit
    /// left with one place in a unit is assigned there. `None` on a
    /// contradiction: a grid with a cell without candidates, before or after
    /// the removal, or a digit with no place in a unit of `cell`.
    pub fn eliminate(self, digit: u8, cell: usize) -> (r: Option<Values>)
        requires
            grid_wf(self.0@),
            1 <= digit <= 9,
            cell < 81,
        ensures
            match r {
                Some(v) => {
                    &&& grid_wf(v.0@)
                    &&& shrinks(v.0@, self.0@)
                    &&& keeps_ok(self.0@, v.0@)
                    &&& no_empty_cell(v.0@)
                    &&& !v.0@[cell as int].has(digit as int)
                    &&& places_kept(self.0@, v.0@)
                    &&& self.0@[cell as int].has(digit as int) ==> forall|k: int|
                        0 <= k < 3 ==> #[trigger] placed(v.0@, k, cell as int, digit as int)
                },
                None => true,
            },
            !no_empty_cell(self.0@) ==> r is None,
            no_empty_cell(self.0@) && !self.0@[cell as int].has(digit as int) ==> (r matches Some(v)
                && v.0@ == self.0@),
            forall|g: Seq<int>|
                is_solution(g) && #[trigger] fits(g, self.0@) && g[cell as int] != digit ==> (
                r matches Some(v) && fits(g, v.0@)),
        decreases total(self.0@), 0int,
    {
        let ghost s0 = self.0@;
        if self.has_empty_cell() {
            proof {
                let i = choose|i: int| 0 <= i < 81 && !(#[trigger] s0[i].size() > 0);
                lemma_empty_no_fit(s0, i);
            }
            return None;
        }
        let mut possibles = self.0[cell];
        if !possibles.contains(digit) {
            return Some(self);
        }
        possibles = possibles.remove(digit);
        let mut values = self;
        values.0.set(cell, possibles);
        let n = possibles.len();
        if n == 0 {
            proof {
                possibles.lemma_count_zero(9);
                assert forall|g: Seq<int>|
                    is_solution(g) && #[trigger] fits(g, s0) && g[cell as int] != digit implies false by {
                    assert(values.0@[cell as int].has(g[cell as int]));
                }
            }
            return None;
        }
        proof {
            possibles.lemma_count_strict(s0[cell as int], digit as int, 9);
            lemma_total_strict(values.0@, s0, cell as int, digit as int);
            assert forall|c: int| 0 <= c < 81 && c != cell && ok_at(s0, c) implies #[trigger] ok_at(
                values.0@,
                c,
            ) by {
                assert(values.0@[c] == s0[c]);
            }
        }
        if n == 1 {
            let d = possibles.n();
            proof {
                possibles.lemma_count_one(9);
                assert forall|e: int| #[trigger] possibles.has(e) implies e == d by {
                    let w = choose|w: int| 1 <= w <= 9 && #[trigger] possibles.has(w);
                }
            }
            let peers = Sudoku::peers(cell as u8);
            proof {
                assert forall|i: int| 0 <= i < 24 implies (#[trigger] peers@[i]) < 81 by {
                    assert(peers@.contains(peers@[i]));
                }
            }
            let mut j: usize = 0;
            while j < peers.len()
                invariant
                    j <= peers@.len(),
                    peers@.len() == 24,
                    forall|x: u8| #[trigger] peers@.contains(x) <==> is_peer(cell as int, x as int),
                    grid_wf(s0),
                    s0 == self.0@,
                    no_empty_cell(s0),
                    grid_wf(values.0@),
                    shrinks(values.0@, s0),
                    total(values.0@) < total(s0),
                    !values.0@[cell as int].has(digit as int),
                    s0[cell as int].has(digit as int),
                    forall|e: int| #[trigger] values.0@[cell as int].has(e) <==> e == d,
                    forall|c: int|
                        0 <= c < 81 && c != cell && ok_at(s0, c) ==> #[trigger] ok_at(
                            values.0@,
                            c,
                        ),
                    forall|i: int| 0 <= i < j ==> !#[trigger] values.0@[peers@[i] as int].has(d as int),
                    places_kept_but(s0, values.0@, cell as int, digit as int),
                    forall|g: Seq<int>|
                        is_solution(g) && #[trigger] fits(g, s0) && g[cell as int] != digit ==> fits(
                            g,
                            values.0@,
                        ),
                    forall|i: int| 0 <= i < 24 ==> (#[trigger] peers@[i]) < 81,
                    1 <= d <= 9,
                    1 <= digit <= 9,
                    cell < 81,
                decreases peers@.len() - j,
            {
                let p = peers[j];
                proof {
                    assert(peers@.contains(p));
                    assert forall|g: Seq<int>|
                        is_solution(g) && #[trigger] fits(g, s0) && g[cell as int]
                            != digit implies g[p as int] != d by {
                        assert(values.0@[cell as int].has(g[cell as int]));
                        assert(is_peer(cell as int, p as int));
                    }
                }
                let ghost before = values.0@;
                match values.eliminate(d, p as usize) {
                    Some(v) => {
                        values = v;
                    },
                    None => {
                        return None;
                    },
                }
                proof {
                    lemma_total(values.0@, before);
                    lemma_single(before[cell as int], d as int);
                    lemma_single(values.0@[cell as int], d as int);
                    lemma_keep_but(s0, before, values.0@, cell as int, digit as int);
                }
                j = j + 1;
            }
            proof {
                assert forall|q: int, e: int|
                    is_peer(cell as int, q) && values.0@[cell as int].has(e) implies !#[trigger] values.0@[q].has(e) by {
                    assert(peers@.contains(q as u8));
                    let i = choose|i: int| 0 <= i < peers@.len() && peers@[i] == q as u8;
                }
            }
        }
        let units = Sudoku::units(cell as u8);
        let mut u: usize = 0;
        while u < 3
            invariant
                u <= 3,
                units@.len() == 3,
                forall|k: int| 0 <= k < 3 ==> lists_unit(#[trigger] units@[k]@, k, cell as int),
                grid_wf(s0),
                s0 == self.0@,
                no_empty_cell(s0),
                grid_wf(values.0@),
                shrinks(values.0@, s0),
                total(values.0@) < total(s0),
                !values.0@[cell as int].has(digit as int),
                s0[cell as int].has(digit as int),
                keeps_ok(s0, values.0@),
                places_kept_but(s0, values.0@, cell as int, digit as int),
                forall|k: int| 0 <= k < u ==> #[trigger] placed(values.0@, k, cell as int, digit as int),
                forall|g: Seq<int>|
                    is_solution(g) && #[trigger] fits(g, s0) && g[cell as int] != digit ==> fits(
                        g,
                        values.0@,
                    ),
                1 <= digit <= 9,
                cell < 81,
            decreases 3 - u,
        {
            let unit = &units[u];
            let mut places: Vec<u8> = Vec::new();
            let mut j: usize = 0;
            while j < unit.len()
                invariant
                    j <= unit@.len(),
                    unit@.len() == 8,
                    forall|x: u8| #[trigger] unit@.contains(x) ==> x < 81,
                    grid_wf(values.0@),
                    forall|i: int| 0 <= i < places@.len() ==> (#[trigger] places@[i]) < 81,
                    forall|i: int|
                        0 <= i < j && values.0@[unit@[i] as int].has(digit as int) ==> places@.contains(
                            #[trigger] unit@[i],
                        ),
                    forall|i: int| 0 <= i < places@.len() ==> unit@.contains(#[trigger] places@[i]),
                    forall|i: int|
                        0 <= i < places@.len() ==> values.0@[#[trigger] places@[i] as int].has(
                            digit as int,
                        ),
                    crate::geometry::ascending(unit@),
                    crate::geometry::ascending(places@),
                    forall|i: int, m: int|
                        0 <= i < places@.len() && j <= m < unit@.len() ==> places@[i] < unit@[m],
                    1 <= digit <= 9,
                decreases unit@.len() - j,
            {
                let x = unit[j];
                proof {
                    assert(unit@.contains(x));
                }
                let ghost prev = places@;
                if values.0[x as usize].contains(digit) {
                    places.push(x);
                    proof {
                        crate::geometry::lemma_push_contains(prev, x);
                    }
                }
                j = j + 1;
            }
            proof {
                assert forall|g: Seq<int>|
                    is_solution(g) && #[trigger] fits(g, s0) && g[cell as int]
                        != digit implies places@.len() > 0 && (places@.len() == 1 ==> g[places@[0] as int] == digit) by {
                    assert(unit_holds(g, u as int, cell as int, digit as int));
                    let x = choose|x: int| #[trigger]
                        same_unit(u as int, cell as int, x) && g[x] == digit;
                    assert(unit@.contains(x as u8));
                    let i = choose|i: int| 0 <= i < unit@.len() && unit@[i] == x as u8;
                    assert(values.0@[x].has(digit as int));
                    assert(places@.contains(unit@[i]));
                }
            }
            proof {
                if places@.len() > 0 {
                    let x = places@[0];
                    assert(unit@.contains(x));
                    assert(same_unit(u as int, cell as int, x as int));
                    assert(has_place(values.0@, u as int, cell as int, digit as int));
                }
                if places@.len() > 1 {
                    assert forall|x: int|
                        #[trigger] sole_place(values.0@, u as int, cell as int, digit as int, x)
                        implies solved_at(values.0@, x) by {
                        assert(unit@.contains(places@[0]));
                        assert(unit@.contains(places@[1]));
                        assert(values.0@[places@[0] as int].has(digit as int));
                        assert(values.0@[places@[1] as int].has(digit as int));
                    }
                }
            }
            if places.len() == 0 {
                return None;
            }
            if places.len() == 1 {
                let ghost before = values.0@;
                let ghost p = places@[0] as int;
                proof {
                    assert(unit@.contains(places@[0]));
                }
                match values.assign(digit, places[0] as usize) {
                    Some(v) => {
                        values = v;
                    },
                    None => {
                        return None;
                    },
                }
                proof {
                    lemma_total(values.0@, before);
                    lemma_keep_but(s0, before, values.0@, cell as int, digit as int);
                    assert forall|k: int| 0 <= k < u implies #[trigger] placed(
                        values.0@,
                        k,
                        cell as int,
                        digit as int,
                    ) by {
                        lemma_placed_step(before, values.0@, k, cell as int, digit as int);
                    }
                    lemma_single(values.0@[p], digit as int);
                    assert(has_place(values.0@, u as int, cell as int, digit as int));
                }
            }
            u = u + 1;
        }
        proof {
            assert forall|z: int, k: int, d: int|
                0 <= z < 81 && 0 <= k < 3 && s0[z].has(d) && !values.0@[z].has(d) && !(z == -1
                    && d == 0) implies #[trigger] placed(values.0@, k, z, d) by {
                if z == cell && d == digit {
                    assert(placed(values.0@, k, cell as int, digit as int));
                }
            }
        }
        Some(values)
    }

    /// Depth-first search: a grid with a cell without candidates fails at
    /// once, a grid whose every cell is solved is returned as it is;
    /// otherwise each candidate of the first cell with the fewest (but more
    /// than one) candidates is assigned in turn, ascending, and the first
    /// branch that leads to a solved grid wins. `None` when no branch does.
    pub fn search(self) -> (r: Option<Values>)
        requires
            grid_wf(self.0@),
        ensures
            match r {
                Some(v) => {
                    &&& grid_wf(v.0@)
                    &&& shrinks(v.0@, self.0@)
                    &&& keeps_ok(self.0@, v.0@)
                    &&& all_solved(v.0@)
                },
                None => true,
            },
            all_solved(self.0@) ==> (r matches Some(v) && v.0@ == self.0@),
            (exists|i: int| 0 <= i < 81 && #[trigger] self.0@[i].size() == 0) ==> r is None,
            forall|g: Seq<int>| is_solution(g) && #[trigger] fits(g, self.0@) ==> r is Some,
        decreases total(self.0@),
    {
        let ghost s0 = self.0@;
        let mut all = true;
        let mut i: usize = 0;
        while i < 81
            invariant
                i <= 81,
                grid_wf(s0),
                s0 == self.0@,
                all <==> forall|j: int| 0 <= j < i ==> #[trigger] solved_at(s0, j),
            decreases 81 - i,
        {
            let l = self.0[i].len();
            proof {
                assert(solved_at(s0, i as int) == (l == 1));
            }
            if l == 0 {
                // A cell without candidates: no branch can succeed.
                proof {
                    s0[i as int].lemma_count_zero(9);
                    assert forall|g: Seq<int>| is_solution(g) && #[trigger] fits(g, s0) implies false by {
                        assert(s0[i as int].has(g[i as int]));
                    }
                }
                return None;
            }
            if l != 1 {
                all = false;
            }
            i = i + 1;
        }
        if all {
            proof {
                assert forall|c: int| 0 <= c < 81 implies #[trigger] s0[c].size() != 0 by {
                    assert(solved_at(s0, c));
                }
            }
            return Some(self);
        }
        let mut best: usize = 81;
        let mut best_len: u32 = 10;
        i = 0;
        while i < 81
            invariant
                i <= 81,
                grid_wf(s0),
                s0 == self.0@,
                best == 81 ==> forall|j: int| 0 <= j < i ==> #[trigger] s0[j].size() <= 1,
                best == 81 ==> best_len == 10,
                best < 81 ==> s0[best as int].size() > 1,
                best <= 81,
            decreases 81 - i,
        {
            let l = self.0[i].len();
            proof {
                assert(s0[i as int].size() == l);
                s0[i as int].lemma_count_bound(9);
            }
            if l > 1 && l < best_len {
                best = i;
                best_len = l;
            }
            i = i + 1;
        }
        if best == 81 {
            proof {
                let c = choose|c: int| 0 <= c < 81 && !#[trigger] solved_at(s0, c);
                assert(s0[c].size() == 0);
                s0[c].lemma_count_zero(9);
                assert forall|g: Seq<int>| is_solution(g) && #[trigger] fits(g, s0) implies false by {
                    assert(s0[c].has(g[c]));
                }
            }
            return None;
        }
        let digits = self.0[best].values();
        proof {
            s0[best as int].lemma_digits_upto(9);
        }
        let mut j: usize = 0;
        while j < digits.len()
            invariant
                j <= digits@.len(),
                grid_wf(s0),
                s0 == self.0@,
                best < 81,
                s0[best as int].size() > 1,
                digits@ == s0[best as int].digits(),
                digits@.len() == s0[best as int].size(),
                forall|k: int| 0 <= k < digits@.len() ==> 1 <= #[trigger] digits@[k] <= 9,
                forall|k: int| 0 <= k < digits@.len() ==> s0[best as int].has(#[trigger] digits@[k] as int),
                forall|a: int, b: int|
                    0 <= a < b < digits@.len() ==> digits@[a] < digits@[b],
                forall|g: Seq<int>, k: int|
                    is_solution(g) && #[trigger] fits(g, s0) && 0 <= k < j ==> g[best as int]
                        != #[trigger] digits@[k],
            decreases digits@.len() - j,
        {
            let d = digits[j];
            let copy = Values(self.0.clone());
            proof {
                assert(copy.0@ =~= s0);
            }
            match copy.assign(d, best) {
                Some(a) => {
                    proof {
                        let e = if digits@[0] != d { digits@[0] } else { digits@[1] };
                        assert(s0[best as int].digits().contains(e));
                        lemma_total_strict(a.0@, s0, best as int, e as int);
                    }
                    match a.search() {
                        Some(v) => {
                            proof {
                                assert(!solved_at(s0, best as int));
                                assert forall|c: int| 0 <= c < 81 implies #[trigger] s0[c].size()
                                    > 0 by {
                                    v.0@[c].lemma_count_subset(s0[c], 9);
                                    assert(solved_at(v.0@, c));
                                }
                            }
                            return Some(v);
                        },
                        None => {},
                    }
                },
                None => {},
            }
            j = j + 1;
        }
        proof {
            assert forall|g: Seq<int>| is_solution(g) && #[trigger] fits(g, s0) implies false by {
                assert(s0[best as int].has(g[best as int]));
                assert(digits@.contains(g[best as int] as u8));
                let k = choose|k: int| 0 <= k < digits@.len() && digits@[k] == g[best as int] as u8;
                assert(g[best as int] != digits@[k]);
            }
        }
        None
    }
}

/// Eliminating the same digit from the same cell twice gives what
/// eliminating it once gave: the second call finds the digit gone and
/// returns the grid unchanged.
pub proof fn lemma_eliminate_idempotent(
    s: Values,
    digit: u8,
    cell: usize,
    once: Option<Values>,
    twice: Option<Values>,
)
    requires
        grid_wf(s.0@),
        1 <= digit <= 9,
        cell < 81,
        call_ensures(Values::eliminate, (s, digit, cell), once),
        once matches Some(v) && call_ensures(Values::eliminate, (v, digit, cell), twice),
    ensures
        twice matches Some(w) && w.0@ == once->Some_0.0@,
{
}

/// Assigning a digit to a cell again, right after an assignment of it that
/// succeeded, returns the grid unchanged.
pub proof fn lemma_assign_idempotent(
    s: Values,
    digit: u8,
    cell: usize,
    once: Option<Values>,
    twice: Option<Values>,
)
    requires
        grid_wf(s.0@),
        1 <= digit <= 9,
        cell < 81,
        call_ensures(Values::assign, (s, digit, cell), once),
        once matches Some(v) && call_ensures(Values::assign, (v, digit, cell), twice),
    ensures
        twice matches Some(w) && w.0@ == once->Some_0.0@,
{
}

} // verus!
