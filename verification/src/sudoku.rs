use vstd::prelude::*;

use crate::digit_set::{lemma_singleton_unique, lemma_subset_size, DigitSet};
use crate::propagate::{
    all_wf, assign, consistent, none_empty, unit_has_digit, valid_solution, within,
};
use crate::rng::{random_below, random_u8_below};
use crate::topology::{sees, unit_cell, Topology};
use vstd::pervasive::unreached;

verus! {

/// The step budget of the randomized generators. It is far beyond what any
/// run can use; if it were ever exhausted, generation falls back to a fixed
/// valid grid rather than looping on a failing randomness source.
pub const GENERATION_FUEL: u64 = 0xffff_ffff_ffff_ffff;

/// The number of cues (non-zero entries) among the first `n` cells.
pub open spec fn cue_count(g: Seq<u8>, n: int) -> int
    decreases n,
{
    if n <= 0 {
        0
    } else {
        cue_count(g, n - 1) + (if g[n - 1] != 0 {
            1int
        } else {
            0int
        })
    }
}

/// The cue count lies between 0 and `n`.
proof fn lemma_cue_count_bounds(g: Seq<u8>, n: int)
    requires
        n >= 0,
    ensures
        0 <= cue_count(g, n) <= n,
    decreases n,
{
    if n > 0 {
        lemma_cue_count_bounds(g, n - 1);
    }
}

/// Grids that agree on their first `n` cells have the same cue count there.
proof fn lemma_cue_count_agree(a: Seq<u8>, b: Seq<u8>, n: int)
    requires
        forall|k: int| 0 <= k < n ==> a[k] == b[k],
    ensures
        cue_count(a, n) == cue_count(b, n),
    decreases n,
{
    if n > 0 {
        lemma_cue_count_agree(a, b, n - 1);
    }
}

/// Updating one cell changes the cue count by the difference of the two
/// entries' cue contributions.
pub proof fn lemma_cue_count_update(g: Seq<u8>, i: int, v: u8, n: int)
    requires
        0 <= i < n,
        n <= g.len(),
    ensures
        cue_count(g.update(i, v), n) == cue_count(g, n) + (if v != 0 {
            1int
        } else {
            0int
        }) - (if g[i] != 0 {
            1int
        } else {
            0int
        }),
    decreases n,
{
    if i == n - 1 {
        lemma_cue_count_agree(g.update(i, v), g, n - 1);
    } else {
        lemma_cue_count_update(g, i, v, n - 1);
    }
}

/// A grid whose first `cut` cells are cues and whose later cells are empty
/// has exactly `cut` cues.
proof fn lemma_cue_count_split(g: Seq<u8>, cut: int, n: int)
    requires
        0 <= cut <= n,
        forall|k: int| 0 <= k < cut ==> g[k] != 0,
        forall|k: int| cut <= k < n ==> g[k] == 0,
    ensures
        cue_count(g, n) == cut,
    decreases n,
{
    if n > cut {
        lemma_cue_count_split(g, cut, n - 1);
    } else if n > 0 {
        lemma_cue_count_split(g, cut - 1, n - 1);
    }
}

/// Whether unit `k` of cell `s` holds no empty cell.
pub open spec fn unit_filled(g: Seq<u8>, s: int, k: int) -> bool {
    forall|j: int| 0 <= j < 9 ==> g[unit_cell(s, k, j)] != 0
}

/// How many of the first `n` cell-and-unit pairs are completely filled,
/// walking the three units of cell 0, then those of cell 1, and so on.
pub open spec fn filled_unit_count(g: Seq<u8>, n: int) -> int
    decreases n,
{
    if n <= 0 {
        0
    } else {
        filled_unit_count(g, n - 1) + (if unit_filled(g, (n - 1) / 3, (n - 1) % 3) {
            1int
        } else {
            0int
        })
    }
}

/// The filled-unit count lies between 0 and `n`.
proof fn lemma_filled_unit_count_bounds(g: Seq<u8>, n: int)
    ensures
        0 <= filled_unit_count(g, n) <= n || n < 0,
    decreases n,
{
    if n > 0 {
        lemma_filled_unit_count_bounds(g, n - 1);
    }
}

/// A sudoku, stored as a flat, row-major array of 81 bytes, where each entry
/// is a value 1 to 9, or zero for an empty field.
#[derive(Debug, Clone, Copy, PartialEq, Eq)]
pub struct Sudoku {
    grid: [u8; 81],
}

impl View for Sudoku {
    type V = Seq<u8>;

    closed spec fn view(&self) -> Seq<u8> {
        self.grid@
    }
}

impl Sudoku {
    /// Every entry is a digit or zero.
    pub open spec fn wf(self) -> bool {
        &&& self@.len() == 81
        &&& forall|i: int| 0 <= i < 81 ==> #[trigger] self@[i] <= 9
    }

    /// Return an empty sudoku with no cues.
    pub fn empty() -> (r: Sudoku)
        ensures
            r.wf(),
            forall|i: int| 0 <= i < 81 ==> #[trigger] r@[i] == 0,
    {
        Sudoku { grid: [0u8; 81] }
    }

    /// Set the given square index (0 to 80 inclusive in row-major order) to
    /// the given value, where 0 means empty and 1 to 9 are digits.
    pub fn set(&mut self, square: usize, val: u8)
        requires
            old(self).wf(),
            square < 81,
            val <= 9,
        ensures
            final(self).wf(),
            final(self)@ == old(self)@.update(square as int, val),
    {
        self.grid[square] = val;
    }

    /// The value of the given square index: a digit 1 to 9, or zero if empty.
    pub fn get(&self, square: usize) -> (r: u8)
        requires
            square < 81,
        ensures
            r == self@[square as int],
    {
        self.grid[square]
    }

    /// Check if the sudoku is filled by testing if any square is zero, i.e.
    /// empty. Does not check correctness of the solution.
    pub fn filled(&self) -> (r: bool)
        ensures
            r <==> (forall|i: int| 0 <= i < 81 ==> #[trigger] self@[i] != 0),
    {
        let mut i: usize = 0;
        while i < 81
            invariant
                i <= 81,
                forall|k: int| 0 <= k < i ==> #[trigger] self@[k] != 0,
            decreases 81 - i,
        {
            if self.grid[i] == 0 {
                proof {
                    assert(self@[i as int] == 0);
                }
                return false;
            }
            i = i + 1;
        }
        true
    }

    /// Check whether the square at the given x and y index (column and row)
    /// is zero, i.e. empty.
    pub fn is_zero(&self, x: usize, y: usize) -> (r: bool)
        requires
            x < 9,
            y < 9,
        ensures
            r <==> self@[x + y * 9] == 0,
    {
        self.grid[x + y * 9] == 0
    }

    /// Count the filled unit entries of the table: for each of the 81 cells
    /// in turn, its row, column and box count one each when completely
    /// filled, so a filled row adds nine to the total.
    pub fn count_filled_units(&self) -> (r: usize)
        ensures
            r == filled_unit_count(self@, 243),
    {
        let topo = Topology::new();
        let mut count: usize = 0;
        let mut s: usize = 0;
        while s < 81
            invariant
                s <= 81,
                topo.wf(),
                count == filled_unit_count(self@, 3 * s),
                count <= 3 * s,
            decreases 81 - s,
        {
            let mut k: usize = 0;
            while k < 3
                invariant
                    s < 81,
                    k <= 3,
                    topo.wf(),
                    count == filled_unit_count(self@, 3 * s + k),
                    count <= 3 * s + k,
                decreases 3 - k,
            {
                let mut all_set: bool = true;
                let mut j: usize = 0;
                while j < 9
                    invariant
                        s < 81,
                        k < 3,
                        j <= 9,
                        topo.wf(),
                        all_set <==> (forall|j2: int|
                            0 <= j2 < j ==> self@[unit_cell(s as int, k as int, j2)] != 0),
                    decreases 9 - j,
                {
                    let t = topo.unit_member(s, k, j);
                    if self.grid[t] == 0 {
                        all_set = false;
                    }
                    j = j + 1;
                }
                proof {
                    let n = 3 * (s as int) + k as int;
                    vstd::arithmetic::div_mod::lemma_fundamental_div_mod_converse(
                        n,
                        3,
                        s as int,
                        k as int,
                    );
                    assert(all_set <==> unit_filled(self@, s as int, k as int));
                    lemma_filled_unit_count_bounds(self@, n + 1);
                }
                if all_set {
                    count = count + 1;
                }
                k = k + 1;
            }
            s = s + 1;
        }
        count
    }

    /// Count the cues, i.e. the non-zero entries of the grid.
    pub fn count_cues(&self) -> (r: usize)
        ensures
            r == cue_count(self@, 81),
    {
        let mut count: usize = 0;
        let mut i: usize = 0;
        while i < 81
            invariant
                i <= 81,
                count == cue_count(self@, i as int),
                count <= i,
            decreases 81 - i,
        {
            if self.grid[i] != 0 {
                count = count + 1;
            }
            i = i + 1;
        }
        count
    }

    /// Generate a random, solved (filled) sudoku grid: assign random digits
    /// to random cells under constraint propagation, restarting whenever a
    /// contradiction appears, until every cell is decided.
    pub fn generate_random_solution() -> (r: Sudoku)
        ensures
            r.wf(),
            forall|i: int| 0 <= i < 81 ==> 1 <= #[trigger] r@[i] <= 9,
            valid_solution(r@),
    {
        let topo = Topology::new();
        let mut grid: [DigitSet; 81] = full_grid();
        let mut fuel: u64 = GENERATION_FUEL;
        loop
            invariant
                topo.wf(),
                all_wf(grid@),
                none_empty(grid@),
            decreases fuel,
        {
            if fuel == 0 {
                return canonical_solution();
            }
            fuel = fuel - 1;
            if all_single(&grid) {
                let candidate = collapse_to_sudoku(&grid);
                if check_valid(&candidate) {
                    return candidate;
                }
                grid = full_grid();
            } else {
                let square = random_below(80);
                let d = grid[square].select_random();
                if !assign(&topo, &mut grid, square, d) {
                    grid = full_grid();
                }
            }
        }
    }
}

/// A fresh grid of 81 full candidate sets.
fn full_grid() -> (g: [DigitSet; 81])
    ensures
        all_wf(g@),
        none_empty(g@),
        forall|i: int, dd: u8| 0 <= i < 81 && 1 <= dd <= 9 ==> (#[trigger] g@[i].has(dd)),
{
    let f = DigitSet::full();
    let g: [DigitSet; 81] = [f; 81];
    proof {
        assert forall|i: int| 0 <= i < 81 implies (#[trigger] g@[i]).wf() && g@[i].size() >= 1 by {
            assert(g@[i] == f);
        }
        assert forall|i: int, dd: u8| 0 <= i < 81 && 1 <= dd <= 9 implies (#[trigger] g@[i].has(
            dd,
        )) by {
            assert(g@[i] == f);
        }
    }
    g
}

/// Whether every candidate set of the grid is a singleton.
fn all_single(grid: &[DigitSet; 81]) -> (r: bool)
    requires
        all_wf(grid@),
    ensures
        r <==> (forall|i: int| 0 <= i < 81 ==> (#[trigger] grid@[i]).size() == 1),
{
    let mut i: usize = 0;
    while i < 81
        invariant
            i <= 81,
            all_wf(grid@),
            forall|k: int| 0 <= k < i ==> (#[trigger] grid@[k]).size() == 1,
        decreases 81 - i,
    {
        if !grid[i].is_single() {
            return false;
        }
        i = i + 1;
    }
    true
}

/// Turn a grid of singleton candidate sets into the solved sudoku it stands
/// for.
fn collapse_to_sudoku(grid: &[DigitSet; 81]) -> (r: Sudoku)
    requires
        all_wf(grid@),
        forall|i: int| 0 <= i < 81 ==> (#[trigger] grid@[i]).size() == 1,
    ensures
        r.wf(),
        forall|i: int| 0 <= i < 81 ==> 1 <= #[trigger] r@[i] <= 9,
        forall|i: int| 0 <= i < 81 ==> grid@[i].has(#[trigger] r@[i]),
{
    let mut res = Sudoku::empty();
    let mut i: usize = 0;
    while i < 81
        invariant
            i <= 81,
            res.wf(),
            all_wf(grid@),
            forall|k: int| 0 <= k < 81 ==> (#[trigger] grid@[k]).size() == 1,
            forall|k: int| 0 <= k < i ==> 1 <= #[trigger] res@[k] <= 9,
            forall|k: int| 0 <= k < i ==> grid@[k].has(#[trigger] res@[k]),
        decreases 81 - i,
    {
        match grid[i].single_to_number() {
            Some(v) => {
                res.set(i, v);
            },
            None => {
                return unreached();
            },
        }
        i = i + 1;
    }
    res
}

/// Whether every digit appears somewhere in unit `k` of cell `c`.
fn unit_has_all_digits(topo: &Topology, s: &Sudoku, c: usize, k: usize) -> (r: bool)
    requires
        topo.wf(),
        c < 81,
        k < 3,
    ensures
        r <==> (forall|dd: u8| 1 <= dd <= 9 ==> unit_has_digit(s@, c as int, k as int, dd)),
{
    let mut dd: u8 = 1;
    while dd <= 9
        invariant
            topo.wf(),
            c < 81,
            k < 3,
            1 <= dd <= 10,
            forall|d2: u8| 1 <= d2 < dd ==> unit_has_digit(s@, c as int, k as int, d2),
        decreases 10 - dd,
    {
        let mut j: usize = 0;
        let mut here: bool = false;
        while j < 9
            invariant
                topo.wf(),
                c < 81,
                k < 3,
                j <= 9,
                here ==> unit_has_digit(s@, c as int, k as int, dd),
                !here ==> forall|j2: int|
                    0 <= j2 < j ==> s@[unit_cell(c as int, k as int, j2)] != dd,
            decreases 9 - j,
        {
            let t = topo.unit_member(c, k, j);
            if s.get(t) == dd {
                proof {
                    assert(s@[unit_cell(c as int, k as int, j as int)] == dd);
                }
                here = true;
            }
            j = j + 1;
        }
        if !here {
            proof {
                assert(!unit_has_digit(s@, c as int, k as int, dd));
            }
            return false;
        }
        dd = dd + 1;
    }
    true
}

/// Whether the grid is a valid complete solution: every cell holds a digit,
/// every unit holds every digit, and no two cells that see each other agree.
fn check_valid(s: &Sudoku) -> (r: bool)
    requires
        s.wf(),
    ensures
        r <==> valid_solution(s@),
{
    let topo = Topology::new();
    let mut i: usize = 0;
    while i < 81
        invariant
            s.wf(),
            i <= 81,
            forall|q: int| 0 <= q < i ==> 1 <= #[trigger] s@[q] <= 9,
        decreases 81 - i,
    {
        if s.get(i) == 0 {
            proof {
                assert(s@[i as int] == 0);
            }
            return false;
        }
        i = i + 1;
    }
    let mut c: usize = 0;
    while c < 81
        invariant
            topo.wf(),
            s.wf(),
            c <= 81,
            forall|s2: int, k2: int, dd: u8|
                0 <= s2 < c && 0 <= k2 < 3 && 1 <= dd <= 9 ==> #[trigger] unit_has_digit(
                    s@,
                    s2,
                    k2,
                    dd,
                ),
        decreases 81 - c,
    {
        let mut k: usize = 0;
        while k < 3
            invariant
                topo.wf(),
                s.wf(),
                c < 81,
                k <= 3,
                forall|s2: int, k2: int, dd: u8|
                    0 <= s2 < c && 0 <= k2 < 3 && 1 <= dd <= 9 ==> #[trigger] unit_has_digit(
                        s@,
                        s2,
                        k2,
                        dd,
                    ),
                forall|k2: int, dd: u8|
                    0 <= k2 < k && 1 <= dd <= 9 ==> #[trigger] unit_has_digit(
                        s@,
                        c as int,
                        k2,
                        dd,
                    ),
            decreases 3 - k,
        {
            if !unit_has_all_digits(&topo, s, c, k) {
                proof {
                    let dd = choose|dd: u8|
                        1 <= dd <= 9 && !unit_has_digit(s@, c as int, k as int, dd);
                    assert(!unit_has_digit(s@, c as int, k as int, dd));
                }
                return false;
            }
            k = k + 1;
        }
        c = c + 1;
    }
    let mut x: usize = 0;
    while x < 81
        invariant
            topo.wf(),
            s.wf(),
            x <= 81,
            forall|x2: int, ii: int|
                0 <= x2 < x && 0 <= ii < topo.peers_of(x2).len() ==> s@[x2] != s@[(
                #[trigger] topo.peers_of(x2)[ii]) as int],
        decreases 81 - x,
    {
        let n = topo.peer_count(x);
        let mut ii: usize = 0;
        while ii < n
            invariant
                topo.wf(),
                s.wf(),
                x < 81,
                n == topo.peers_of(x as int).len(),
                ii <= n,
                forall|x2: int, i2: int|
                    0 <= x2 < x && 0 <= i2 < topo.peers_of(x2).len() ==> s@[x2] != s@[(
                    #[trigger] topo.peers_of(x2)[i2]) as int],
                forall|i2: int|
                    0 <= i2 < ii ==> s@[x as int] != s@[(#[trigger] topo.peers_of(x as int)[i2]) as int],
            decreases n - ii,
        {
            let y = topo.peer(x, ii);
            if s.get(x) == s.get(y) {
                proof {
                    assert(sees(x as int, y as int) && x != y && s@[x as int] == s@[y as int]);
                }
                return false;
            }
            ii = ii + 1;
        }
        x = x + 1;
    }
    proof {
        assert forall|x2: int, y2: int|
            0 <= x2 < 81 && 0 <= y2 < 81 && x2 != y2 && #[trigger] sees(x2, y2) implies s@[x2]
            != s@[y2] by {
            topo.lemma_peers(x2);
            assert(topo.peers_of(x2).contains(y2 as usize));
            let ii = choose|ii: int|
                0 <= ii < topo.peers_of(x2).len() && topo.peers_of(x2)[ii] == y2 as usize;
            assert(s@[x2] != s@[topo.peers_of(x2)[ii] as int]);
        }
    }
    true
}

/// The value of cell `i` in the fixed fallback grid: rows are shifted copies
/// of each other, with an extra shift between bands.
pub open spec fn canon_value(i: int) -> int {
    ((i / 9) * 3 + (i / 9) / 3 + i % 9) % 9 + 1
}

/// The part of a cell's fallback value that all members of a unit share.
spec fn unit_base(s: int, k: int) -> int {
    if k == 0 {
        3 * (s / 9) + (s / 9) / 3
    } else if k == 1 {
        s % 9
    } else {
        s / 27 + 3 * ((s % 9) / 3)
    }
}

/// The part of a cell's fallback value that its position in the unit gives.
spec fn unit_off(k: int, j: int) -> int {
    if k == 1 {
        j / 3 + 3 * (j % 3)
    } else {
        j
    }
}

/// Adding distinct small offsets to the same base gives distinct residues.
proof fn lemma_wrap_inj(kk: int, a: int, b: int)
    requires
        0 <= a < 9,
        0 <= b < 9,
        (kk + a) % 9 == (kk + b) % 9,
    ensures
        a == b,
{
    vstd::arithmetic::div_mod::lemma_fundamental_div_mod(kk + a, 9);
    vstd::arithmetic::div_mod::lemma_fundamental_div_mod(kk + b, 9);
    vstd::arithmetic::div_mod::lemma_mod_division_less_than_divisor(kk + a, 9);
    vstd::arithmetic::div_mod::lemma_mod_division_less_than_divisor(kk + b, 9);
}

/// Every digit is reached from any base by some small offset.
proof fn lemma_wrap_val(kk: int, dd: int)
    requires
        1 <= dd <= 9,
    ensures
        0 <= (dd - 1 - kk) % 9 < 9,
        (kk + (dd - 1 - kk) % 9) % 9 + 1 == dd,
{
    let t = dd - 1 - kk;
    vstd::arithmetic::div_mod::lemma_mod_division_less_than_divisor(t, 9);
    vstd::arithmetic::div_mod::lemma_fundamental_div_mod(t, 9);
    assert(kk + t % 9 == 9 * (-(t / 9)) + (dd - 1));
    vstd::arithmetic::div_mod::lemma_mod_multiples_vanish(-(t / 9), dd - 1, 9);
    vstd::arithmetic::div_mod::lemma_small_mod((dd - 1) as nat, 9nat);
}

/// The fallback value of the j-th member of unit `k` of `s` is the unit's
/// base plus the position's offset, wrapped into the nine digits.
proof fn lemma_canon_cell_value(s: int, k: int, j: int)
    requires
        0 <= s < 81,
        0 <= k < 3,
        0 <= j < 9,
    ensures
        canon_value(unit_cell(s, k, j)) == (unit_base(s, k) + unit_off(k, j)) % 9 + 1,
        0 <= unit_off(k, j) < 9,
{
    crate::topology::lemma_unit_cell_facts(s, k, j);
    vstd::arithmetic::div_mod::lemma_fundamental_div_mod(j, 3);
    vstd::arithmetic::div_mod::lemma_mod_division_less_than_divisor(j, 3);
    vstd::arithmetic::div_mod::lemma_div_pos_is_pos(j, 3);
    let t = unit_cell(s, k, j);
    if k == 0 {
        assert(t / 9 == s / 9 && t % 9 == j);
    } else if k == 1 {
        assert(t / 9 == j && t % 9 == s % 9);
        assert(3 * j + j / 3 + s % 9 == 9 * (j / 3) + (j / 3 + 3 * (j % 3) + s % 9));
        vstd::arithmetic::div_mod::lemma_mod_multiples_vanish(
            j / 3,
            j / 3 + 3 * (j % 3) + s % 9,
            9,
        );
    } else {
        let bb = s / 27;
        let cc = (s % 9) / 3;
        assert(t / 9 == 3 * bb + j / 3 && t % 9 == 3 * cc + j % 3);
        vstd::arithmetic::div_mod::lemma_fundamental_div_mod_converse(t / 9, 3, bb, j / 3);
        assert((t / 9) / 3 == bb);
        assert(3 * (t / 9) + (t / 9) / 3 + t % 9 == 9 * bb + (bb + 3 * cc + j));
        vstd::arithmetic::div_mod::lemma_mod_multiples_vanish(bb, bb + 3 * cc + j, 9);
    }
}

/// Distinct positions in a unit have distinct offsets.
proof fn lemma_off_inj(k: int, j1: int, j2: int)
    requires
        0 <= k < 3,
        0 <= j1 < 9,
        0 <= j2 < 9,
        unit_off(k, j1) == unit_off(k, j2),
    ensures
        j1 == j2,
{
    vstd::arithmetic::div_mod::lemma_fundamental_div_mod(j1, 3);
    vstd::arithmetic::div_mod::lemma_mod_division_less_than_divisor(j1, 3);
    vstd::arithmetic::div_mod::lemma_div_pos_is_pos(j1, 3);
    vstd::arithmetic::div_mod::lemma_fundamental_div_mod(j2, 3);
    vstd::arithmetic::div_mod::lemma_mod_division_less_than_divisor(j2, 3);
    vstd::arithmetic::div_mod::lemma_div_pos_is_pos(j2, 3);
}

/// Every offset is taken by some position in the unit.
proof fn lemma_off_surj(k: int, a: int)
    requires
        0 <= k < 3,
        0 <= a < 9,
    ensures
        exists|j: int| 0 <= j < 9 && unit_off(k, j) == a,
{
    if k == 1 {
        vstd::arithmetic::div_mod::lemma_fundamental_div_mod(a, 3);
        vstd::arithmetic::div_mod::lemma_mod_division_less_than_divisor(a, 3);
        vstd::arithmetic::div_mod::lemma_div_pos_is_pos(a, 3);
        let j = (a % 3) * 3 + a / 3;
        vstd::arithmetic::div_mod::lemma_fundamental_div_mod_converse(j, 3, a % 3, a / 3);
        assert(0 <= j < 9 && unit_off(k, j) == a);
    } else {
        assert(0 <= a < 9 && unit_off(k, a) == a);
    }
}

/// The fallback value is always a digit.
proof fn lemma_canon_range(i: int)
    requires
        0 <= i < 81,
    ensures
        1 <= canon_value(i) <= 9,
{
    vstd::arithmetic::div_mod::lemma_mod_division_less_than_divisor(
        (i / 9) * 3 + (i / 9) / 3 + i % 9,
        9,
    );
}

/// The fixed fallback grid is a valid solved grid.
proof fn lemma_canonical_valid(a: Seq<u8>)
    requires
        a.len() == 81,
        forall|i: int| 0 <= i < 81 ==> #[trigger] a[i] == canon_value(i) as u8,
    ensures
        valid_solution(a),
{
    assert forall|i: int| 0 <= i < 81 implies 1 <= #[trigger] a[i] <= 9 by {
        lemma_canon_range(i);
    }
    assert forall|x: int, y: int|
        0 <= x < 81 && 0 <= y < 81 && x != y && #[trigger] sees(x, y) implies a[x] != a[y] by {
        crate::topology::lemma_sees_iff_unit(x, y);
        let (k, j) = choose|k: int, j: int| 0 <= k < 3 && 0 <= j < 9 && unit_cell(x, k, j) == y;
        crate::topology::lemma_unit_members(x, k);
        let jx = choose|j2: int| 0 <= j2 < 9 && unit_cell(x, k, j2) == x;
        lemma_canon_cell_value(x, k, j);
        lemma_canon_cell_value(x, k, jx);
        lemma_canon_range(x);
        lemma_canon_range(y);
        if canon_value(x) == canon_value(y) {
            lemma_wrap_inj(unit_base(x, k), unit_off(k, j), unit_off(k, jx));
            lemma_off_inj(k, j, jx);
            assert(false);
        }
    }
    assert forall|s: int, k: int, dd: u8|
        0 <= s < 81 && 0 <= k < 3 && 1 <= dd <= 9 implies #[trigger] unit_has_digit(
        a,
        s,
        k,
        dd,
    ) by {
        lemma_wrap_val(unit_base(s, k), dd as int);
        let off = (dd - 1 - unit_base(s, k)) % 9;
        lemma_off_surj(k, off);
        let j = choose|j: int| 0 <= j < 9 && unit_off(k, j) == off;
        lemma_canon_cell_value(s, k, j);
        crate::topology::lemma_unit_members(s, k);
        lemma_canon_range(unit_cell(s, k, j));
        assert(a[unit_cell(s, k, j)] == dd);
    }
}

/// A fixed valid solved grid, used only if the randomized search were ever
/// to exhaust its step budget.
fn canonical_solution() -> (r: Sudoku)
    ensures
        r.wf(),
        forall|i: int| 0 <= i < 81 ==> 1 <= #[trigger] r@[i] <= 9,
        valid_solution(r@),
{
    let mut res = Sudoku::empty();
    let mut i: usize = 0;
    while i < 81
        invariant
            i <= 81,
            res.wf(),
            forall|k: int| 0 <= k < i ==> #[trigger] res@[k] == canon_value(k) as u8,
            forall|k: int| 0 <= k < i ==> 1 <= #[trigger] res@[k] <= 9,
        decreases 81 - i,
    {
        let rr = i / 9;
        let cc = i % 9;
        let v = ((rr * 3 + rr / 3 + cc) % 9 + 1) as u8;
        res.set(i, v);
        i = i + 1;
    }
    proof {
        lemma_canonical_valid(res@);
    }
    res
}

/// Attempt to propagate the constraints formed by the cues of the sudoku.
/// When propagation decides every cell, the solved grid is returned: it is
/// completely filled, agrees with every cue, and equals every valid solved
/// grid the cues fit, so the deduced solution is the only one. On a grid
/// without empty cells the result is that grid itself, and on a valid solved
/// grid propagation always succeeds. When propagation meets a contradiction
/// or leaves a cell undecided, nothing is returned.
pub fn constrain(sudoku: &Sudoku) -> (r: Option<Sudoku>)
    requires
        sudoku.wf(),
    ensures
        match r {
            Some(sol) => {
                &&& sol.wf()
                &&& forall|i: int| 0 <= i < 81 ==> 1 <= #[trigger] sol@[i] <= 9
                &&& forall|i: int| 0 <= i < 81 && sudoku@[i] != 0 ==> #[trigger] sol@[i]
                    == sudoku@[i]
                &&& (forall|i: int| 0 <= i < 81 ==> #[trigger] sudoku@[i] != 0) ==> sol@
                    == sudoku@
                &&& valid_solution(sol@)
                &&& forall|a: Seq<u8>|
                    #[trigger] valid_solution(a) && (forall|i: int|
                        0 <= i < 81 && sudoku@[i] != 0 ==> a[i] == sudoku@[i]) ==> sol@ == a
            },
            None => true,
        },
        valid_solution(sudoku@) ==> r is Some,
        (exists|x: int, y: int|
            0 <= x < 81 && 0 <= y < 81 && x != y && sees(x, y) && sudoku@[x] != 0 && sudoku@[x]
                == sudoku@[y]) ==> r is None,
{
    let topo = Topology::new();
    let mut grid: [DigitSet; 81] = full_grid();
    proof {
        assert forall|a: Seq<u8>|
            valid_solution(a) && (forall|i: int|
                0 <= i < 81 && sudoku@[i] != 0 ==> a[i] == sudoku@[i]) implies consistent(
            a,
            grid@,
        ) by {
            assert forall|i: int| 0 <= i < 81 implies (#[trigger] grid@[i]).has(a[i]) by {
                assert(1 <= a[i] <= 9);
            }
        }
    }
    let mut s: usize = 0;
    while s < 81
        invariant
            s <= 81,
            topo.wf(),
            sudoku.wf(),
            all_wf(grid@),
            none_empty(grid@),
            forall|i: int|
                0 <= i < s && sudoku@[i] != 0 ==> (#[trigger] grid@[i]).size() == 1
                    && grid@[i].has(sudoku@[i]),
            forall|a: Seq<u8>|
                #[trigger] valid_solution(a) && (forall|i: int|
                    0 <= i < 81 && sudoku@[i] != 0 ==> a[i] == sudoku@[i]) ==> consistent(
                    a,
                    grid@,
                ),
        decreases 81 - s,
    {
        let hint = sudoku.get(s);
        if hint != 0 {
            let d = DigitSet::new(hint);
            let ghost gpre = grid@;
            if !assign(&topo, &mut grid, s, d) {
                proof {
                    if valid_solution(sudoku@) {
                        assert(consistent(sudoku@, gpre));
                        assert(d.has(sudoku@[s as int]));
                        assert(false);
                    }
                }
                return None;
            }
            proof {
                lemma_singletons_stay(gpre, grid@, sudoku@, s as int);
                assert(grid@[s as int] == d);
                assert forall|a: Seq<u8>|
                    valid_solution(a) && (forall|i: int|
                        0 <= i < 81 && sudoku@[i] != 0 ==> a[i] == sudoku@[i]) implies consistent(
                    a,
                    grid@,
                ) by {
                    assert(consistent(a, gpre));
                    assert(a[s as int] == sudoku@[s as int]);
                    assert(d.has(a[s as int]));
                }
            }
        }
        s = s + 1;
    }
    let mut res = Sudoku::empty();
    let mut t: usize = 0;
    while t < 81
        invariant
            t <= 81,
            sudoku.wf(),
            res.wf(),
            all_wf(grid@),
            none_empty(grid@),
            forall|i: int|
                0 <= i < 81 && sudoku@[i] != 0 ==> (#[trigger] grid@[i]).size() == 1
                    && grid@[i].has(sudoku@[i]),
            forall|k: int| 0 <= k < t ==> 1 <= #[trigger] res@[k] <= 9,
            forall|k: int| 0 <= k < t && sudoku@[k] != 0 ==> #[trigger] res@[k] == sudoku@[k],
            forall|a: Seq<u8>|
                #[trigger] valid_solution(a) && (forall|i: int|
                    0 <= i < 81 && sudoku@[i] != 0 ==> a[i] == sudoku@[i]) ==> consistent(
                    a,
                    grid@,
                ),
            forall|a: Seq<u8>|
                #[trigger] valid_solution(a) && (forall|i: int|
                    0 <= i < 81 && sudoku@[i] != 0 ==> a[i] == sudoku@[i]) ==> (forall|q: int|
                    0 <= q < t ==> res@[q] == a[q]),
        decreases 81 - t,
    {
        match grid[t].single_to_number() {
            Some(v) => {
                let ghost respre = res@;
                res.set(t, v);
                proof {
                    if sudoku@[t as int] != 0 {
                        lemma_singleton_unique(grid@[t as int], v, sudoku@[t as int]);
                    }
                    assert forall|a: Seq<u8>|
                        valid_solution(a) && (forall|i: int|
                            0 <= i < 81 && sudoku@[i] != 0 ==> a[i] == sudoku@[i]) implies (
                    forall|q: int| 0 <= q < t + 1 ==> res@[q] == a[q]) by {
                        assert(consistent(a, grid@));
                        assert(grid@[t as int].has(a[t as int]));
                        lemma_singleton_unique(grid@[t as int], v, a[t as int]);
                        assert forall|q: int| 0 <= q < t + 1 implies res@[q] == a[q] by {
                            if q < t {
                                assert(respre[q] == a[q]);
                            }
                        }
                    }
                }
            },
            None => {
                proof {
                    if valid_solution(sudoku@) {
                        assert(sudoku@[t as int] != 0);
                        assert(grid@[t as int].size() == 1);
                        assert(false);
                    }
                }
                return None;
            },
        }
        t = t + 1;
    }
    proof {
        if forall|i: int| 0 <= i < 81 ==> #[trigger] sudoku@[i] != 0 {
            assert(res@ =~= sudoku@);
        }
        assert forall|a: Seq<u8>|
            #[trigger] valid_solution(a) && (forall|i: int|
                0 <= i < 81 && sudoku@[i] != 0 ==> a[i] == sudoku@[i]) implies res@ == a by {
            assert(forall|q: int| 0 <= q < 81 ==> res@[q] == a[q]);
            assert(res@ =~= a);
        }
    }
    if !check_valid(&res) {
        proof {
            if valid_solution(sudoku@) {
                assert(res@ =~= sudoku@);
                assert(false);
            }
        }
        return None;
    }
    proof {
        if exists|x: int, y: int|
            0 <= x < 81 && 0 <= y < 81 && x != y && sees(x, y) && sudoku@[x] != 0 && sudoku@[x]
                == sudoku@[y] {
            let (x, y) = choose|x: int, y: int|
                0 <= x < 81 && 0 <= y < 81 && x != y && sees(x, y) && sudoku@[x] != 0
                    && sudoku@[x] == sudoku@[y];
            assert(res@[x] == sudoku@[x] && res@[y] == sudoku@[y]);
            assert(res@[x] != res@[y]);
            assert(false);
        }
    }
    Some(res)
}

/// Cells decided before a propagation step stay decided the same way after a
/// successful one.
proof fn lemma_singletons_stay(gpre: Seq<DigitSet>, gpost: Seq<DigitSet>, cues: Seq<u8>, s: int)
    requires
        s <= 81,
        all_wf(gpre),
        all_wf(gpost),
        none_empty(gpost),
        within(gpost, gpre),
        forall|i: int|
            0 <= i < s && cues[i] != 0 ==> (#[trigger] gpre[i]).size() == 1 && gpre[i].has(
                cues[i],
            ),
    ensures
        forall|i: int|
            0 <= i < s && cues[i] != 0 ==> (#[trigger] gpost[i]).size() == 1 && gpost[i].has(
                cues[i],
            ),
{
    assert forall|i: int| 0 <= i < s && cues[i] != 0 implies (#[trigger] gpost[i]).size() == 1
        && gpost[i].has(cues[i]) by {
        assert(gpost[i].subset_of(gpre[i]));
        lemma_subset_size(gpost[i], gpre[i]);
        crate::digit_set::lemma_nonempty_witness(gpost[i]);
        let w = choose|w: u8| gpost[i].has(w);
        assert(gpre[i].has(w));
        lemma_singleton_unique(gpre[i], w, cues[i]);
    }
}

/// Whether the two grids hold the same values.
fn grids_match(a: &Sudoku, b: &[u8; 81]) -> (r: bool)
    ensures
        r <==> a@ == b@,
{
    let mut i: usize = 0;
    while i < 81
        invariant
            i <= 81,
            forall|k: int| 0 <= k < i ==> a@[k] == b@[k],
        decreases 81 - i,
    {
        if a.get(i) != b[i] {
            proof {
                assert(a@[i as int] != b@[i as int]);
            }
            return false;
        }
        i = i + 1;
    }
    proof {
        assert(a@ =~= b@);
    }
    true
}

/// A random permutation of the 81 cell indices.
fn random_permutation() -> (r: [usize; 81])
    ensures
        forall|i: int| 0 <= i < 81 ==> #[trigger] r@[i] < 81,
        forall|i: int, j: int| 0 <= i < j < 81 ==> r@[i] != r@[j],
{
    let mut a: [usize; 81] = [0usize; 81];
    let mut i: usize = 0;
    while i < 81
        invariant
            i <= 81,
            forall|k: int| 0 <= k < i ==> #[trigger] a@[k] == k,
        decreases 81 - i,
    {
        a[i] = i;
        i = i + 1;
    }
    let mut n: usize = 80;
    while n >= 1
        invariant
            n <= 80,
            forall|k: int| 0 <= k < 81 ==> #[trigger] a@[k] < 81,
            forall|k: int, l: int| 0 <= k < l < 81 ==> a@[k] != a@[l],
        decreases n,
    {
        let j = random_below(n + 1);
        let ghost apre = a@;
        let t = a[n];
        a[n] = a[j];
        a[j] = t;
        proof {
            assert forall|k: int, l: int| 0 <= k < l < 81 implies a@[k] != a@[l] by {
                assert(apre[k as int] != apre[l as int] || k == l);
            }
        }
        n = n - 1;
    }
    a
}

/// Generate a random sudoku with exactly the given number of cues, together
/// with its solution, by digging cues out of a random solved grid, one cue
/// at a time, while propagation alone still reproduces that exact solution.
/// Whenever no single removal preserves this, the walk restarts from the
/// full solution with a fresh random removal order. The walk stops the
/// moment the cue count reaches the threshold, so it is met exactly.
pub fn generate_subtractive(hints: usize) -> (r: (Sudoku, [u8; 81]))
    requires
        17 <= hints <= 81,
    ensures
        r.0.wf(),
        cue_count(r.0@, 81) == hints,
        valid_solution(r.1@),
        forall|i: int| 0 <= i < 81 ==> 1 <= #[trigger] r.1@[i] <= 9,
        forall|i: int| 0 <= i < 81 && r.0@[i] != 0 ==> #[trigger] r.0@[i] == r.1@[i],
{
    let solved = Sudoku::generate_random_solution();
    let solution: [u8; 81] = solved.grid;
    proof {
        lemma_cue_count_split(solved@, 81, 81);
    }
    let mut sudoku = solved;
    let mut order = random_permutation();
    let mut i: usize = 0;
    let mut fuel: u64 = GENERATION_FUEL;
    loop
        invariant
            17 <= hints <= 81,
            i <= 80,
            sudoku.wf(),
            solved.wf(),
            solved@ == solution@,
            valid_solution(solution@),
            cue_count(solved@, 81) == 81,
            cue_count(sudoku@, 81) >= hints,
            forall|k: int| 0 <= k < 81 ==> 1 <= #[trigger] solution@[k] <= 9,
            forall|k: int| 0 <= k < 81 && sudoku@[k] != 0 ==> #[trigger] sudoku@[k] == solution@[k],
            forall|k: int| 0 <= k < 81 ==> #[trigger] order@[k] < 81,
        decreases fuel,
    {
        if sudoku.count_cues() <= hints {
            return (sudoku, solution);
        }
        proof {
            lemma_cue_count_bounds(sudoku@, 81);
        }
        if fuel == 0 {
            let reduced = keep_first_cues(&solved, hints);
            return (reduced, solution);
        }
        fuel = fuel - 1;
        if i >= 80 {
            order = random_permutation();
            sudoku = solved;
            i = 0;
        }
        let mut new = sudoku;
        let ghost npre = new@;
        let target = order[i];
        new.set(target, 0);
        proof {
            lemma_cue_count_update(npre, target as int, 0, 81);
        }
        i = i + 1;
        if let Some(sol) = constrain(&new) {
            if grids_match(&sol, &solution) {
                sudoku = new;
            }
        }
    }
}

/// The given solved grid with everything but its first `hints` cells
/// emptied, leaving exactly `hints` cues.
fn keep_first_cues(solved: &Sudoku, hints: usize) -> (r: Sudoku)
    requires
        solved.wf(),
        hints <= 81,
        forall|k: int| 0 <= k < 81 ==> 1 <= #[trigger] solved@[k] <= 9,
    ensures
        r.wf(),
        cue_count(r@, 81) == hints,
        forall|k: int| 0 <= k < 81 && r@[k] != 0 ==> #[trigger] r@[k] == solved@[k],
{
    let mut r = *solved;
    let mut z: usize = hints;
    while z < 81
        invariant
            hints <= z <= 81,
            r.wf(),
            forall|k: int| 0 <= k < hints ==> #[trigger] r@[k] == solved@[k],
            forall|k: int| hints <= k < z ==> #[trigger] r@[k] == 0,
            forall|k: int| z <= k < 81 ==> #[trigger] r@[k] == solved@[k],
        decreases 81 - z,
    {
        r.set(z, 0);
        z = z + 1;
    }
    proof {
        lemma_cue_count_split(r@, hints as int, 81);
    }
    r
}

/// One random tiebreak value per cell, each drawn as a byte below 255.
fn random_tiebreaks() -> (r: [u8; 81]) {
    let mut r: [u8; 81] = [0u8; 81];
    let mut j: usize = 0;
    while j < 81
        invariant
            j <= 81,
        decreases 81 - j,
    {
        r[j] = random_u8_below(255);
        j = j + 1;
    }
    r
}

/// A cell whose candidate set is as large as any other's, with a random
/// tiebreak among the largest.
fn find_max_cell(grid: &[DigitSet; 81], tiebreaks: &[u8; 81]) -> (r: usize)
    requires
        all_wf(grid@),
    ensures
        r < 81,
        forall|j: int| 0 <= j < 81 ==> (#[trigger] grid@[j]).size() <= grid@[r as int].size(),
{
    let mut best: usize = 0;
    let mut best_count = grid[0].count();
    let mut best_tie = tiebreaks[0];
    let mut j: usize = 1;
    while j < 81
        invariant
            1 <= j <= 81,
            best < 81,
            all_wf(grid@),
            best_count == grid@[best as int].size(),
            best_tie == tiebreaks@[best as int],
            forall|t: int| 0 <= t < j ==> (#[trigger] grid@[t]).size() <= best_count,
        decreases 81 - j,
    {
        let c = grid[j].count();
        let t = tiebreaks[j];
        if c > best_count || (c == best_count && t > best_tie) {
            best = j;
            best_count = c;
            best_tie = t;
        }
        j = j + 1;
    }
    best
}

/// Generate a random sudoku with exactly the given number of cues that can be
/// solved purely by repeatedly propagating the trivial constraints in
/// `constrain` with no additional search. This guarantees that a human does
/// not have to guess at any point to obtain the solution. Cues are only ever
/// added, on a least-constrained cell first, and the whole attempt is redrawn
/// whenever the cues run out before the grid is decided.
pub fn _generate_additive(hints: usize) -> (r: (Sudoku, [u8; 81]))
    requires
        17 <= hints <= 81,
    ensures
        r.0.wf(),
        cue_count(r.0@, 81) == hints,
        valid_solution(r.1@),
        forall|i: int| 0 <= i < 81 ==> 1 <= #[trigger] r.1@[i] <= 9,
        forall|i: int| 0 <= i < 81 && r.0@[i] != 0 ==> #[trigger] r.0@[i] == r.1@[i],
{
    let topo = Topology::new();
    let mut fuel: u64 = GENERATION_FUEL;
    loop
        invariant
            topo.wf(),
            17 <= hints <= 81,
        decreases fuel,
    {
        if fuel == 0 {
            let solved = canonical_solution();
            let solution: [u8; 81] = solved.grid;
            let reduced = keep_first_cues(&solved, hints);
            return (reduced, solution);
        }
        fuel = fuel - 1;
        let tiebreaks = random_tiebreaks();
        let mut grid: [DigitSet; 81] = full_grid();
        let mut res = Sudoku::empty();
        proof {
            lemma_cue_count_split(res@, 0, 81);
        }
        let mut cues: usize = 0;
        let mut ok: bool = true;
        let mut done = all_single(&grid);
        while ok && !done && cues < hints
            invariant
                topo.wf(),
                hints <= 81,
                all_wf(grid@),
                res.wf(),
                cues == cue_count(res@, 81),
                cues <= hints,
                ok ==> none_empty(grid@),
                ok ==> (done <==> (forall|i: int|
                    0 <= i < 81 ==> (#[trigger] grid@[i]).size() == 1)),
                ok ==> (forall|i: int|
                    0 <= i < 81 && res@[i] != 0 ==> (#[trigger] grid@[i]).size() == 1
                        && grid@[i].has(res@[i])),
            decreases hints - cues,
        {
            let square = find_max_cell(&grid, &tiebreaks);
            proof {
                let w = choose|w: int| 0 <= w < 81 && grid@[w].size() != 1;
                assert(grid@[w].size() >= 1);
                assert(grid@[square as int].size() >= 2);
                assert(res@[square as int] == 0);
            }
            let d = grid[square].select_random();
            let v = match d.single_to_number() {
                Some(v) => v,
                None => unreached(),
            };
            let ghost respre = res@;
            res.set(square, v);
            proof {
                lemma_cue_count_update(respre, square as int, v, 81);
            }
            cues = cues + 1;
            let ghost gpre = grid@;
            if !assign(&topo, &mut grid, square, d) {
                ok = false;
            } else {
                proof {
                    lemma_singletons_stay(gpre, grid@, respre, 81);
                    assert(grid@[square as int] == d);
                    assert forall|i: int|
                        0 <= i < 81 && res@[i] != 0 implies (#[trigger] grid@[i]).size() == 1
                        && grid@[i].has(res@[i]) by {
                        if i != square as int {
                            assert(respre[i] == res@[i]);
                        }
                    }
                }
            }
            done = all_single(&grid);
            proof {
                if ok {
                    assert(done <==> (forall|i: int|
                        0 <= i < 81 ==> (#[trigger] grid@[i]).size() == 1));
                }
            }
        }
        if ok && done && cues == hints {
            let sol_sudoku = collapse_to_sudoku(&grid);
            if check_valid(&sol_sudoku) {
                let solution: [u8; 81] = sol_sudoku.grid;
                proof {
                    assert forall|i: int| 0 <= i < 81 && res@[i] != 0 implies #[trigger] res@[i]
                        == solution@[i] by {
                        lemma_singleton_unique(grid@[i], res@[i], solution@[i]);
                    }
                }
                return (res, solution);
            }
        }
    }
}

} // verus!

