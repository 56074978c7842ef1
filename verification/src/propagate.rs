use vstd::prelude::*;

use crate::digit_set::{
    lemma_ext_eq, lemma_has_range, lemma_has_size_pos, lemma_nonempty_witness,
    lemma_singleton_unique, lemma_subset_size, DigitSet,
};
use crate::topology::{sees, unit_cell, Topology};
use vstd::pervasive::unreached;

verus! {

/// Every candidate set of the grid is well formed.
pub open spec fn all_wf(g: Seq<DigitSet>) -> bool {
    forall|i: int| 0 <= i < 81 ==> (#[trigger] g[i]).wf()
}

/// No candidate set of the grid is empty.
pub open spec fn none_empty(g: Seq<DigitSet>) -> bool {
    forall|i: int| 0 <= i < 81 ==> (#[trigger] g[i]).size() >= 1
}

/// Every candidate set of `a` is a subset of the one of `b` at the same cell.
pub open spec fn within(a: Seq<DigitSet>, b: Seq<DigitSet>) -> bool {
    forall|i: int| 0 <= i < 81 ==> (#[trigger] a[i]).subset_of(b[i])
}

/// A full assignment of 81 values is consistent with a candidate grid when
/// every cell still admits its value.
pub open spec fn consistent(a: Seq<u8>, g: Seq<DigitSet>) -> bool {
    forall|i: int| 0 <= i < 81 ==> (#[trigger] g[i]).has(a[i])
}

/// Whether unit `k` of cell `s` holds the digit `dd` somewhere under the
/// assignment `a`.
pub open spec fn unit_has_digit(a: Seq<u8>, s: int, k: int, dd: u8) -> bool {
    exists|j: int| 0 <= j < 9 && a[unit_cell(s, k, j)] == dd
}

/// A valid solved grid: 81 digits, distinct wherever two cells see each
/// other, and every digit present in every unit.
pub open spec fn valid_solution(a: Seq<u8>) -> bool {
    &&& a.len() == 81
    &&& forall|i: int| 0 <= i < 81 ==> 1 <= #[trigger] a[i] <= 9
    &&& forall|x: int, y: int|
        0 <= x < 81 && 0 <= y < 81 && x != y && #[trigger] sees(x, y) ==> a[x] != a[y]
    &&& forall|s: int, k: int, dd: u8|
        0 <= s < 81 && 0 <= k < 3 && 1 <= dd <= 9 ==> #[trigger] unit_has_digit(a, s, k, dd)
}

/// The total number of candidates in the first `n` cells of the grid.
pub open spec fn grid_total(g: Seq<DigitSet>, n: int) -> int
    decreases n,
{
    if n <= 0 {
        0
    } else {
        grid_total(g, n - 1) + g[n - 1].size()
    }
}

/// The total is never negative.
pub proof fn lemma_total_nonneg(g: Seq<DigitSet>, n: int)
    ensures
        grid_total(g, n) >= 0,
    decreases n,
{
    if n > 0 {
        lemma_total_nonneg(g, n - 1);
        crate::digit_set::lemma_size_bounds(g[n - 1]);
    }
}

/// Being within another grid is transitive.
pub proof fn lemma_within_trans(a: Seq<DigitSet>, b: Seq<DigitSet>, c: Seq<DigitSet>)
    requires
        within(a, b),
        within(b, c),
    ensures
        within(a, c),
{
    assert forall|i: int| 0 <= i < 81 implies (#[trigger] a[i]).subset_of(c[i]) by {
        assert(a[i].subset_of(b[i]));
        assert(b[i].subset_of(c[i]));
    }
}

/// A cell-wise bound on sizes bounds the total.
proof fn lemma_total_le(a: Seq<DigitSet>, b: Seq<DigitSet>, n: int)
    requires
        forall|i: int| 0 <= i < n ==> (#[trigger] a[i]).size() <= b[i].size(),
    ensures
        grid_total(a, n) <= grid_total(b, n),
    decreases n,
{
    if n > 0 {
        lemma_total_le(a, b, n - 1);
    }
}

/// A cell-wise bound on sizes that is strict somewhere bounds the total
/// strictly.
proof fn lemma_total_lt(a: Seq<DigitSet>, b: Seq<DigitSet>, n: int, idx: int)
    requires
        forall|i: int| 0 <= i < n ==> (#[trigger] a[i]).size() <= b[i].size(),
        0 <= idx < n,
        a[idx].size() < b[idx].size(),
    ensures
        grid_total(a, n) < grid_total(b, n),
    decreases n,
{
    if idx == n - 1 {
        lemma_total_le(a, b, n - 1);
    } else {
        lemma_total_lt(a, b, n - 1, idx);
    }
}

/// A grid within another has no larger total.
pub proof fn lemma_total_within(a: Seq<DigitSet>, b: Seq<DigitSet>)
    requires
        all_wf(a),
        all_wf(b),
        within(a, b),
    ensures
        grid_total(a, 81) <= grid_total(b, 81),
{
    assert forall|i: int| 0 <= i < 81 implies (#[trigger] a[i]).size() <= b[i].size() by {
        lemma_subset_size(a[i], b[i]);
    }
    lemma_total_le(a, b, 81);
}

/// A grid within another and differing somewhere has a strictly smaller total.
pub proof fn lemma_total_within_strict(a: Seq<DigitSet>, b: Seq<DigitSet>, idx: int)
    requires
        all_wf(a),
        all_wf(b),
        within(a, b),
        0 <= idx < 81,
        a[idx] != b[idx],
    ensures
        grid_total(a, 81) < grid_total(b, 81),
{
    assert forall|i: int| 0 <= i < 81 implies (#[trigger] a[i]).size() <= b[i].size() by {
        lemma_subset_size(a[i], b[i]);
    }
    lemma_subset_size(a[idx], b[idx]);
    lemma_total_lt(a, b, 81, idx);
}

/// Force cell `s` of the grid to the singleton `d` by eliminating every other
/// candidate digit the cell currently has, propagating as needed. A report of
/// `false` means a contradiction was found and the grid is to be discarded.
/// Propagation is sound: a valid solved grid that is consistent with the
/// candidate grid and gives `s` the digit of `d` stays consistent, and while
/// one exists the call cannot fail.
#[verifier::loop_isolation(false)]
pub fn assign(topo: &Topology, grid: &mut [DigitSet; 81], s: usize, d: DigitSet) -> (r: bool)
    requires
        topo.wf(),
        s < 81,
        all_wf(old(grid)@),
        none_empty(old(grid)@),
        d.wf(),
        d.size() == 1,
    ensures
        all_wf(final(grid)@),
        within(final(grid)@, old(grid)@),
        r ==> none_empty(final(grid)@),
        r ==> final(grid)@[s as int] == d,
        forall|a: Seq<u8>|
            valid_solution(a) && #[trigger] consistent(a, old(grid)@) && d.has(a[s as int]) ==> r
                && consistent(a, final(grid)@),
    decreases grid_total(old(grid)@, 81), 1int,
{
    let ghost g0 = grid@;
    let entry = grid[s];
    if entry == d {
        return true;
    }
    let dig = match d.single_to_number() {
        Some(dig) => dig,
        None => unreached(),
    };
    let mut v: u8 = 1;
    while v <= 9
        invariant
            1 <= v <= 10,
            all_wf(grid@),
            none_empty(grid@),
            within(grid@, g0),
            grid_total(grid@, 81) <= grid_total(g0, 81),
            forall|e: u8| 1 <= e < v && e != dig ==> !grid@[s as int].has(e),
            forall|a: Seq<u8>|
                valid_solution(a) && #[trigger] consistent(a, g0) && d.has(a[s as int])
                    ==> consistent(a, grid@),
        decreases 10 - v,
    {
        if v != dig && entry.has_digit(v) {
            let dv = DigitSet::new(v);
            let ghost gpre = grid@;
            proof {
                lemma_total_nonneg(grid@, 81);
            }
            if !eliminate(topo, grid, s, dv) {
                proof {
                    lemma_within_trans(grid@, gpre, g0);
                    assert forall|a: Seq<u8>|
                        valid_solution(a) && #[trigger] consistent(a, g0) && d.has(
                            a[s as int],
                        ) implies false by {
                        assert(consistent(a, gpre));
                        lemma_singleton_unique(d, a[s as int], dig);
                        assert(!dv.has(a[s as int]));
                    }
                }
                return false;
            }
            proof {
                lemma_within_trans(grid@, gpre, g0);
                lemma_total_within(grid@, gpre);
                assert forall|e: u8| 1 <= e < v + 1 && e != dig implies !grid@[s as int].has(
                    e,
                ) by {
                    if e == v {
                        assert(!(grid@[s as int].has(e) && dv.has(e)));
                    } else {
                        assert(!gpre[s as int].has(e));
                        assert(grid@[s as int].subset_of(gpre[s as int]));
                    }
                }
                assert forall|a: Seq<u8>|
                    valid_solution(a) && #[trigger] consistent(a, g0) && d.has(
                        a[s as int],
                    ) implies consistent(a, grid@) by {
                    assert(consistent(a, gpre));
                    lemma_singleton_unique(d, a[s as int], dig);
                    assert(!dv.has(a[s as int]));
                }
            }
        } else {
            proof {
                assert forall|e: u8| 1 <= e < v + 1 && e != dig implies !grid@[s as int].has(
                    e,
                ) by {
                    if e == v {
                        assert(grid@[s as int].subset_of(entry));
                    }
                }
            }
        }
        v = v + 1;
    }
    proof {
        let cur = grid@[s as int];
        assert forall|e: u8| cur.has(e) implies d.has(e) by {
            assert(cur.subset_of(entry));
            if e != dig {
                if 1 <= e <= 9 {
                    assert(!cur.has(e));
                } else {
                    lemma_has_range(cur, e);
                }
            }
        }
        assert forall|e: u8| d.has(e) implies cur.has(e) by {
            lemma_singleton_unique(d, e, dig);
            lemma_nonempty_witness(cur);
            let w = choose|w: u8| cur.has(w);
            assert(d.has(w));
            lemma_singleton_unique(d, w, dig);
        }
        lemma_ext_eq(grid@[s as int], d);
    }
    true
}

/// Remove the single digit of `d` from cell `s`, then propagate: a cell left
/// with one candidate excludes that digit from its peers, and a digit left
/// with one feasible cell in a unit is assigned there. A report of `false`
/// means a contradiction was found and the grid is to be discarded; removing
/// a digit the cell does not have changes nothing and succeeds. Propagation
/// is sound: a valid solved grid that is consistent with the candidate grid
/// and gives `s` another digit stays consistent, and while one exists the
/// call cannot fail.
#[verifier::loop_isolation(false)]
pub fn eliminate(topo: &Topology, grid: &mut [DigitSet; 81], s: usize, d: DigitSet) -> (r: bool)
    requires
        topo.wf(),
        s < 81,
        all_wf(old(grid)@),
        none_empty(old(grid)@),
        d.wf(),
        d.size() == 1,
    ensures
        all_wf(final(grid)@),
        within(final(grid)@, old(grid)@),
        r ==> none_empty(final(grid)@),
        r ==> final(grid)@[s as int].disjoint(d),
        old(grid)@[s as int].disjoint(d) ==> r && final(grid)@ == old(grid)@,
        forall|a: Seq<u8>|
            valid_solution(a) && #[trigger] consistent(a, old(grid)@) && !d.has(a[s as int]) ==> r
                && consistent(a, final(grid)@),
    decreases grid_total(old(grid)@, 81), 0int,
{
    let ghost g0 = grid@;
    let cur = grid[s];
    if cur.doesnt_contain(d) {
        return true;
    }
    proof {
        lemma_nonempty_witness(d);
    }
    let ghost dig = choose|dd: u8| d.has(dd);
    proof {
        lemma_has_range(d, dig);
    }
    let updated = cur.sub(d);
    if updated.is_empty() {
        proof {
            assert forall|a: Seq<u8>|
                valid_solution(a) && #[trigger] consistent(a, g0) && !d.has(
                    a[s as int],
                ) implies false by {
                assert(cur.has(a[s as int]));
                assert(updated.has(a[s as int]));
                lemma_has_size_pos(updated, a[s as int]);
            }
        }
        return false;
    }
    grid[s] = updated;
    proof {
        crate::digit_set::lemma_size_bounds(updated);
        assert(updated.subset_of(cur));
        assert(updated != cur) by {
            crate::digit_set::lemma_overlap_nonempty(cur, d);
            let e = choose|e: u8| cur.has(e) && d.has(e);
            assert(!updated.has(e));
        }
        assert(within(grid@, g0));
        lemma_total_within_strict(grid@, g0, s as int);
    }
    let ghost g1 = grid@;
    proof {
        assert forall|a: Seq<u8>|
            valid_solution(a) && #[trigger] consistent(a, g0) && !d.has(
                a[s as int],
            ) implies consistent(a, g1) by {
            assert(cur.has(a[s as int]));
            assert(updated.has(a[s as int]));
            assert forall|i: int| 0 <= i < 81 implies (#[trigger] g1[i]).has(a[i]) by {
                if i != s as int {
                    assert(g1[i] == g0[i]);
                }
            }
        }
    }
    if updated.is_single() {
        let n = topo.peer_count(s);
        let mut idx: usize = 0;
        while idx < n
            invariant
                idx <= n,
                all_wf(grid@),
                none_empty(grid@),
                within(grid@, g1),
                grid_total(grid@, 81) <= grid_total(g1, 81),
                forall|a: Seq<u8>|
                    valid_solution(a) && #[trigger] consistent(a, g0) && !d.has(a[s as int])
                        ==> consistent(a, grid@),
            decreases n - idx,
        {
            let p = topo.peer(s, idx);
            let ghost gpre = grid@;
            proof {
                lemma_total_nonneg(grid@, 81);
            }
            if !eliminate(topo, grid, p, updated) {
                proof {
                    lemma_within_trans(grid@, gpre, g1);
                    lemma_within_trans(grid@, g1, g0);
                    assert forall|a: Seq<u8>|
                        valid_solution(a) && #[trigger] consistent(a, g0) && !d.has(
                            a[s as int],
                        ) implies false by {
                        assert(consistent(a, gpre));
                        assert(gpre[s as int].subset_of(updated));
                        assert(updated.has(a[s as int]));
                        assert(a[p as int] != a[s as int]);
                        assert(!updated.has(a[p as int])) by {
                            if updated.has(a[p as int]) {
                                lemma_singleton_unique(updated, a[p as int], a[s as int]);
                            }
                        }
                    }
                }
                return false;
            }
            proof {
                lemma_within_trans(grid@, gpre, g1);
                lemma_total_within(grid@, gpre);
                assert forall|a: Seq<u8>|
                    valid_solution(a) && #[trigger] consistent(a, g0) && !d.has(
                        a[s as int],
                    ) implies consistent(a, grid@) by {
                    assert(consistent(a, gpre));
                    assert(gpre[s as int].subset_of(updated));
                    assert(updated.has(a[s as int]));
                    assert(a[p as int] != a[s as int]);
                    assert(!updated.has(a[p as int])) by {
                        if updated.has(a[p as int]) {
                            lemma_singleton_unique(updated, a[p as int], a[s as int]);
                        }
                    }
                }
            }
            idx = idx + 1;
        }
    }
    let mut k: usize = 0;
    while k < 3
        invariant
            k <= 3,
            all_wf(grid@),
            none_empty(grid@),
            within(grid@, g1),
            grid_total(grid@, 81) <= grid_total(g1, 81),
            forall|a: Seq<u8>|
                valid_solution(a) && #[trigger] consistent(a, g0) && !d.has(a[s as int])
                    ==> consistent(a, grid@),
        decreases 3 - k,
    {
        let mut j: usize = 0;
        let mut nfound: usize = 0;
        let mut found: usize = 0;
        while j < 9
            invariant
                j <= 9,
                nfound <= j,
                nfound >= 1 ==> found < 81,
                nfound == 0 ==> forall|j2: int|
                    0 <= j2 < j ==> !d.subset_of(
                        grid@[unit_cell(s as int, k as int, j2)],
                    ),
                nfound == 1 ==> forall|j2: int|
                    0 <= j2 < j && d.subset_of(grid@[unit_cell(s as int, k as int, j2)])
                        ==> unit_cell(s as int, k as int, j2) == found as int,
            decreases 9 - j,
        {
            let t = topo.unit_member(s, k, j);
            if grid[t].contains(d) {
                nfound = nfound + 1;
                if nfound == 1 {
                    found = t;
                }
            }
            j = j + 1;
        }
        if nfound == 0 {
            proof {
                lemma_within_trans(grid@, g1, g0);
                assert forall|a: Seq<u8>|
                    valid_solution(a) && #[trigger] consistent(a, g0) && !d.has(
                        a[s as int],
                    ) implies false by {
                    assert(consistent(a, grid@));
                    assert(unit_has_digit(a, s as int, k as int, dig));
                    let jw = choose|j2: int|
                        0 <= j2 < 9 && a[unit_cell(s as int, k as int, j2)] == dig;
                    crate::topology::lemma_unit_members(s as int, k as int);
                    let tw = unit_cell(s as int, k as int, jw);
                    assert(grid@[tw].has(a[tw]));
                    assert forall|e: u8| d.has(e) implies grid@[tw].has(e) by {
                        lemma_singleton_unique(d, e, dig);
                    }
                    assert(d.subset_of(grid@[tw]));
                }
            }
            return false;
        }
        if nfound == 1 {
            let ghost gpre = grid@;
            proof {
                lemma_total_nonneg(grid@, 81);
            }
            if !assign(topo, grid, found, d) {
                proof {
                    lemma_within_trans(grid@, gpre, g1);
                    lemma_within_trans(grid@, g1, g0);
                    assert forall|a: Seq<u8>|
                        valid_solution(a) && #[trigger] consistent(a, g0) && !d.has(
                            a[s as int],
                        ) implies false by {
                        assert(consistent(a, gpre));
                        lemma_unique_feasible_is_solution_cell(a, gpre, s as int, k as int, d, dig, found as int);
                    }
                }
                return false;
            }
            proof {
                lemma_within_trans(grid@, gpre, g1);
                lemma_total_within(grid@, gpre);
                assert forall|a: Seq<u8>|
                    valid_solution(a) && #[trigger] consistent(a, g0) && !d.has(
                        a[s as int],
                    ) implies consistent(a, grid@) by {
                    assert(consistent(a, gpre));
                    lemma_unique_feasible_is_solution_cell(a, gpre, s as int, k as int, d, dig, found as int);
                }
            }
        }
        k = k + 1;
    }
    proof {
        lemma_within_trans(grid@, g1, g0);
        assert forall|e: u8| !(grid@[s as int].has(e) && d.has(e)) by {
            if grid@[s as int].has(e) {
                assert(grid@[s as int].subset_of(g1[s as int]));
                assert(updated.has(e));
            }
        }
    }
    true
}

/// When cell `found` is the only cell of unit `k` of `s` that still admits
/// the digit of `d`, a valid solved grid consistent with the candidate grid
/// places that digit at `found`.
proof fn lemma_unique_feasible_is_solution_cell(
    a: Seq<u8>,
    g: Seq<DigitSet>,
    s: int,
    k: int,
    d: DigitSet,
    dig: u8,
    found: int,
)
    requires
        valid_solution(a),
        consistent(a, g),
        0 <= s < 81,
        0 <= k < 3,
        d.size() == 1,
        d.has(dig),
        1 <= dig <= 9,
        forall|j2: int|
            0 <= j2 < 9 && d.subset_of(g[unit_cell(s, k, j2)]) ==> unit_cell(s, k, j2) == found,
    ensures
        d.has(a[found]),
{
    assert(unit_has_digit(a, s, k, dig));
    let jw = choose|j2: int| 0 <= j2 < 9 && a[unit_cell(s, k, j2)] == dig;
    crate::topology::lemma_unit_members(s, k);
    let tw = unit_cell(s, k, jw);
    assert(g[tw].has(a[tw]));
    assert forall|e: u8| d.has(e) implies g[tw].has(e) by {
        lemma_singleton_unique(d, e, dig);
    }
    assert(d.subset_of(g[tw]));
    assert(tw == found);
    assert(a[found] == dig);
}

} // verus!
