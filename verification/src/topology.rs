use vstd::prelude::*;

use vstd::arithmetic::div_mod::{
    lemma_fundamental_div_mod, lemma_fundamental_div_mod_converse,
    lemma_mod_division_less_than_divisor, lemma_div_pos_is_pos,
};

verus! {

/// The row of a cell index.
pub open spec fn row_of(i: int) -> int {
    i / 9
}

/// The column of a cell index.
pub open spec fn col_of(i: int) -> int {
    i % 9
}

/// The 3-by-3 box of a cell index.
pub open spec fn box_of(i: int) -> int {
    (i / 27) * 3 + (i % 9) / 3
}

/// Whether two cells share a row, a column or a box.
pub open spec fn sees(a: int, b: int) -> bool {
    row_of(a) == row_of(b) || col_of(a) == col_of(b) || box_of(a) == box_of(b)
}

/// The j-th member of unit `k` of cell `s`: the cell's row for `k == 0`, its
/// column for `k == 1` and its box for `k == 2`.
pub open spec fn unit_cell(s: int, k: int, j: int) -> int {
    if k == 0 {
        (s / 9) * 9 + j
    } else if k == 1 {
        s % 9 + 9 * j
    } else {
        (s / 27) * 27 + ((s % 9) / 3) * 3 + (j / 3) * 9 + j % 3
    }
}

/// The division and remainder decompositions of a cell index by 9, 27 and 3.
proof fn lemma_cell_facts(i: int)
    requires
        0 <= i < 81,
    ensures
        i == 9 * (i / 9) + i % 9,
        0 <= i % 9 < 9,
        0 <= i / 9 < 9,
        i / 9 == 3 * (i / 27) + (i / 9) % 3,
        0 <= (i / 9) % 3 < 3,
        0 <= i / 27 < 3,
        i % 9 == 3 * ((i % 9) / 3) + (i % 9) % 3,
        0 <= (i % 9) / 3 < 3,
        0 <= (i % 9) % 3 < 3,
        i == 27 * (i / 27) + 9 * ((i / 9) % 3) + 3 * ((i % 9) / 3) + (i % 9) % 3,
{
    lemma_fundamental_div_mod(i, 9);
    lemma_mod_division_less_than_divisor(i, 9);
    lemma_div_pos_is_pos(i, 9);
    let q = i / 9;
    let r = i % 9;
    lemma_fundamental_div_mod(q, 3);
    lemma_mod_division_less_than_divisor(q, 3);
    lemma_div_pos_is_pos(q, 3);
    lemma_fundamental_div_mod(r, 3);
    lemma_mod_division_less_than_divisor(r, 3);
    lemma_div_pos_is_pos(r, 3);
    assert(i == 27 * (q / 3) + (9 * (q % 3) + r));
    lemma_fundamental_div_mod_converse(i, 27, q / 3, 9 * (q % 3) + r);
}

/// Every member of a unit of `s` is a valid cell that `s` sees, members with
/// distinct positions are distinct cells, and `s` itself is a member.
pub proof fn lemma_unit_members(s: int, k: int)
    requires
        0 <= s < 81,
        0 <= k < 3,
    ensures
        forall|j: int| 0 <= j < 9 ==> 0 <= #[trigger] unit_cell(s, k, j) < 81,
        forall|j: int| 0 <= j < 9 ==> sees(s, #[trigger] unit_cell(s, k, j)),
        forall|j1: int, j2: int|
            0 <= j1 < 9 && 0 <= j2 < 9 && j1 != j2 ==> unit_cell(s, k, j1) != unit_cell(s, k, j2),
        exists|j: int| 0 <= j < 9 && unit_cell(s, k, j) == s,
{
    lemma_cell_facts(s);
    assert forall|j: int| 0 <= j < 9 implies 0 <= #[trigger] unit_cell(s, k, j) < 81 && sees(
        s,
        unit_cell(s, k, j),
    ) by {
        lemma_unit_cell_facts(s, k, j);
    }
    assert forall|j1: int, j2: int|
        0 <= j1 < 9 && 0 <= j2 < 9 && j1 != j2 implies unit_cell(s, k, j1) != unit_cell(
        s,
        k,
        j2,
    ) by {
        lemma_unit_cell_facts(s, k, j1);
        lemma_unit_cell_facts(s, k, j2);
        if k == 2 {
            lemma_fundamental_div_mod(j1, 3);
            lemma_mod_division_less_than_divisor(j1, 3);
            lemma_div_pos_is_pos(j1, 3);
            lemma_fundamental_div_mod(j2, 3);
            lemma_mod_division_less_than_divisor(j2, 3);
            lemma_div_pos_is_pos(j2, 3);
        }
    }
    if k == 0 {
        assert(unit_cell(s, k, s % 9) == s);
    } else if k == 1 {
        assert(unit_cell(s, k, s / 9) == s);
    } else {
        let j = ((s / 9) % 3) * 3 + (s % 9) % 3;
        lemma_fundamental_div_mod_converse(j, 3, (s / 9) % 3, (s % 9) % 3);
        assert(unit_cell(s, k, j) == s);
    }
}

/// The row, column and box of the j-th member of unit `k` of `s`.
pub proof fn lemma_unit_cell_facts(s: int, k: int, j: int)
    requires
        0 <= s < 81,
        0 <= k < 3,
        0 <= j < 9,
    ensures
        0 <= unit_cell(s, k, j) < 81,
        k == 0 ==> row_of(unit_cell(s, k, j)) == row_of(s) && col_of(unit_cell(s, k, j)) == j,
        k == 1 ==> col_of(unit_cell(s, k, j)) == col_of(s) && row_of(unit_cell(s, k, j)) == j,
        k == 2 ==> box_of(unit_cell(s, k, j)) == box_of(s) && row_of(unit_cell(s, k, j)) % 3 == j
            / 3 && col_of(unit_cell(s, k, j)) % 3 == j % 3,
        k == 2 ==> unit_cell(s, k, j) / 9 == 3 * (s / 27) + j / 3 && unit_cell(s, k, j) % 9 == 3
            * ((s % 9) / 3) + j % 3,
        sees(s, unit_cell(s, k, j)),
{
    lemma_cell_facts(s);
    let t = unit_cell(s, k, j);
    if k == 0 {
        lemma_fundamental_div_mod_converse(t, 9, s / 9, j);
    } else if k == 1 {
        lemma_fundamental_div_mod_converse(t, 9, j, s % 9);
    } else {
        lemma_fundamental_div_mod(j, 3);
        lemma_mod_division_less_than_divisor(j, 3);
        lemma_div_pos_is_pos(j, 3);
        let bb = s / 27;
        let cc = (s % 9) / 3;
        // t == 27 * bb + 3 * cc + 9 * (j / 3) + j % 3
        lemma_fundamental_div_mod_converse(t, 27, bb, 9 * (j / 3) + 3 * cc + j % 3);
        lemma_fundamental_div_mod_converse(t, 9, 3 * bb + j / 3, 3 * cc + j % 3);
        lemma_fundamental_div_mod_converse(t % 9, 3, cc, j % 3);
        lemma_fundamental_div_mod_converse(t / 9, 3, bb, j / 3);
    }
}

/// A cell `t` is seen by `s` exactly when `t` lies in one of the three units
/// of `s`.
pub proof fn lemma_sees_iff_unit(s: int, t: int)
    requires
        0 <= s < 81,
        0 <= t < 81,
    ensures
        sees(s, t) <==> exists|k: int, j: int|
            0 <= k < 3 && 0 <= j < 9 && unit_cell(s, k, j) == t,
{
    lemma_cell_facts(s);
    lemma_cell_facts(t);
    if sees(s, t) {
        if row_of(s) == row_of(t) {
            assert(unit_cell(s, 0, t % 9) == t);
        } else if col_of(s) == col_of(t) {
            assert(unit_cell(s, 1, t / 9) == t);
        } else {
            assert(box_of(s) == box_of(t));
            assert(s / 27 == t / 27 && (s % 9) / 3 == (t % 9) / 3);
            let j = ((t / 9) % 3) * 3 + (t % 9) % 3;
            lemma_fundamental_div_mod_converse(j, 3, (t / 9) % 3, (t % 9) % 3);
            assert(unit_cell(s, 2, j) == 27 * (t / 27) + 3 * ((t % 9) / 3) + 9 * ((t / 9) % 3) + (
            t % 9) % 3);
            assert(unit_cell(s, 2, j) == t);
        }
    }
    if exists|k: int, j: int| 0 <= k < 3 && 0 <= j < 9 && unit_cell(s, k, j) == t {
        let (k, j) = choose|k: int, j: int| 0 <= k < 3 && 0 <= j < 9 && unit_cell(s, k, j) == t;
        lemma_unit_cell_facts(s, k, j);
    }
}

/// The fixed neighbourhood structure of the 81 cells: for each cell its three
/// units of nine cells each, and its list of distinct peers.
pub struct Topology {
    units: Vec<Vec<Vec<usize>>>,
    peers: Vec<Vec<usize>>,
}

impl Topology {
    /// The peer list of cell `s`.
    pub closed spec fn peers_of(self, s: int) -> Seq<usize> {
        self.peers@[s]@
    }

    /// The unit tables hold exactly the unit members of every cell.
    pub closed spec fn units_wf(self) -> bool {
        &&& self.units@.len() == 81
        &&& forall|s: int| 0 <= s < 81 ==> (#[trigger] self.units@[s])@.len() == 3
        &&& forall|s: int, k: int|
            0 <= s < 81 && 0 <= k < 3 ==> (#[trigger] self.units@[s]@[k])@.len() == 9
        &&& forall|s: int, k: int, j: int|
            0 <= s < 81 && 0 <= k < 3 && 0 <= j < 9 ==> (#[trigger] self.units@[s]@[k]@[j]) as int
                == unit_cell(s, k, j)
    }

    /// The peer lists hold, without duplicates, exactly the cells seen by each
    /// cell, the cell itself excluded.
    pub closed spec fn peers_wf(self) -> bool {
        &&& self.peers@.len() == 81
        &&& forall|s: int| 0 <= s < 81 ==> (#[trigger] self.peers@[s])@.no_duplicates()
        &&& forall|s: int, j: int|
            0 <= s < 81 && 0 <= j < self.peers@[s]@.len() ==> 0 <= (
            #[trigger] self.peers@[s]@[j]) < 81 && self.peers@[s]@[j] as int != s && sees(
                s,
                self.peers@[s]@[j] as int,
            )
        &&& forall|s: int, t: int|
            0 <= s < 81 && 0 <= t < 81 && t != s && sees(s, t) ==> (
            #[trigger] self.peers@[s]@.contains(t as usize))
    }

    /// Both tables describe the fixed geometry.
    pub open spec fn wf(self) -> bool {
        self.units_wf() && self.peers_wf()
    }

    /// The peer list of every cell has no duplicates, holds only valid cells
    /// seen by it and distinct from it, and holds every such cell.
    pub proof fn lemma_peers(self, s: int)
        requires
            self.wf(),
            0 <= s < 81,
        ensures
            self.peers_of(s).no_duplicates(),
            forall|j: int|
                0 <= j < self.peers_of(s).len() ==> 0 <= (#[trigger] self.peers_of(s)[j]) < 81
                    && self.peers_of(s)[j] as int != s && sees(s, self.peers_of(s)[j] as int),
            forall|t: int|
                0 <= t < 81 && t != s && sees(s, t) ==> self.peers_of(s).contains(t as usize),
    {
    }

    /// The j-th member of unit `k` of cell `s`.
    pub fn unit_member(&self, s: usize, k: usize, j: usize) -> (r: usize)
        requires
            self.wf(),
            s < 81,
            k < 3,
            j < 9,
        ensures
            r as int == unit_cell(s as int, k as int, j as int),
            r < 81,
    {
        self.units[s][k][j]
    }

    /// How many peers cell `s` has.
    pub fn peer_count(&self, s: usize) -> (r: usize)
        requires
            self.wf(),
            s < 81,
        ensures
            r == self.peers_of(s as int).len(),
    {
        self.peers[s].len()
    }

    /// The j-th peer of cell `s`.
    pub fn peer(&self, s: usize, j: usize) -> (r: usize)
        requires
            self.wf(),
            s < 81,
            j < self.peers_of(s as int).len(),
        ensures
            r == self.peers_of(s as int)[j as int],
            r < 81,
            r != s,
            sees(s as int, r as int),
    {
        self.peers[s][j]
    }

    /// Compute both tables from the fixed 9-by-9 geometry.
    pub fn new() -> (r: Topology)
        ensures
            r.wf(),
    {
        let mut units: Vec<Vec<Vec<usize>>> = Vec::new();
        let mut peers: Vec<Vec<usize>> = Vec::new();
        let mut s: usize = 0;
        while s < 81
            invariant
                s <= 81,
                units@.len() == s,
                peers@.len() == s,
                forall|s2: int| 0 <= s2 < s ==> (#[trigger] units@[s2])@.len() == 3,
                forall|s2: int, k: int|
                    0 <= s2 < s && 0 <= k < 3 ==> (#[trigger] units@[s2]@[k])@.len() == 9,
                forall|s2: int, k: int, j: int|
                    0 <= s2 < s && 0 <= k < 3 && 0 <= j < 9 ==> (#[trigger] units@[s2]@[k]@[j]) as int
                        == unit_cell(s2, k, j),
                forall|s2: int| 0 <= s2 < s ==> (#[trigger] peers@[s2])@.no_duplicates(),
                forall|s2: int, j: int|
                    0 <= s2 < s && 0 <= j < peers@[s2]@.len() ==> 0 <= (#[trigger] peers@[s2]@[j])
                        < 81 && peers@[s2]@[j] as int != s2 && sees(s2, peers@[s2]@[j] as int),
                forall|s2: int, t: int|
                    0 <= s2 < s && 0 <= t < 81 && t != s2 && sees(s2, t) ==> (
                    #[trigger] peers@[s2]@.contains(t as usize)),
            decreases 81 - s,
        {
            let cell_units = build_units_of(s);
            let cell_peers = build_peers_of(s);
            units.push(cell_units);
            peers.push(cell_peers);
            s = s + 1;
        }
        Topology { units, peers }
    }
}

/// The three unit member lists of cell `s`.
fn build_units_of(s: usize) -> (r: Vec<Vec<usize>>)
    requires
        s < 81,
    ensures
        r@.len() == 3,
        forall|k: int| 0 <= k < 3 ==> (#[trigger] r@[k])@.len() == 9,
        forall|k: int, j: int|
            0 <= k < 3 && 0 <= j < 9 ==> (#[trigger] r@[k]@[j]) as int == unit_cell(
                s as int,
                k,
                j,
            ),
{
    let mut r: Vec<Vec<usize>> = Vec::new();
    let mut k: usize = 0;
    while k < 3
        invariant
            s < 81,
            k <= 3,
            r@.len() == k,
            forall|k2: int| 0 <= k2 < k ==> (#[trigger] r@[k2])@.len() == 9,
            forall|k2: int, j: int|
                0 <= k2 < k && 0 <= j < 9 ==> (#[trigger] r@[k2]@[j]) as int == unit_cell(
                    s as int,
                    k2,
                    j,
                ),
        decreases 3 - k,
    {
        let mut members: Vec<usize> = Vec::new();
        let mut j: usize = 0;
        while j < 9
            invariant
                s < 81,
                k < 3,
                j <= 9,
                members@.len() == j,
                forall|j2: int|
                    0 <= j2 < j ==> (#[trigger] members@[j2]) as int == unit_cell(
                        s as int,
                        k as int,
                        j2,
                    ),
            decreases 9 - j,
        {
            let t = compute_unit_member(s, k, j);
            members.push(t);
            j = j + 1;
        }
        r.push(members);
        k = k + 1;
    }
    r
}

/// The j-th member of unit `k` of cell `s`, computed from the geometry.
fn compute_unit_member(s: usize, k: usize, j: usize) -> (r: usize)
    requires
        s < 81,
        k < 3,
        j < 9,
    ensures
        r as int == unit_cell(s as int, k as int, j as int),
        r < 81,
{
    proof {
        lemma_cell_facts(s as int);
        lemma_unit_cell_facts(s as int, k as int, j as int);
        if k == 2 {
            lemma_fundamental_div_mod(j as int, 3);
            lemma_mod_division_less_than_divisor(j as int, 3);
            lemma_div_pos_is_pos(j as int, 3);
        }
    }
    if k == 0 {
        (s / 9) * 9 + j
    } else if k == 1 {
        s % 9 + 9 * j
    } else {
        (s / 27) * 27 + ((s % 9) / 3) * 3 + (j / 3) * 9 + j % 3
    }
}

/// Whether the list holds the value.
fn vec_contains(v: &Vec<usize>, x: usize) -> (r: bool)
    ensures
        r == v@.contains(x),
{
    let mut i: usize = 0;
    while i < v.len()
        invariant
            i <= v@.len(),
            forall|j: int| 0 <= j < i ==> v@[j] != x,
        decreases v@.len() - i,
    {
        if v[i] == x {
            return true;
        }
        i = i + 1;
    }
    false
}

/// The peer list of cell `s`: the members of its three units, without
/// duplicates and without `s` itself.
fn build_peers_of(s: usize) -> (p: Vec<usize>)
    requires
        s < 81,
    ensures
        p@.no_duplicates(),
        forall|j: int|
            0 <= j < p@.len() ==> 0 <= (#[trigger] p@[j]) < 81 && p@[j] as int != s && sees(
                s as int,
                p@[j] as int,
            ),
        forall|t: int|
            0 <= t < 81 && t != s && sees(s as int, t) ==> (#[trigger] p@.contains(t as usize)),
{
    let mut p: Vec<usize> = Vec::new();
    let mut k: usize = 0;
    while k < 3
        invariant
            s < 81,
            k <= 3,
            p@.no_duplicates(),
            forall|j: int|
                0 <= j < p@.len() ==> 0 <= (#[trigger] p@[j]) < 81 && p@[j] as int != s && sees(
                    s as int,
                    p@[j] as int,
                ),
            forall|k2: int, j2: int|
                0 <= k2 < k && 0 <= j2 < 9 && unit_cell(s as int, k2, j2) != s ==> p@.contains(
                    unit_cell(s as int, k2, j2) as usize,
                ),
        decreases 3 - k,
    {
        let mut j: usize = 0;
        while j < 9
            invariant
                s < 81,
                k < 3,
                j <= 9,
                p@.no_duplicates(),
                forall|i: int|
                    0 <= i < p@.len() ==> 0 <= (#[trigger] p@[i]) < 81 && p@[i] as int != s && sees(
                        s as int,
                        p@[i] as int,
                    ),
                forall|k2: int, j2: int|
                    0 <= k2 < k && 0 <= j2 < 9 && unit_cell(s as int, k2, j2) != s ==> p@.contains(
                        unit_cell(s as int, k2, j2) as usize,
                    ),
                forall|j2: int|
                    0 <= j2 < j && unit_cell(s as int, k as int, j2) != s ==> p@.contains(
                        unit_cell(s as int, k as int, j2) as usize,
                    ),
            decreases 9 - j,
        {
            let t = compute_unit_member(s, k, j);
            proof {
                lemma_unit_cell_facts(s as int, k as int, j as int);
            }
            if t != s && !vec_contains(&p, t) {
                let ghost p0 = p@;
                p.push(t);
                proof {
                    assert forall|i: int, i2: int|
                        0 <= i < p@.len() && 0 <= i2 < p@.len() && i != i2 implies p@[i]
                        != p@[i2] by {
                        if i < p0.len() && i2 < p0.len() {
                        } else if i < p0.len() {
                            assert(p0.contains(p0[i]));
                        } else if i2 < p0.len() {
                            assert(p0.contains(p0[i2]));
                        }
                    }
                    assert(p@.no_duplicates());
                    assert forall|x: usize| p0.contains(x) implies p@.contains(x) by {
                        let w = choose|w: int| 0 <= w < p0.len() && p0[w] == x;
                        assert(p@[w] == x);
                    }
                    assert(p@[p@.len() - 1] == t);
                    assert(p@.contains(t));
                }
            }
            j = j + 1;
        }
        k = k + 1;
    }
    proof {
        assert forall|t: int| 0 <= t < 81 && t != s && sees(s as int, t) implies (
        #[trigger] p@.contains(t as usize)) by {
            lemma_sees_iff_unit(s as int, t);
            let (k2, j2) = choose|k2: int, j2: int|
                0 <= k2 < 3 && 0 <= j2 < 9 && unit_cell(s as int, k2, j2) == t;
            assert(p@.contains(unit_cell(s as int, k2, j2) as usize));
        }
    }
    p
}

} // verus!
