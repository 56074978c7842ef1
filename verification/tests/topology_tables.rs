use sudoku_engine::topology::Topology;

fn same_row(a: usize, b: usize) -> bool {
    a / 9 == b / 9
}

fn same_col(a: usize, b: usize) -> bool {
    a % 9 == b % 9
}

fn same_box(a: usize, b: usize) -> bool {
    (a / 27, a % 9 / 3) == (b / 27, b % 9 / 3)
}

fn shares_unit(a: usize, b: usize) -> bool {
    same_row(a, b) || same_col(a, b) || same_box(a, b)
}

#[test]
fn units_of_first_cell() {
    let topo = Topology::new();
    let row: Vec<usize> = (0..9).map(|j| topo.unit_member(0, 0, j)).collect();
    assert_eq!(row, vec![0, 1, 2, 3, 4, 5, 6, 7, 8]);
    let col: Vec<usize> = (0..9).map(|j| topo.unit_member(0, 1, j)).collect();
    assert_eq!(col, vec![0, 9, 18, 27, 36, 45, 54, 63, 72]);
    let boxu: Vec<usize> = (0..9).map(|j| topo.unit_member(0, 2, j)).collect();
    assert_eq!(boxu, vec![0, 1, 2, 9, 10, 11, 18, 19, 20]);
}

#[test]
fn units_of_center_cell() {
    let topo = Topology::new();
    let s = 40;
    let row: Vec<usize> = (0..9).map(|j| topo.unit_member(s, 0, j)).collect();
    assert_eq!(row, vec![36, 37, 38, 39, 40, 41, 42, 43, 44]);
    let col: Vec<usize> = (0..9).map(|j| topo.unit_member(s, 1, j)).collect();
    assert_eq!(col, vec![4, 13, 22, 31, 40, 49, 58, 67, 76]);
    let boxu: Vec<usize> = (0..9).map(|j| topo.unit_member(s, 2, j)).collect();
    assert_eq!(boxu, vec![30, 31, 32, 39, 40, 41, 48, 49, 50]);
}

#[test]
fn every_unit_has_nine_distinct_members_including_the_cell() {
    let topo = Topology::new();
    for s in 0..81 {
        for k in 0..3 {
            let members: Vec<usize> = (0..9).map(|j| topo.unit_member(s, k, j)).collect();
            let mut sorted = members.clone();
            sorted.sort_unstable();
            sorted.dedup();
            assert_eq!(sorted.len(), 9, "unit {k} of cell {s} has duplicates");
            assert!(members.contains(&s), "unit {k} of cell {s} misses the cell");
            for &m in &members {
                assert!(m < 81);
                assert!(shares_unit(s, m));
            }
        }
    }
}

#[test]
fn peer_lists_are_the_deduplicated_units_without_the_cell() {
    let topo = Topology::new();
    for s in 0..81 {
        let n = topo.peer_count(s);
        assert_eq!(n, 20, "cell {s} has {n} peers");
        let peers: Vec<usize> = (0..n).map(|j| topo.peer(s, j)).collect();
        let mut sorted = peers.clone();
        sorted.sort_unstable();
        sorted.dedup();
        assert_eq!(sorted.len(), 20, "peer list of cell {s} has duplicates");
        assert!(!peers.contains(&s));
        for &p in &peers {
            assert!(p < 81);
            assert!(shares_unit(s, p));
        }
        for t in 0..81 {
            if t != s && shares_unit(s, t) {
                assert!(peers.contains(&t), "cell {s} misses peer {t}");
            }
        }
    }
}
