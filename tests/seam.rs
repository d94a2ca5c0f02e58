use seam_carver::kernel::VecKernel;
use seam_carver::seam::LowestDerivative;

/// The least total energy over every connected path from the first row to the last.
fn brute_force_min(e: &[u32], w: usize, h: usize) -> u64 {
    fn walk(e: &[u32], w: usize, h: usize, x: usize, y: usize) -> u64 {
        let own = e[y * w + x] as u64;
        if y + 1 == h {
            return own;
        }
        let mut best = u64::MAX;
        let lo = if x == 0 { 0 } else { x - 1 };
        let hi = if x + 1 == w { x } else { x + 1 };
        for nx in lo..=hi {
            best = best.min(walk(e, w, h, nx, y + 1));
        }
        own + best
    }
    (0..w).map(|x| walk(e, w, h, x, 0)).min().unwrap()
}

fn seam_cost(e: &[u32], w: usize, h: usize, seam: &[usize]) -> u64 {
    seam.iter()
        .enumerate()
        .map(|(k, &x)| e[(h - 1 - k) * w + x] as u64)
        .sum()
}

fn assert_valid_seam(seam: &[usize], w: usize, h: usize) {
    assert_eq!(seam.len(), h);
    for &x in seam {
        assert!(x < w);
    }
    for pair in seam.windows(2) {
        assert!(pair[0].abs_diff(pair[1]) <= 1);
    }
}

const GRID_4X4: [u32; 16] = [
    9, 1, 7, 3, //
    4, 8, 2, 6, //
    5, 3, 9, 1, //
    2, 7, 4, 8, //
];

#[test]
fn weight_matches_brute_force_on_4x4() {
    let found = LowestDerivative::find(VecKernel::from_vec(4, 4, GRID_4X4.to_vec()));
    assert_eq!(found.weight(), brute_force_min(&GRID_4X4, 4, 4));
    let seam = found.seam();
    assert_eq!(seam_cost(&GRID_4X4, 4, 4, &seam), found.weight());
}

#[test]
fn weight_matches_brute_force_on_several_grids() {
    let grids: [(usize, usize, Vec<u32>); 4] = [
        (3, 5, vec![5, 1, 5, 2, 9, 2, 7, 7, 0, 1, 1, 1, 4, 0, 4]),
        (5, 3, vec![3, 3, 3, 3, 3, 0, 9, 0, 9, 0, 1, 2, 3, 4, 5]),
        (1, 4, vec![4, 3, 2, 1]),
        (4, 1, vec![8, 6, 7, 5]),
    ];
    for (w, h, cells) in grids.iter() {
        let found = LowestDerivative::find(VecKernel::from_vec(*w, *h, cells.clone()));
        assert_eq!(found.weight(), brute_force_min(cells, *w, *h));
        let seam = found.seam();
        assert_valid_seam(&seam, *w, *h);
        assert_eq!(seam_cost(cells, *w, *h, &seam), found.weight());
    }
}

#[test]
fn seam_is_listed_from_last_row_up() {
    // The cheap cells run diagonally from (0, 0) to (2, 2).
    let e = vec![0u32, 9, 9, 9, 0, 9, 9, 9, 0];
    let found = LowestDerivative::find(VecKernel::from_vec(3, 3, e));
    assert_eq!(found.weight(), 0);
    assert_eq!(found.seam(), vec![2, 1, 0]);
}

#[test]
fn seam_is_valid_and_has_one_entry_per_row() {
    let found = LowestDerivative::find(VecKernel::from_vec(4, 4, GRID_4X4.to_vec()));
    assert_valid_seam(&found.seam(), 4, 4);
}

#[test]
fn find_twice_gives_identical_results() {
    let a = LowestDerivative::find(VecKernel::from_vec(4, 4, GRID_4X4.to_vec()));
    let b = LowestDerivative::find(VecKernel::from_vec(4, 4, GRID_4X4.to_vec()));
    assert_eq!(a.weight(), b.weight());
    assert_eq!(a.seam(), b.seam());
    assert_eq!(a.weights().clone().into_vec(), b.weights().clone().into_vec());
}

#[test]
fn equal_costs_choose_the_first_column() {
    let found = LowestDerivative::find(VecKernel::from_vec(3, 2, vec![1u32, 1, 1, 1, 1, 1]));
    assert_eq!(found.weight(), 2);
    assert_eq!(found.seam(), vec![0, 0]);
}

#[test]
fn weights_hold_the_cumulative_costs() {
    let found = LowestDerivative::find(VecKernel::from_vec(3, 2, vec![1u32, 2, 3, 4, 5, 6]));
    // Row 1: 4 + min(1, 2), 5 + min(1, 2, 3), 6 + min(2, 3).
    assert_eq!(found.weights().clone().into_vec(), vec![1, 2, 3, 5, 6, 8]);
    assert_eq!(found.weight(), 5);
}

#[test]
fn iter_walks_the_seam_and_ends() {
    let found = LowestDerivative::find(VecKernel::from_vec(3, 3, vec![0u32, 9, 9, 9, 0, 9, 9, 9, 0]));
    let mut it = found.iter();
    assert_eq!(it.next(), Some(2));
    assert_eq!(it.next(), Some(1));
    assert_eq!(it.next(), Some(0));
    assert_eq!(it.next(), None);
    assert_eq!(it.next(), None);
}

#[test]
fn border_energy_keeps_the_seam_inside() {
    let max = u32::MAX;
    let found = LowestDerivative::find(VecKernel::from_vec(3, 3, vec![max, 0, max, max, 0, max, max, 0, max]));
    assert_eq!(found.weight(), 0);
    assert_eq!(found.seam(), vec![1, 1, 1]);
}
