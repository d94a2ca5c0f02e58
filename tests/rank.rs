use seam_carver::kernel::VecKernel;
use seam_carver::rank::rank_cells;

#[test]
fn ranks_follow_energy_then_position() {
    let e = VecKernel::from_vec(3, 2, vec![50u32, 10, 50, 0, 10, 7]);
    let r = rank_cells(&e);
    assert_eq!(r.size(), (3, 2));
    // Order: 0 (i=3), 7 (i=5), 10 (i=1), 10 (i=4), 50 (i=0), 50 (i=2).
    assert_eq!(r.into_vec(), vec![4, 2, 5, 0, 3, 1]);
}

#[test]
fn ranks_of_sorted_cells_are_positions() {
    let e = VecKernel::from_vec(4, 1, vec![1u32, 2, 3, u32::MAX]);
    assert_eq!(rank_cells(&e).into_vec(), vec![0, 1, 2, 3]);
}

#[test]
fn ranks_of_empty_grid() {
    let e: VecKernel<u32> = VecKernel::from_vec(0, 3, vec![]);
    assert!(rank_cells(&e).into_vec().is_empty());
}
