use seam_carver::carve::carve_vertical;
use seam_carver::kernel::VecKernel;

#[test]
fn carve_removes_one_cell_per_row() {
    // The seam lists the last row first.
    let g = VecKernel::from_vec(3, 2, vec![1u32, 2, 3, 4, 5, 6]);
    let r = carve_vertical(&g, &[0, 2]);
    assert_eq!(r.size(), (2, 2));
    assert_eq!(r.into_vec(), vec![1, 2, 5, 6]);
}

#[test]
fn carve_keeps_order_of_survivors() {
    let g = VecKernel::from_vec(4, 3, (0u32..12).collect());
    let r = carve_vertical(&g, &[3, 2, 1]);
    assert_eq!(r.size(), (3, 3));
    assert_eq!(r.into_vec(), vec![0, 2, 3, 4, 5, 7, 8, 9, 10]);
}

#[test]
fn carve_single_column_to_empty_rows() {
    let g = VecKernel::from_vec(1, 2, vec![[1u8, 2, 3, 4], [5, 6, 7, 8]]);
    let r = carve_vertical(&g, &[0, 0]);
    assert_eq!(r.size(), (0, 2));
    assert!(r.into_vec().is_empty());
}
