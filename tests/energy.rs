use seam_carver::energy::{sobel, BORDER_ENERGY};
use seam_carver::kernel::VecKernel;

#[test]
fn one_row_borders_and_interior() {
    let img = VecKernel::from_vec(
        4,
        1,
        vec![[0u8, 0, 0, 255], [0, 0, 0, 0], [255, 0, 0, 255], [3, 4, 0, 0]],
    );
    let e = sobel(&img).into_vec();
    assert_eq!(e[0], BORDER_ENERGY);
    assert_eq!(e[3], BORDER_ENERGY);
    // |(255, 0, 0, 0)| = 255: in units of 1/65280 of a normalised channel, 65280.
    assert_eq!(e[1], 65280);
    // |(3, 4, 0, 0)| = 5 → 5 · 256.
    assert_eq!(e[2], 1280);
}

#[test]
fn interior_energy_is_truncated_root() {
    // Squared distance 2 → ⌊256 · √2⌋ = 362.
    let img = VecKernel::from_vec(3, 1, vec![[0u8, 0, 0, 0], [9, 9, 9, 9], [1, 1, 0, 0]]);
    let e = sobel(&img).into_vec();
    assert_eq!(e, vec![BORDER_ENERGY, 362, BORDER_ENERGY]);
}

#[test]
fn constant_image_has_zero_interior_energy() {
    let img = VecKernel::from_vec(3, 3, vec![[10u8, 20, 30, 255]; 9]);
    let e = sobel(&img);
    assert_eq!(e.size(), (3, 3));
    let max = BORDER_ENERGY;
    assert_eq!(e.into_vec(), vec![max, 0, max, max, 0, max, max, 0, max]);
}

#[test]
fn narrow_images_are_all_border() {
    let img = VecKernel::from_vec(2, 2, vec![[1u8, 2, 3, 4], [5, 6, 7, 8], [9, 9, 9, 9], [0, 0, 0, 0]]);
    assert_eq!(sobel(&img).into_vec(), vec![BORDER_ENERGY; 4]);
}

#[test]
fn largest_difference_fits() {
    let img = VecKernel::from_vec(3, 1, vec![[0u8; 4], [0; 4], [255; 4]]);
    // |(255, 255, 255, 255)| = 510 → 510 · 256.
    assert_eq!(sobel(&img).into_vec(), vec![BORDER_ENERGY, 130560, BORDER_ENERGY]);
}
