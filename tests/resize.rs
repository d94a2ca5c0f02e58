use seam_carver::carve::carve_vertical;
use seam_carver::energy::sobel;
use seam_carver::kernel::VecKernel;
use seam_carver::resize::{carve_step, check_target, index_map, resize, seam_origins, ResizeError};
use seam_carver::seam::LowestDerivative;

fn gradient_image(w: usize, h: usize) -> VecKernel<[u8; 4]> {
    VecKernel::from_fn(w, h, |x, y| [(x * 40) as u8, (y * 30) as u8, ((x * y) % 256) as u8, 255])
}

#[test]
fn constant_three_by_three_carved_once() {
    let img = VecKernel::from_vec(3, 3, vec![[10u8, 20, 30, 255]; 9]);
    let energy = sobel(&img);
    let max = u32::MAX;
    assert_eq!(energy.clone().into_vec(), vec![max, 0, max, max, 0, max, max, 0, max]);
    let found = LowestDerivative::find(energy);
    assert_eq!(found.weight(), 0);
    let seam = found.seam();
    assert_eq!(seam, vec![1, 1, 1]);
    let carved = carve_vertical(&img, &seam);
    assert_eq!(carved.size(), (2, 3));
    assert_eq!(carved.into_vec(), vec![[10u8, 20, 30, 255]; 6]);
    // Columns 0 and 2 of each row are the ones kept.
    let map = carve_vertical(&index_map(3, 3), &seam);
    assert_eq!(map.into_vec(), vec![0, 2, 3, 5, 6, 8]);
}

#[test]
fn resize_to_same_width_is_unchanged() {
    let img = gradient_image(5, 4);
    let out = resize(img.clone(), 5, 4).unwrap();
    assert_eq!(out.size(), (5, 4));
    assert_eq!(out.into_vec(), img.into_vec());
}

#[test]
fn resize_rejects_wider_target() {
    let img = gradient_image(5, 4);
    assert_eq!(resize(img, 6, 4).err(), Some(ResizeError::WidthTooLarge { from: 5, to: 6 }));
}

#[test]
fn resize_rejects_height_change() {
    let img = gradient_image(5, 4);
    assert_eq!(resize(img.clone(), 3, 5).err(), Some(ResizeError::HeightMismatch { from: 4, to: 5 }));
    assert_eq!(resize(img, 3, 3).err(), Some(ResizeError::HeightMismatch { from: 4, to: 3 }));
}

#[test]
fn resize_rejects_non_positive_width() {
    let img = gradient_image(5, 4);
    assert_eq!(resize(img.clone(), 0, 4).err(), Some(ResizeError::WidthNotPositive { from: 5, to: 0 }));
    assert_eq!(resize(img, -2, 4).err(), Some(ResizeError::WidthNotPositive { from: 5, to: -2 }));
}

#[test]
fn resize_matches_repeated_steps() {
    let img = gradient_image(6, 3);
    let out = resize(img.clone(), 3, 3).unwrap();
    assert_eq!(out.size(), (3, 3));
    let mut step = img;
    for _ in 0..3 {
        step = carve_step(&step).0;
    }
    assert_eq!(out.into_vec(), step.into_vec());
}

#[test]
fn resize_down_to_one_column() {
    let img = gradient_image(4, 2);
    let out = resize(img, 1, 2).unwrap();
    assert_eq!(out.size(), (1, 2));
}

#[test]
fn check_target_counts_passes() {
    assert_eq!(check_target(10, 7, 4, 7), Ok(6));
    assert_eq!(check_target(10, 7, 10, 7), Ok(0));
    assert_eq!(check_target(10, 7, 11, 7), Err(ResizeError::WidthTooLarge { from: 10, to: 11 }));
    assert_eq!(check_target(10, 7, 4, 8), Err(ResizeError::HeightMismatch { from: 7, to: 8 }));
    assert_eq!(check_target(10, 7, 0, 7), Err(ResizeError::WidthNotPositive { from: 10, to: 0 }));
}

#[test]
fn carve_step_returns_the_seam_it_removed() {
    let img = VecKernel::from_vec(3, 2, vec![[0u8; 4], [0; 4], [0; 4], [0; 4], [0; 4], [0; 4]]);
    let (carved, seam) = carve_step(&img);
    assert_eq!(seam, vec![1, 1]);
    assert_eq!(carved.size(), (2, 2));
}

#[test]
fn index_map_holds_row_major_indices() {
    let map = index_map(3, 2);
    assert_eq!(map.size(), (3, 2));
    assert_eq!(map.into_vec(), vec![0, 1, 2, 3, 4, 5]);
}

#[test]
fn seam_origins_follow_the_index_map() {
    // After one carve of column 1 in both rows, the map of a 3x2 image holds 0, 2 / 3, 5.
    let map = carve_vertical(&index_map(3, 2), &[1, 1]);
    // A second seam at column 1 of the last row and column 0 of the first.
    assert_eq!(seam_origins(&map, &[1, 0]), vec![5, 0]);
}
