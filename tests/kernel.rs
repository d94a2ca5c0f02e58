use seam_carver::kernel::VecKernel;

#[test]
fn from_vec_size_and_access() {
    let g = VecKernel::from_vec(3, 2, vec![1u32, 2, 3, 4, 5, 6]);
    assert_eq!(g.size(), (3, 2));
    assert_eq!(g.width(), 3);
    assert_eq!(g.height(), 2);
    assert_eq!(g.dim(), 6);
    assert_eq!(*g.get(2, 1), 6);
    assert_eq!(*g.get(0, 1), 4);
}

#[test]
fn encode_and_decode_positions() {
    let g = VecKernel::from_vec(3, 2, vec![0u8; 6]);
    assert_eq!(g.encode_pos(1, 1), 4);
    assert_eq!(g.decode_pos(4), (1, 1));
    assert_eq!(g.decode_pos(2), (2, 0));
    assert_eq!(g.try_encode_pos(2, 1), Some(5));
    assert_eq!(g.try_encode_pos(3, 0), None);
    assert_eq!(g.try_encode_pos(-1, 0), None);
}

#[test]
fn contains_and_try_get() {
    let g = VecKernel::from_vec(2, 2, vec![7u32, 8, 9, 10]);
    assert!(g.contains_pos(1, 1));
    assert!(!g.contains_pos(2, 1));
    assert!(!g.contains_pos(0, -1));
    assert_eq!(g.try_get(1, 0), Some(&8));
    assert_eq!(g.try_get(-1, 0), None);
    assert_eq!(g.try_get(0, 2), None);
}

#[test]
fn put_returns_previous_value() {
    let mut g = VecKernel::from_vec(2, 2, vec![7u32, 8, 9, 10]);
    assert_eq!(g.put(0, 1, 42), 9);
    assert_eq!(*g.get(0, 1), 42);
    assert_eq!(g.into_vec(), vec![7, 8, 42, 10]);
}

#[test]
fn get_mut_and_try_get_mut_write_through() {
    let mut g = VecKernel::from_vec(2, 2, vec![1u32, 2, 3, 4]);
    *g.get_mut(1, 1) = 40;
    if let Some(cell) = g.try_get_mut(0, 0) {
        *cell = 10;
    }
    assert!(g.try_get_mut(2, 0).is_none());
    assert_eq!(g.into_vec(), vec![10, 2, 3, 40]);
}

#[test]
fn new_fills_with_default() {
    let g: VecKernel<u32> = VecKernel::new(3, 2);
    assert_eq!(g.size(), (3, 2));
    assert_eq!(g.into_vec(), vec![0; 6]);
}

#[test]
fn from_fn_runs_in_row_major_order() {
    let g = VecKernel::from_fn(3, 2, |x, y| 10 * y + x);
    assert_eq!(g.into_vec(), vec![0, 1, 2, 10, 11, 12]);
}

#[test]
fn map_applies_per_cell() {
    let g = VecKernel::from_vec(2, 2, vec![1u32, 2, 3, 4]);
    let m = g.map(|x, y, v| (v as u64) * 100 + (x as u64) * 10 + y as u64);
    assert_eq!(m.size(), (2, 2));
    assert_eq!(m.into_vec(), vec![100, 210, 301, 411]);
}
