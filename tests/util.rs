use seam_carver::util::VecRemoveExt;

#[test]
fn keep_where_removes_adjacent_duplicates() {
    let mut v = vec![5u32, 5, 4, 3, 3, 3, 1];
    v.keep_where(|kept: &Vec<u32>, elem: u32| kept.last().copied() != Some(elem));
    assert_eq!(v, vec![5, 4, 3, 1]);
}

#[test]
fn keep_where_plain_filter() {
    let mut v = vec![1u32, 2, 3, 4, 5, 6];
    v.keep_where(|_: &Vec<u32>, elem: u32| elem % 2 == 0);
    assert_eq!(v, vec![2, 4, 6]);
}

#[test]
fn keep_where_on_empty() {
    let mut v: Vec<u32> = Vec::new();
    v.keep_where(|_: &Vec<u32>, _: u32| true);
    assert!(v.is_empty());
}
