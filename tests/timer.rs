use seam_carver::timer::{FmtDisplayIter, FmtRepeat, Timer};

#[test]
fn printing_toggles() {
    let mut t = Timer::new();
    assert!(!t.is_printing());
    t.enable_printing();
    assert!(t.is_printing());
    t.disable_printing();
    assert!(!t.is_printing());
}

#[test]
fn start_and_finish_indent_while_printing() {
    let mut t = Timer::new();
    t.enable_printing();
    assert_eq!(t.start("main"), Some("+ main".to_string()));
    assert_eq!(t.start("pass"), Some("    + pass".to_string()));
    assert_eq!(t.finish("pass", 5), Some("    ".to_string()));
    assert_eq!(t.finish("main", 7), Some("".to_string()));
}

#[test]
fn silent_timer_prints_nothing_but_records() {
    let mut t = Timer::new();
    assert_eq!(t.start("sobel"), None);
    assert_eq!(t.finish("sobel", 3), None);
    assert_eq!(t.summary().clone(), vec![("sobel".to_string(), 3)]);
}

#[test]
fn record_adds_up_per_label_in_first_seen_order() {
    let mut t = Timer::new();
    t.record("find", 10);
    t.record("carve", 4);
    t.record("find", 5);
    t.record("carve", u64::MAX);
    assert_eq!(
        t.summary().clone(),
        vec![("find".to_string(), 15), ("carve".to_string(), u64::MAX)]
    );
}

#[test]
fn repeat_writes_text_count_times() {
    assert_eq!(FmtRepeat { seq: "ab", count: 3 }.to_string(), "ababab");
    assert_eq!(FmtRepeat { seq: "ab", count: 0 }.to_string(), "");
}

#[test]
fn display_iter_separates_neighbours() {
    let items = vec!["1".to_string(), "2".to_string(), "3".to_string()];
    assert_eq!(FmtDisplayIter { iter: &items, sep: ", " }.to_string(), "1, 2, 3");
    let one = vec!["7".to_string()];
    assert_eq!(FmtDisplayIter { iter: &one, sep: ", " }.to_string(), "7");
    let none: Vec<String> = Vec::new();
    assert_eq!(FmtDisplayIter { iter: &none, sep: ", " }.to_string(), "");
}
