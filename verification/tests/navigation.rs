use shopping::{navigate_down, navigate_end, navigate_home, navigate_up};

fn list(n: usize) -> Vec<u32> {
    let mut v = Vec::new();
    let mut i = 0u32;
    while (i as usize) < n {
        v.push(i);
        i += 1;
    }
    v
}

#[test]
fn empty_list_never_selects() {
    let v: Vec<u32> = Vec::new();
    assert_eq!(navigate_up(&v, None, 1), None);
    assert_eq!(navigate_up(&v, Some(3), 1), None);
    assert_eq!(navigate_down(&v, None, 1), None);
    assert_eq!(navigate_down(&v, Some(3), 10), None);
    assert_eq!(navigate_home(&v), None);
    assert_eq!(navigate_end(&v), None);
}

#[test]
fn up_from_none_starts_at_bottom() {
    let v = list(5);
    assert_eq!(navigate_up(&v, None, 1), Some(4));
}

#[test]
fn down_from_none_starts_at_top() {
    let v = list(5);
    assert_eq!(navigate_down(&v, None, 1), Some(0));
}

#[test]
fn up_steps_and_clamps_at_top() {
    let v = list(5);
    assert_eq!(navigate_up(&v, Some(3), 1), Some(2));
    assert_eq!(navigate_up(&v, Some(3), 10), Some(0));
    assert_eq!(navigate_up(&v, Some(0), 1), Some(0));
    assert_eq!(navigate_up(&v, Some(2), 2), Some(0));
}

#[test]
fn down_steps_and_clamps_at_bottom() {
    let v = list(5);
    assert_eq!(navigate_down(&v, Some(1), 1), Some(2));
    assert_eq!(navigate_down(&v, Some(1), 10), Some(4));
    assert_eq!(navigate_down(&v, Some(4), 1), Some(4));
}

#[test]
fn down_zero_reclamps_stale_index() {
    // after a deletion the old index may point past the end
    let v = list(3);
    assert_eq!(navigate_down(&v, Some(3), 0), Some(2));
    assert_eq!(navigate_down(&v, Some(1), 0), Some(1));
}

#[test]
fn home_and_end() {
    let v = list(5);
    assert_eq!(navigate_home(&v), Some(0));
    assert_eq!(navigate_end(&v), Some(4));
    let one = list(1);
    assert_eq!(navigate_home(&one), Some(0));
    assert_eq!(navigate_end(&one), Some(0));
}

#[test]
fn page_movement_uses_same_functions() {
    let v = list(25);
    assert_eq!(navigate_down(&v, Some(0), 10), Some(10));
    assert_eq!(navigate_down(&v, Some(20), 10), Some(24));
    assert_eq!(navigate_up(&v, Some(24), 10), Some(14));
    assert_eq!(navigate_up(&v, Some(5), 10), Some(0));
}
