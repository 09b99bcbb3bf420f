use pcyp_rust::win::{hms_of, local_time_from, stamp_of, visible_enough};

const WORK: [i32; 4] = [0, 0, 1920, 1040];

#[test]
fn inside_is_visible() {
    assert!(visible_enough([100, 100, 900, 700], WORK));
}

#[test]
fn mostly_outside_is_not_visible() {
    // off to the right: only 50 pixels of the title bar show
    assert!(!visible_enough([1870, 100, 2670, 700], WORK));
    // off the bottom: the title bar does not show
    assert!(!visible_enough([100, 1030, 900, 1630], WORK));
    // where a monitor that was unplugged used to be
    assert!(!visible_enough([-2000, 100, -1200, 700], WORK));
    // the title bar is above the screen
    assert!(!visible_enough([100, -20, 900, 580], WORK));
}

#[test]
fn partly_outside_but_grabbable() {
    // far off to the right, but 200 pixels of the title bar show
    assert!(visible_enough([1720, 100, 2520, 700], WORK));
}

#[test]
fn broken_size_is_rejected() {
    assert!(!visible_enough([100, 100, 110, 110], WORK));
    assert!(!visible_enough([100, 100, 50, 700], WORK));
}

// ---------------------------------------------------------------- more cases

#[test]
fn clock_fields_and_texts() {
    // 2026-09-25 00:16:37 UTC: the date is the count of days since 1970-01-01
    let t = local_time_from(1790295397);
    assert_eq!(t, [1970, 1, 20721, 0, 16, 37]);
    assert_eq!(hms_of(t), "00:16:37");
    assert_eq!(stamp_of(t), "19700120721-001637");
    assert_eq!(stamp_of([2026, 9, 5, 7, 6, 5]), "20260905-070605");
    assert_eq!(stamp_of([2026, 9, 25, 0, 16, 37]), "20260925-001637");
    assert_eq!(hms_of([2026, 9, 25, 23, 5, 9]), "23:05:09");
    assert_eq!(local_time_from(0), [1970, 1, 0, 0, 0, 0]);
}
