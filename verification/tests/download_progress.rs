use novaenv::progress::{progress_step, Progress, BYTES_STEP};

#[test]
fn reports_new_percentages_of_a_known_size() {
    assert_eq!(progress_step(0, 50, Some(200), None, false), Some(Progress::Percent(25)));
    assert_eq!(progress_step(50, 1, Some(200), Some(25), false), None);
    assert_eq!(progress_step(51, 149, Some(200), Some(25), true), Some(Progress::Percent(100)));
    assert_eq!(progress_step(0, 10, Some(0), None, true), None);
    assert_eq!(progress_step(u64::MAX - 1, 1, Some(10), None, false), Some(Progress::Percent(0)));
}

#[test]
fn reports_every_four_mib_of_an_unknown_size() {
    assert_eq!(BYTES_STEP, 4 * 1024 * 1024);
    assert_eq!(progress_step(0, 100, None, None, true), None);
    assert_eq!(progress_step(BYTES_STEP - 10, 20, None, None, true), Some(Progress::Bytes(BYTES_STEP + 10)));
    assert_eq!(progress_step(BYTES_STEP, 20, None, None, true), None);
    assert_eq!(progress_step(BYTES_STEP - 10, 20, None, None, false), None);
}
