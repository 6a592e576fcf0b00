use devlog::clock::{midnight_from, today_midnight_ts};
use devlog::standup::{activity_line, count_or_zero, has_activity};

#[test]
fn activity_is_counted() {
    assert_eq!(activity_line(2, 0, 15), "commits: 2  files: 0  commands: 15");
    assert!(has_activity(0, 0, 1));
    assert!(!has_activity(0, 0, 0));
    assert_eq!(count_or_zero(&Ok(4)), 4);
    assert_eq!(count_or_zero(&Err("x".to_string())), 0);
}

#[test]
fn midnight_is_now_minus_seconds_since_midnight() {
    assert_eq!(midnight_from(1714550400, 3600), 1714546800);
    assert_eq!(midnight_from(100, 0), 100);
    let m = today_midnight_ts();
    let now = std::time::SystemTime::now()
        .duration_since(std::time::UNIX_EPOCH)
        .unwrap()
        .as_secs() as i64;
    assert!(m <= now && now - m < 86400 + 3600 * 14);
}
