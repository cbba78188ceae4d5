use chrono::{Duration, Local};
use rhizome::node::FocusNode;
use rhizome::time::Timestamp;

const DAY: i64 = 86_400;

fn at(secs: i64, nanos: u32) -> Timestamp {
    Timestamp { secs, nanos }
}

#[test]
fn test_days_active() {
    let mut node = FocusNode::new("Test".to_string(), "".to_string(), None);
    assert_eq!(node.days_active(), 0);

    let earlier = Local::now() - Duration::days(5);
    node.created_at = Timestamp {
        secs: earlier.timestamp(),
        nanos: earlier.timestamp_subsec_nanos(),
    };
    assert_eq!(node.days_active(), 5);
}

#[test]
fn new_node_is_stamped_with_the_present() {
    let before = Local::now().timestamp();
    let node = FocusNode::new("t".to_string(), "c".to_string(), Some(9));
    let after = Local::now().timestamp();
    assert!(before <= node.created_at.secs && node.created_at.secs <= after);
    assert!(node.created_at.secs > 1_600_000_000);
    assert_eq!(node.parent_id, Some(9));
    assert_eq!(node.title, "t");
    assert_eq!(node.content, "c");
}

#[test]
fn new_nodes_differ_in_identity() {
    let a = FocusNode::new("a".to_string(), String::new(), None);
    let b = FocusNode::new("a".to_string(), String::new(), None);
    assert_ne!(a.id, b.id);
    // version 4, variant 1
    assert_eq!((a.id >> 76) & 0xf, 4);
    assert_eq!((a.id >> 62) & 0x3, 2);
}

#[test]
fn whole_days_are_counted_exactly() {
    let start = at(1_000, 500);
    assert_eq!(start.days_until(&at(1_000, 500)), 0);
    assert_eq!(start.days_until(&at(1_000 + DAY, 499)), 0);
    assert_eq!(start.days_until(&at(1_000 + DAY, 500)), 1);
    assert_eq!(start.days_until(&at(1_000 + 3 * DAY + 17, 0)), 3);
    assert_eq!(start.days_until(&at(1_000 + 365 * DAY, 500)), 365);
}

#[test]
fn a_later_creation_counts_as_zero_days() {
    let start = at(10 * DAY, 0);
    assert_eq!(start.days_until(&at(0, 0)), 0);
    assert_eq!(start.days_until(&at(10 * DAY - 1, 999_999_999)), 0);
    assert_eq!(start.days_until(&at(-400 * DAY, 0)), 0);
}

#[test]
fn far_apart_timestamps_do_not_overflow() {
    let start = at(i64::MIN, 0);
    let end = at(i64::MAX, u32::MAX);
    assert_eq!(start.days_until(&end), ((i64::MAX as i128 - i64::MIN as i128) / 86_400) as i64);
    assert_eq!(end.days_until(&start), 0);
}

#[test]
fn days_active_at_uses_the_creation_time() {
    let mut node = FocusNode::new("t".to_string(), String::new(), None);
    node.created_at = at(5 * DAY, 0);
    assert_eq!(node.days_active_at(&at(12 * DAY + 5, 0)), 7);
    assert_eq!(node.days_active_at(&at(4 * DAY, 0)), 0);
}
