use switchboard::health::response_is_healthy;
use switchboard::process_tree::{subtree_usage, ProcessSample};
use switchboard::text::{append_decimal, contains_text, join_strings, split_whitespace, trimmed};

fn p(pid: u32, parent: Option<u32>, memory: u64) -> ProcessSample {
    ProcessSample { pid, parent, memory }
}

#[test]
fn health_threshold_is_500() {
    assert!(response_is_healthy(Some(200)));
    assert!(response_is_healthy(Some(499)));
    assert!(!response_is_healthy(Some(500)));
    assert!(!response_is_healthy(Some(503)));
    assert!(!response_is_healthy(None));
}

#[test]
fn subtree_collects_every_descendant_once() {
    let procs = vec![
        p(1, None, 1),
        p(10, Some(1), 100),
        p(11, Some(10), 20),
        p(12, Some(10), 3),
        p(13, Some(12), 4),
        p(20, Some(1), 1000),
        p(30, Some(99), 7),
    ];
    let (mut pids, mem) = subtree_usage(10, &procs).expect("root present");
    pids.sort();
    assert_eq!(pids, vec![10, 11, 12, 13]);
    assert_eq!(mem, 127);
    let (pids, mem) = subtree_usage(13, &procs).unwrap();
    assert_eq!(pids, vec![13]);
    assert_eq!(mem, 4);
    assert!(subtree_usage(99, &procs).is_none());
}

#[test]
fn subtree_survives_a_parent_cycle() {
    let procs = vec![p(5, Some(6), u64::MAX), p(6, Some(5), u64::MAX)];
    let (mut pids, mem) = subtree_usage(5, &procs).unwrap();
    pids.sort();
    assert_eq!(pids, vec![5, 6]);
    assert_eq!(mem, 2 * (u64::MAX as u128));
}

#[test]
fn text_helpers() {
    assert_eq!(trimmed("\u{2003} a b \n"), "a b");
    assert_eq!(trimmed("   "), "");
    assert_eq!(split_whitespace(" a  b\tc "), vec!["a".to_string(), "b".to_string(), "c".to_string()]);
    assert_eq!(join_strings(&vec!["a".to_string(), "b".to_string()], ", "), "a, b");
    assert_eq!(join_strings(&vec![], ", "), "");
    assert!(contains_text("hello", "ll"));
    assert!(contains_text("hello", ""));
    assert!(!contains_text("he", "hello"));
    let mut s = String::from("n=");
    append_decimal(&mut s, -120);
    assert_eq!(s, "n=-120");
    let mut z = String::new();
    append_decimal(&mut z, 0);
    assert_eq!(z, "0");
}
