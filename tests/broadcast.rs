use t3xt::broadcast::{broadcast_targets, summarize};

fn snap(ids: &[&str]) -> Vec<(String, u32)> {
    ids.iter().enumerate().map(|(i, s)| (s.to_string(), i as u32)).collect()
}

#[test]
fn origin_gets_no_send() {
    let s = snap(&["A", "B", "C"]);
    assert_eq!(broadcast_targets(&s, &"A".to_string()), vec![1, 2]);
    assert_eq!(broadcast_targets(&s, &"B".to_string()), vec![0, 2]);
}

#[test]
fn unknown_origin_reaches_everyone() {
    let s = snap(&["A", "B", "C"]);
    assert_eq!(broadcast_targets(&s, &"local".to_string()), vec![0, 1, 2]);
    assert!(broadcast_targets(&snap(&[]), &"A".to_string()).is_empty());
    assert!(broadcast_targets(&snap(&["A"]), &"A".to_string()).is_empty());
}

#[test]
fn one_failed_send_leaves_the_others() {
    let s = snap(&["A", "B", "C", "D"]);
    let targets = broadcast_targets(&s, &"D".to_string());
    assert_eq!(targets, vec![0, 1, 2]);
    let report = summarize(&targets, &vec![true, false, true]);
    assert_eq!(report.attempted, 3);
    assert_eq!(report.delivered, 2);
    assert_eq!(report.failed, vec![1]);
}

#[test]
fn all_sends_failing_still_counts_attempts() {
    let report = summarize(&vec![4, 7], &vec![false, false]);
    assert_eq!(report.attempted, 2);
    assert_eq!(report.delivered, 0);
    assert_eq!(report.failed, vec![4, 7]);
}
