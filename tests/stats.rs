use pcp::copy::{EntryProgress, StatsChange, WorkerEvent};
use pcp::stats::{render_due, OperationStats};

fn apply_all(s: &mut OperationStats, evs: Vec<StatsChange>) {
    for e in evs {
        s.apply(&WorkerEvent::Stat(e));
    }
}

#[test]
fn discovery_counts_file_and_bytes() {
    let mut s = OperationStats::new();
    s.apply(&WorkerEvent::Stat(StatsChange::BytesTotal(10)));
    s.apply(&WorkerEvent::Stat(StatsChange::BytesTotal(5)));
    assert_eq!(s.files_total(), 2);
    assert_eq!(s.bytes_total(), 15);
    assert_eq!(s.files_done(), 0);
}

#[test]
fn chunk_sets_current_entry() {
    let mut s = OperationStats::new();
    s.apply(&WorkerEvent::Stat(StatsChange::Current("/a/f".to_string(), 4, 4, 9)));
    assert_eq!(s.current_path(), "/a/f");
    assert_eq!(s.current_done(), 4);
    assert_eq!(s.current_total(), 9);
    assert_eq!(s.bytes_done(), 4);
}

#[test]
fn frame_pushes_lengths_only_when_moved() {
    let mut s = OperationStats::new();
    s.apply(&WorkerEvent::Stat(StatsChange::BytesTotal(9)));
    s.apply(&WorkerEvent::Stat(StatsChange::Current("/a/f".to_string(), 4, 4, 9)));
    let f = s.frame();
    assert_eq!(f.name, Some("/a/f".to_string()));
    assert_eq!(f.current_len, Some(9));
    assert_eq!(f.current_pos, 4);
    assert_eq!(f.files_len, Some(1));
    assert_eq!(f.bytes_len, Some(9));
    assert_eq!(f.bytes_pos, 4);
    s.apply(&WorkerEvent::Stat(StatsChange::Current("/a/f".to_string(), 5, 9, 9)));
    s.apply(&WorkerEvent::Stat(StatsChange::FileDone));
    let f = s.frame();
    assert_eq!(f.name, None);
    assert_eq!(f.current_len, None);
    assert_eq!(f.current_pos, 9);
    assert_eq!(f.files_len, None);
    assert_eq!(f.files_pos, 1);
    assert_eq!(f.bytes_len, None);
    assert_eq!(f.bytes_pos, 9);
}

#[test]
fn empty_discovery_is_no_change() {
    let mut s = OperationStats::new();
    s.apply(&WorkerEvent::Stat(StatsChange::BytesTotal(0)));
    let f = s.frame();
    assert_eq!(f.bytes_len, None);
    assert_eq!(f.files_len, Some(1));
}

#[test]
fn refresh_is_throttled() {
    assert!(!render_due(0));
    assert!(!render_due(96_999_999));
    assert!(render_due(97_000_000));
    assert!(render_due(5_000_000_000));
}

#[test]
fn empty_file_counts_as_done() {
    let mut s = OperationStats::new();
    s.apply(&WorkerEvent::Stat(StatsChange::BytesTotal(0)));
    let mut e = EntryProgress::new("/a/empty".to_string(), 0);
    let evs = e.on_read(0);
    assert!(evs.iter().all(|ev| !matches!(ev, StatsChange::Current(..))));
    apply_all(&mut s, evs);
    assert_eq!(s.files_total(), 1);
    assert_eq!(s.files_done(), 1);
    assert_eq!(s.bytes_total(), 0);
}

#[test]
fn two_files_of_a_tree_are_accounted() {
    let mut s = OperationStats::new();
    s.apply(&WorkerEvent::Stat(StatsChange::BytesTotal(10)));
    s.apply(&WorkerEvent::Stat(StatsChange::BytesTotal(5)));
    let mut e1 = EntryProgress::new("/a/f1.txt".to_string(), 10);
    let evs = e1.on_read(10);
    apply_all(&mut s, evs);
    let evs = e1.on_read(0);
    apply_all(&mut s, evs);
    let mut e2 = EntryProgress::new("/a/sub/f2.txt".to_string(), 5);
    let evs = e2.on_read(3);
    apply_all(&mut s, evs);
    let evs = e2.on_read(2);
    apply_all(&mut s, evs);
    let evs = e2.on_read(0);
    apply_all(&mut s, evs);
    assert_eq!(s.files_total(), 2);
    assert_eq!(s.bytes_total(), 15);
    assert_eq!(s.files_done(), 2);
    assert_eq!(s.bytes_done(), 15);
}
