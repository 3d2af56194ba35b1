use pcp::copy::{
    entry_target, link_events, DestKind, DirMemo, EntryProgress, Operation, OperationCopy,
    OperationError, Resolution, StatsChange,
};

fn strings(v: &[&str]) -> Vec<String> {
    v.iter().map(|s| s.to_string()).collect()
}

#[test]
fn missing_sources_are_refused() {
    let r = OperationCopy::new(Vec::new(), Some("/out".to_string()));
    assert!(matches!(r, Err(OperationError::ArgumentsMissing)));
}

#[test]
fn missing_destination_is_refused() {
    let r = OperationCopy::new(strings(&["/a"]), None);
    assert!(matches!(r, Err(OperationError::ArgumentsMissing)));
}

#[test]
fn search_path_lists_sources() {
    let op = OperationCopy::new(strings(&["/a", "/b.txt"]), Some("/out".to_string())).unwrap();
    assert_eq!(op.search_path(), strings(&["/a", "/b.txt"]));
    assert_eq!(op.sources_list(), strings(&["/a", "/b.txt"]));
}

fn resolve(sources: &[&str], dirs: Vec<bool>, kind: DestKind) -> Result<Resolution, OperationError> {
    let op = OperationCopy::new(strings(sources), Some("/out".to_string())).unwrap();
    op.resolve(kind, &dirs)
}

#[test]
fn file_source_into_absent_destination() {
    let r = resolve(&["/f.txt"], vec![false], DestKind::Absent).unwrap();
    assert_eq!(r, Resolution { into_parent: false, create_dir: true });
}

#[test]
fn directory_source_into_absent_destination() {
    let r = resolve(&["/a"], vec![true], DestKind::Absent).unwrap();
    assert_eq!(r, Resolution { into_parent: false, create_dir: true });
}

#[test]
fn sources_into_existing_directory() {
    let r = resolve(&["/a", "/f.txt"], vec![true, false], DestKind::Dir).unwrap();
    assert_eq!(r, Resolution { into_parent: false, create_dir: false });
}

#[test]
fn files_onto_existing_file() {
    let r = resolve(&["/f.txt", "/g.txt"], vec![false, false], DestKind::File).unwrap();
    assert_eq!(r, Resolution { into_parent: true, create_dir: false });
}

#[test]
fn directory_onto_existing_file_is_refused() {
    let r = resolve(&["/f.txt", "/a", "/b"], vec![false, true, true], DestKind::File);
    match r {
        Err(OperationError::DirOverFile { src, dest }) => {
            assert_eq!(src, "/a");
            assert_eq!(dest, "/out");
        }
        _ => panic!("expected DirOverFile"),
    }
}

#[test]
fn file_root_copies_as_its_name() {
    let t = entry_target(&"/out".to_string(), &"/a/f1.txt".to_string(), true, &"/a/f1.txt".to_string())
        .unwrap();
    assert_eq!(t.file, "/out/f1.txt");
    assert_eq!(t.dir, "/out");
}

#[test]
fn directory_root_keeps_tree_shape() {
    let dest = "/out".to_string();
    let root = "/a".to_string();
    let t = entry_target(&dest, &root, false, &"/a/f1.txt".to_string()).unwrap();
    assert_eq!(t.file, "/out/a/f1.txt");
    assert_eq!(t.dir, "/out/a");
    let t = entry_target(&dest, &root, false, &"/a/sub/deep/f2.txt".to_string()).unwrap();
    assert_eq!(t.file, "/out/a/sub/deep/f2.txt");
    assert_eq!(t.dir, "/out/a/sub/deep");
}

#[test]
fn destination_with_trailing_separator() {
    let t = entry_target(&"/out/".to_string(), &"/a".to_string(), false, &"/a/f1.txt".to_string())
        .unwrap();
    assert_eq!(t.file, "/out/a/f1.txt");
    assert_eq!(t.dir, "/out/a");
}

#[test]
fn root_without_name_has_no_target() {
    let t = entry_target(&"/out".to_string(), &"/".to_string(), false, &"/f.txt".to_string());
    assert!(t.is_none());
}

#[test]
fn directories_are_made_once() {
    let mut m = DirMemo::new();
    assert!(m.first_visit(&"/out/a".to_string()));
    assert!(m.first_visit(&"/out/a/sub".to_string()));
    assert!(!m.first_visit(&"/out/a".to_string()));
    assert!(!m.first_visit(&"/out/a/sub".to_string()));
}

#[test]
fn chunks_report_progress_then_completion() {
    let mut e = EntryProgress::new("/a/f".to_string(), 15);
    let ev = e.on_read(10);
    assert_eq!(ev, vec![StatsChange::Current("/a/f".to_string(), 10, 10, 15)]);
    let ev = e.on_read(5);
    assert_eq!(
        ev,
        vec![StatsChange::Current("/a/f".to_string(), 5, 15, 15), StatsChange::FileDone]
    );
    assert_eq!(e.on_read(0), Vec::new());
    assert_eq!(e.done_bytes(), 15);
}

#[test]
fn progress_never_goes_back() {
    let mut e = EntryProgress::new("/a/f".to_string(), 30);
    let mut last = 0;
    for n in [7u64, 1, 12, 10] {
        e.on_read(n);
        assert!(e.done_bytes() >= last);
        last = e.done_bytes();
    }
    assert_eq!(last, 30);
}

#[test]
fn empty_file_only_completes() {
    let mut e = EntryProgress::new("/a/empty".to_string(), 0);
    assert_eq!(e.on_read(0), vec![StatsChange::FileDone]);
}

#[test]
fn link_is_one_whole_chunk() {
    assert_eq!(
        link_events("/a/l".to_string(), 12),
        vec![StatsChange::Current("/a/l".to_string(), 12, 12, 12), StatsChange::FileDone]
    );
}
