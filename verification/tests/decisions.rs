use rbackup::dests::{
    add_dest, add_source, check, connected_dests, record_pending, refresh_connected, remove_dest,
    remove_source, source_paths, update_total, Dest,
};
use rbackup::sync::{sync_step, unchanged, EntryKind, FileStamp, SyncAction, Tally};
use rbackup::window::{center_window, focus_existing, wide};

fn dest(path: &str, connected: bool, pending: i32) -> Dest {
    Dest { path: path.to_string(), connected, pending }
}

const SEC: i128 = 1_000_000_000;

#[test]
fn unchanged_within_two_seconds() {
    let a = FileStamp { len: 10, modified: Some(100 * SEC) };
    assert!(unchanged(Some(a), Some(FileStamp { len: 10, modified: Some(102 * SEC) })));
    assert!(unchanged(Some(a), Some(FileStamp { len: 10, modified: Some(98 * SEC) })));
    assert!(!unchanged(Some(a), Some(FileStamp { len: 10, modified: Some(102 * SEC + 1) })));
    assert!(!unchanged(Some(a), Some(FileStamp { len: 11, modified: Some(100 * SEC) })));
    assert!(!unchanged(Some(a), None));
    assert!(!unchanged(Some(a), Some(FileStamp { len: 10, modified: None })));
    let far = FileStamp { len: 1, modified: Some(i128::MIN) };
    assert!(!unchanged(Some(far), Some(FileStamp { len: 1, modified: Some(i128::MAX) })));
}

#[test]
fn steps_of_a_copy() {
    assert_eq!(sync_step(EntryKind::Dir, true, false), SyncAction::Descend);
    assert_eq!(sync_step(EntryKind::File, true, false), SyncAction::Count);
    assert_eq!(sync_step(EntryKind::File, false, false), SyncAction::Copy);
    assert_eq!(sync_step(EntryKind::File, false, true), SyncAction::Skip);
    assert_eq!(sync_step(EntryKind::Other, false, false), SyncAction::Skip);
}

/// Files of a source folder against their backup copies, as stamps.
fn run(files: &[(u64, i128)], backup: &mut Vec<Option<FileStamp>>, dry: bool) -> Tally {
    let mut tally = Tally::new();
    for (i, &(len, t)) in files.iter().enumerate() {
        let src = FileStamp { len, modified: Some(t) };
        match sync_step(EntryKind::File, dry, unchanged(Some(src), backup[i])) {
            SyncAction::Count => tally.add_file(len),
            SyncAction::Copy => {
                tally.add_file(len);
                backup[i] = Some(src);
            }
            _ => {}
        }
    }
    tally
}

#[test]
fn incremental_copy_decisions() {
    let mut files = vec![(1u64, 5 * SEC), (1, 6 * SEC), (2, 7 * SEC)];
    let mut backup = vec![None, None, None];
    assert_eq!(run(&files, &mut backup, true), Tally { files: 3, bytes: 4 });
    assert_eq!(run(&files, &mut backup, false), Tally { files: 3, bytes: 4 });
    assert_eq!(run(&files, &mut backup, true), Tally { files: 0, bytes: 0 });
    assert_eq!(run(&files, &mut backup, false), Tally { files: 0, bytes: 0 });
    files[0] = (7, 50 * SEC);
    files[2] = (10, 60 * SEC);
    assert_eq!(run(&files, &mut backup, true), Tally { files: 2, bytes: 17 });
    assert_eq!(run(&files, &mut backup, false), Tally { files: 2, bytes: 17 });
}

#[test]
fn progress_counts_every_byte_and_file() {
    let mut seen = Tally::default();
    seen.record_progress(3, false);
    seen.record_progress(0, true);
    seen.record_progress(1, false);
    seen.record_progress(0, true);
    assert_eq!(seen, Tally { files: 2, bytes: 4 });
}

#[test]
fn totals_over_connected_destinations() {
    let ds = vec![dest("F:\\", true, 3), dest("G:\\", false, 7), dest("H:\\", true, -1)];
    let t = update_total(&ds);
    assert!(t.any_connected);
    assert_eq!(t.pending_total, 3);
    let t = update_total(&vec![dest("G:\\", false, 7)]);
    assert!(!t.any_connected);
    assert_eq!(t.pending_total, 0);
}

#[test]
fn refresh_marks_changes() {
    let mut ds = vec![dest("F:\\", false, 4), dest("G:\\", true, 2), dest("H:\\", true, 5)];
    let (plugged, t) = refresh_connected(&mut ds, &vec![true, false, true]);
    assert!(plugged);
    assert!(ds[0].connected && ds[0].pending == -1);
    assert!(!ds[1].connected && ds[1].pending == -1);
    assert!(ds[2].connected && ds[2].pending == 5);
    assert_eq!((t.any_connected, t.pending_total), (true, 5));
    let (plugged, _) = refresh_connected(&mut ds, &vec![true, false, true]);
    assert!(!plugged);
    let (plugged, _) = refresh_connected(&mut ds, &vec![false, false, true]);
    assert!(!plugged);
}

#[test]
fn check_only_when_idle_and_connected() {
    let ds = vec![dest("F:\\", false, -1), dest("G:\\", true, -1)];
    assert_eq!(check(false, &ds), Some(vec!["G:\\".to_string()]));
    assert_eq!(check(true, &ds), None);
    assert_eq!(check(false, &vec![dest("F:\\", false, -1)]), None);
    assert_eq!(connected_dests(&ds), vec!["G:\\".to_string()]);
}

#[test]
fn pending_recorded_on_first_match() {
    let mut ds = vec![dest("F:\\", true, -1), dest("G:\\", true, -1), dest("F:\\", true, -1)];
    record_pending(&mut ds, &"F:\\".to_string(), 12);
    assert_eq!((ds[0].pending, ds[1].pending, ds[2].pending), (12, -1, -1));
    record_pending(&mut ds, &"X:\\".to_string(), 3);
    assert_eq!((ds[0].pending, ds[1].pending, ds[2].pending), (12, -1, -1));
    record_pending(&mut ds, &"G:\\".to_string(), (1u64 << 32) + 5);
    assert_eq!(ds[1].pending, 5);
}

#[test]
fn lists_without_duplicates() {
    let mut s = vec!["C:\\a".to_string()];
    assert!(add_source(&mut s, "C:\\b".to_string()));
    assert!(!add_source(&mut s, "C:\\a".to_string()));
    assert_eq!(s, vec!["C:\\a".to_string(), "C:\\b".to_string()]);
    assert_eq!(source_paths(&s), s);
    assert!(!remove_source(true, &mut s, 0));
    assert!(!remove_source(false, &mut s, 2));
    assert!(!remove_source(false, &mut s, -1));
    assert!(remove_source(false, &mut s, 0));
    assert_eq!(s, vec!["C:\\b".to_string()]);

    let mut ds = vec![dest("F:\\", true, 3)];
    assert!(!add_dest(&mut ds, "F:\\".to_string()));
    assert!(add_dest(&mut ds, "G:\\".to_string()));
    assert_eq!(ds.len(), 2);
    assert!(!ds[1].connected && ds[1].pending == -1);
    assert!(!remove_dest(true, &mut ds, 1));
    assert!(remove_dest(false, &mut ds, 0));
    assert_eq!(ds[0].path, "G:\\");
}

#[test]
fn window_identity_and_placement() {
    let q = focus_existing();
    let class: Vec<u16> = "Window Class".encode_utf16().chain([0]).collect();
    let title: Vec<u16> = "rbackup".encode_utf16().chain([0]).collect();
    assert_eq!(q.class, class);
    assert_eq!(q.title, title);
    let s = "é😀x";
    assert_eq!(wide(s), s.encode_utf16().chain([0]).collect::<Vec<u16>>());
    assert_eq!(center_window(0, 0, 1920, 1080, 800, 600), (560, 240));
    assert_eq!(center_window(100, -50, 1920, 1080, 801, 601), (659, 189));
    assert_eq!(center_window(0, 0, 800, 600, 1000, 700), (0, 0));
}

#[test]
fn refresh_twice_keeps_rows() {
    let mut ds = vec![dest("F:\\", false, 4), dest("G:\\", true, 2), dest("H:\\", true, 5)];
    let present = vec![true, false, true];
    refresh_connected(&mut ds, &present);
    record_pending(&mut ds, &"F:\\".to_string(), 3);
    let before = ds.clone();
    let (plugged, t) = refresh_connected(&mut ds, &present);
    assert!(!plugged);
    for (a, b) in ds.iter().zip(before.iter()) {
        assert_eq!((&a.path, a.connected, a.pending), (&b.path, b.connected, b.pending));
    }
    assert_eq!(ds[0].pending, 3);
    assert_eq!((t.any_connected, t.pending_total), (true, 8));
}
