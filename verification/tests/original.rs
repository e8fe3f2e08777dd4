use rbackup::format::{fmt_bytes, fmt_eta};
use rbackup::winpath::mirror_path;

#[test]
fn mirror_paths() {
    let d = r"F:\b";
    assert_eq!(mirror_path(d, r"C:\Users\ted\Documents"), r"F:\b\c\Users\ted\Documents");
    assert_eq!(mirror_path(d, r"E:\"), r"F:\b\e");
    assert_eq!(mirror_path(d, r"\\nas\share\x"), r"F:\b\nas\share\x");
}

#[test]
fn formatting() {
    assert_eq!(fmt_bytes(512), "512 B");
    assert_eq!(fmt_bytes(1536), "1.5 KB");
    assert_eq!(fmt_bytes(3 * 1024 * 1024 * 1024), "3.0 GB");
    assert_eq!(fmt_eta(20), "20 s left");
    assert_eq!(fmt_eta(61), "2 min left");
    assert_eq!(fmt_eta(3900), "1h 5m left");
}
