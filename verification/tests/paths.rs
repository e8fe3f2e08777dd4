use rbackup::winpath::{file_name, join_path, mirror_path};

#[test]
fn mirror_keeps_drive_letter_lower_case() {
    assert_eq!(mirror_path(r"F:\b", r"d:\Photos"), r"F:\b\d\Photos");
    assert_eq!(mirror_path(r"F:\b", r"C:/Users/ted"), r"F:\b\c\Users\ted");
}

#[test]
fn mirror_drops_dot_components() {
    assert_eq!(mirror_path(r"F:\b", r"C:\a\.\b\..\c"), r"F:\b\c\a\b\c");
}

#[test]
fn mirror_onto_trailing_separator_and_bare_drive() {
    assert_eq!(mirror_path(r"F:\", r"C:\x"), r"F:\c\x");
    assert_eq!(mirror_path("F:", r"C:\x"), r"F:c\x");
    assert_eq!(mirror_path("", r"C:\x"), r"c\x");
}

#[test]
fn mirror_verbatim_sources() {
    assert_eq!(mirror_path(r"F:\b", r"\\?\C:\data"), r"F:\b\c\data");
    assert_eq!(mirror_path(r"F:\b", r"\\?\UNC\srv\share\y"), r"F:\b\srv\share\y");
    assert_eq!(mirror_path(r"F:\b", r"//nas/photos"), r"F:\b\nas\photos");
}

#[test]
fn mirror_verbatim_drive_with_slash() {
    assert_eq!(mirror_path(r"F:\b", r"\\?\C:/x"), r"F:\b\c\x");
    assert_eq!(mirror_path(r"F:\b", r"\\?\C:/x/y"), r"F:\b\c\x/y");
    assert_eq!(mirror_path(r"\\?\C:/b", r"D:\x"), r"\\?\C:\b\d\x");
}

#[test]
fn mirror_onto_verbatim_destination() {
    assert_eq!(mirror_path(r"\\?\F:\b", r"C:\x\y"), r"\\?\F:\b\c\x\y");
    assert_eq!(mirror_path(r"\\?\F:\", r"C:\x"), r"\\?\F:\c\x");
    assert_eq!(mirror_path(r"\\?\F:", r"C:\x"), r"\\?\F:\c\x");
    assert_eq!(mirror_path(r"\\?\UNC\srv\share", r"C:\x"), r"\\?\UNC\srv\share\c\x");
    assert_eq!(mirror_path(r"\\?\F:\b", r"C:\a\..\..\x"), r"\\?\F:\b\c\a\x");
}

#[test]
fn mirror_relative_source() {
    assert_eq!(mirror_path(r"F:\b", r"docs\notes"), r"F:\b\docs\notes");
}

#[test]
fn join_names() {
    assert_eq!(join_path(r"F:\b\c", "a.txt"), r"F:\b\c\a.txt");
    assert_eq!(join_path(r"F:\b\c\", "a.txt"), r"F:\b\c\a.txt");
    assert_eq!(join_path(r"F:\b", r"\x"), r"F:\x");
    assert_eq!(join_path(r"F:\b", "D:x"), "D:x");
}

#[test]
fn file_names() {
    assert_eq!(file_name(r"C:\data\a.txt"), "a.txt");
    assert_eq!(file_name(r"C:\data\sub\"), "sub");
    assert_eq!(file_name(r"C:\data\.."), "");
    assert_eq!(file_name(r"C:\"), "");
    assert_eq!(file_name(r"x/."), "x");
}

#[test]
fn mirror_stays_inside() {
    assert_eq!(mirror_path(r"F:\b", r"C:\a\..\..\x"), r"F:\b\c\a\x");
    assert_eq!(mirror_path(r"F:\b", r"\\?\C:\a/b"), r"F:\b\c\a/b");
    assert_eq!(mirror_path(r"\\nas\share", r"C:\x"), r"\\nas\share\c\x");
    assert_eq!(mirror_path(r"\\?\F:\b", r"\\?\C:\a/b"), r"\\?\F:\b\c\a\b");
    assert_eq!(mirror_path(r"\\?\F:\b", r"\\?\UNC\srv"), r"\\?\F:\b\srv\");
    assert_eq!(mirror_path(r"\\?\F:\b\\x", r"C:\y"), r"\\?\F:\b\x\c\y");
}

#[test]
fn mirror_leaves_on_parent_server() {
    assert_eq!(mirror_path(r"F:\b", r"\\..\share\x"), r"F:\b\..\share\x");
}
