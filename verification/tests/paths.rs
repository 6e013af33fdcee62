use pathlight_core::paths::{is_inside, normalize, normalize_windows};

#[test]
fn posix_backslashes_are_filename_characters() {
    assert_eq!(normalize(r"/watched/a\b.txt"), r"/watched/a\b.txt");
    assert_ne!(normalize(r"/watched/a\b.txt"), normalize("/watched/a/b.txt"));
    assert_eq!(normalize("/watched/name:/"), "/watched/name:");
}

#[test]
fn trailing_separators_go_away_but_roots_survive() {
    assert_eq!(normalize("/Users/x/Documents/"), "/Users/x/Documents");
    assert_eq!(normalize("/Users/x//"), "/Users/x");
    assert_eq!(normalize("/"), "/");
    assert_eq!(normalize_windows("C:/"), "C:/");
}

#[test]
fn windows_spellings_collapse_onto_the_portable_one() {
    assert_eq!(normalize_windows(r"\\?\C:\Users\x\Documents"), "C:/Users/x/Documents");
    assert_eq!(normalize_windows(r"C:\Users\x\"), "C:/Users/x");
    assert_eq!(normalize_windows(r"\\?\UNC\server\share\x"), "//server/share/x");
}

/// The bug this module exists to prevent: a verbatim-prefixed event path
/// tested against a plain watch root looks like it is outside the watch.
#[test]
fn a_verbatim_event_path_is_inside_its_plain_root() {
    let root = normalize_windows(r"C:\Watched");
    assert!(is_inside(&root, &normalize_windows(r"\\?\C:\Watched\file.bin")));
}

#[test]
fn a_root_is_not_inside_itself_and_neither_are_its_siblings() {
    assert!(!is_inside("/a/b", "/a/b"));
    assert!(!is_inside("/a/b", "/a/b/"));
    assert!(!is_inside("/a/b", "/a/bc/file"));
    assert!(is_inside("/a/b", "/a/b/file"));
    assert!(is_inside("/a/b/", "/a/b/file"));
}

#[test]
fn normalizing_twice_is_normalizing_once() {
    for path in ["/", "//", "/a/b//", "relative/", "", r"C:\x\"] {
        assert_eq!(normalize(&normalize(path)), normalize(path));
    }
}
