use php_hound::walk::{has_php_ext, is_ignored, path_has_prefix, should_scan};

#[test]
fn extension_check_is_exact_and_case_sensitive() {
    assert!(has_php_ext(b"a.php"));
    assert!(has_php_ext(b"dir/sub/c.php"));
    assert!(has_php_ext(b"archive.tar.php"));
    assert!(!has_php_ext(b"b.txt"));
    assert!(!has_php_ext(b"c.PHP"));
    assert!(!has_php_ext(b"noext"));
    assert!(!has_php_ext(b"ends.phpx"));
    assert!(!has_php_ext(b"x.php.txt"));
}

#[test]
fn a_hidden_file_named_only_by_its_extension_does_not_count() {
    assert!(!has_php_ext(b".php"));
    assert!(!has_php_ext(b"dir/.php"));
}

#[test]
fn prefixes_are_component_wise() {
    assert!(path_has_prefix(b"/a/b/c", b"/a/b"));
    assert!(path_has_prefix(b"/a/b", b"/a/b"));
    assert!(!path_has_prefix(b"/a/bc", b"/a/b"));
    assert!(!path_has_prefix(b"/a", b"/a/b"));
}

#[test]
fn a_trailing_slash_on_the_prefix_changes_nothing() {
    assert!(path_has_prefix(b"sub/c.php", b"sub/"));
    assert!(!path_has_prefix(b"subdir/c.php", b"sub/"));
}

#[test]
fn the_empty_prefix_covers_every_path() {
    assert!(path_has_prefix(b"anything", b""));
}

#[test]
fn ignore_list_is_searched_entry_by_entry() {
    let ignores = vec![b"vendor".to_vec(), b"sub".to_vec()];
    assert!(is_ignored(b"sub/c.php", &ignores));
    assert!(is_ignored(b"vendor/lib.php", &ignores));
    assert!(!is_ignored(b"src/main.php", &ignores));
    assert!(!is_ignored(b"subsystem/d.php", &ignores));
}

#[test]
fn only_unignored_php_files_are_scanned() {
    let ignores = vec![b"sub".to_vec()];
    assert!(should_scan(b"a.php", &ignores));
    assert!(!should_scan(b"b.txt", &ignores));
    assert!(!should_scan(b"sub/c.php", &ignores));
    assert!(should_scan(b"sub2/d.php", &ignores));
}
