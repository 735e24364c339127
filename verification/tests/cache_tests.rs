use rfast::cache::{
    most_recent_entries,
    cache_dir, cache_dir_from, cache_entry_label, is_cache_valid, path_join_exec, project_dir,
    script_hash, short_cache_path, stamp_contents, binary_path, root_dir, CacheLayout,
};

const EMPTY_SHA256: &str = "e3b0c44298fc1c149afbf4c8996fb92427ae41e4649b934ca495991b7852b855";
const ABC_SHA256: &str = "ba7816bf8f01cfea414140de5dae2223b00361a396177a9cb410ff61f20015ad";

#[test]
fn path_join_follows_unix_rules() {
    assert_eq!(path_join_exec("/a", "b"), "/a/b");
    assert_eq!(path_join_exec("/a/", "b"), "/a/b");
    assert_eq!(path_join_exec("", "b"), "b");
    assert_eq!(path_join_exec("/a", "/b"), "/b");
    assert_eq!(path_join_exec("/a", "target/debug/script"), "/a/target/debug/script");
}

#[test]
fn cache_root_falls_back_to_tmp() {
    assert_eq!(cache_dir_from(None), "/tmp/rfast");
    assert_eq!(cache_dir_from(Some("/home/u/.cache".to_string())), "/home/u/.cache/rfast");
}

#[test]
fn root_dir_is_the_cache_dir() {
    assert_eq!(root_dir(), cache_dir());
    assert!(root_dir().ends_with("/rfast"));
}

#[test]
fn cache_dir_ends_with_rfast() {
    assert!(cache_dir().ends_with("/rfast"));
    let p = project_dir("abc");
    assert!(p.ends_with("/rfast/abc"));
    assert!(binary_path("abc").ends_with("/rfast/abc/target/debug/script"));
}

#[test]
fn layout_paths() {
    let l = CacheLayout { root: "/home/u/.cache/rfast".to_string() };
    assert_eq!(l.project_dir("abc"), "/home/u/.cache/rfast/abc");
    assert_eq!(l.stamp_path("abc"), "/home/u/.cache/rfast/abc/.build_stamp");
    assert_eq!(l.binary_path("abc"), "/home/u/.cache/rfast/abc/target/debug/script");
    assert_eq!(l.release_binary_path("abc"), "/home/u/.cache/rfast/abc/target/release/script");
    assert_eq!(l.eval_dir("abc"), "/home/u/.cache/rfast/eval/abc");
}

#[test]
fn short_cache_path_uses_twelve_bytes() {
    assert_eq!(short_cache_path(EMPTY_SHA256), "~/.cache/rfast/e3b0c44298fc");
}

#[test]
fn entry_label_truncates_long_names() {
    assert_eq!(cache_entry_label(EMPTY_SHA256), "e3b0c44298fc1c14");
    assert_eq!(cache_entry_label("eval"), "eval");
    assert_eq!(cache_entry_label("0123456789abcdef"), "0123456789abcdef");
}

#[test]
fn cache_validity() {
    assert!(is_cache_valid(true, true, Some("abc\n"), "abc"));
    assert!(!is_cache_valid(false, true, Some("abc"), "abc"));
    assert!(!is_cache_valid(true, false, Some("abc"), "abc"));
    assert!(!is_cache_valid(true, true, None, "abc"));
    assert!(!is_cache_valid(true, true, Some("abd"), "abc"));
    assert!(!is_cache_valid(true, true, Some("ab"), "abc"));
}

#[test]
fn script_hash_known_values() {
    assert_eq!(script_hash(b"", ""), EMPTY_SHA256);
    assert_eq!(script_hash(b"abc", ""), ABC_SHA256);
    // content then path
    assert_eq!(script_hash(b"ab", "c"), ABC_SHA256);
    assert_ne!(script_hash(b"abc", "/x.rs"), script_hash(b"abc", "/y.rs"));
}

#[test]
fn law_script_hash_is_hex_example() {
    let h = script_hash(b"fn main() {}", "/tmp/a.rs");
    assert_eq!(h.len(), 64);
    assert!(h.chars().all(|c| c.is_ascii_digit() || ('a'..='f').contains(&c)));
}

#[test]
fn law_fresh_stamp_validates_example() {
    let h = script_hash(b"fn main() {}", "/tmp/a.rs");
    assert!(is_cache_valid(true, true, Some(&stamp_contents(&h)), &h));
}

#[test]
fn law_foreign_stamp_rejected_example() {
    let h1 = script_hash(b"fn main() {}", "/tmp/a.rs");
    let h2 = script_hash(b"fn main() {}", "/tmp/b.rs");
    assert!(!is_cache_valid(true, true, Some(&stamp_contents(&h1)), &h2));
}

#[test]
fn law_missing_files_invalidate_example() {
    let h = script_hash(b"", "");
    assert!(!is_cache_valid(true, false, Some(&stamp_contents(&h)), &h));
    assert!(!is_cache_valid(false, true, Some(&stamp_contents(&h)), &h));
}

#[test]
fn law_project_dirs_are_separate_example() {
    let l = CacheLayout { root: "/c/rfast".to_string() };
    assert_ne!(l.project_dir("aa"), l.project_dir("ab"));
    assert!(l.stamp_path("aa").starts_with(&l.project_dir("aa")));
    assert!(l.binary_path("aa").starts_with(&l.project_dir("aa")));
}

#[test]
fn most_recent_entries_first() {
    assert_eq!(most_recent_entries(&[]), Vec::<usize>::new());
    assert_eq!(most_recent_entries(&[5, 9, 1]), vec![1, 0, 2]);
    // equal times: later entries first, as a stable sort reversed gives
    assert_eq!(most_recent_entries(&[3, 3, 3]), vec![2, 1, 0]);
    assert_eq!(most_recent_entries(&[1, 2, 3, 4, 5, 6, 7]), vec![6, 5, 4, 3, 2]);
}
