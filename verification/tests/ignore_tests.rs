use soop3::files::DirectoryEntry;
use soop3::ignore::{
    filter_with_ignore_patterns, is_path_ignored, pattern_to_regex, read_ignore_patterns,
};

#[test]
fn test_pattern_to_regex() {
    let regex = vec![pattern_to_regex("*.txt")];
    assert!(is_path_ignored("file.txt", &regex));
    assert!(is_path_ignored("another.txt", &regex));
    assert!(!is_path_ignored("file.doc", &regex));
    assert!(!is_path_ignored("file.txtx", &regex));

    let regex = vec![pattern_to_regex("test?")];
    assert!(is_path_ignored("test1", &regex));
    assert!(is_path_ignored("testa", &regex));
    assert!(!is_path_ignored("test", &regex));
    assert!(!is_path_ignored("test12", &regex));

    let regex = vec![pattern_to_regex("build")];
    assert!(is_path_ignored("build", &regex));
    assert!(!is_path_ignored("builds", &regex));
    assert!(!is_path_ignored("rebuild", &regex));

    let regex = vec![pattern_to_regex("file.log")];
    assert!(is_path_ignored("file.log", &regex));
    assert!(!is_path_ignored("filexlog", &regex));
}

#[test]
fn pattern_sources_are_anchored() {
    assert_eq!(pattern_to_regex("*.txt"), "^.*\\.txt$");
    assert_eq!(pattern_to_regex("test?"), "^test.$");
    assert_eq!(pattern_to_regex("a+b"), "^a\\+b$");
}

#[test]
fn test_ignore_file_reading() {
    let patterns = read_ignore_patterns("*.log\ntemp*\n\nbuild\n").unwrap();
    assert_eq!(patterns.len(), 3);

    assert!(is_path_ignored("debug.log", &patterns));
    assert!(is_path_ignored("temp123", &patterns));
    assert!(is_path_ignored("build", &patterns));
    assert!(!is_path_ignored("source.rs", &patterns));
}

fn entry(name: &str, size: u64, is_dir: bool) -> DirectoryEntry {
    DirectoryEntry { name: name.to_string(), size, modified: 0, is_dir }
}

#[test]
fn test_filtering_directory_entries() {
    let patterns = read_ignore_patterns("*.log\ntemp*\nbuild\n").unwrap();
    let entries = vec![
        entry("source.rs", 1000, false),
        entry("debug.log", 500, false),
        entry("temp_file", 200, false),
        entry("build", 0, true),
    ];

    let filtered = filter_with_ignore_patterns(entries, "", &patterns);

    assert_eq!(filtered.len(), 1);
    assert_eq!(filtered[0].name, "source.rs");
}

#[test]
fn filtering_uses_the_path_relative_to_the_root() {
    let patterns = read_ignore_patterns("sub/secret*\n").unwrap();
    let entries = vec![entry("secret.txt", 10, false), entry("open.txt", 10, false)];

    let filtered = filter_with_ignore_patterns(entries.clone(), "sub", &patterns);
    assert_eq!(filtered.len(), 1);
    assert_eq!(filtered[0].name, "open.txt");

    // at the root the same names do not match the anchored pattern
    let unfiltered = filter_with_ignore_patterns(entries, "", &patterns);
    assert_eq!(unfiltered.len(), 2);
}

#[test]
fn blank_and_whitespace_lines_are_skipped() {
    let patterns = read_ignore_patterns("\n   \n\t\n*.o\n").unwrap();
    assert_eq!(patterns.len(), 1);
    assert!(is_path_ignored("main.o", &patterns));
}
