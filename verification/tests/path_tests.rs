use soop3::paths::{
    contains_encoded_slash, join_path_jailed, resolve_request_path, FsError, PathTraversalError,
};
use soop3::percent::{encode_path_segments, percent_decode};
use soop3::router::map_fs_error;

#[test]
fn paths_test_safe_path_joining() {
    let base = "/base";
    assert!(join_path_jailed(base, "test.txt").is_ok());
    assert!(join_path_jailed(base, "subdir/nested.txt").is_ok());
    assert!(join_path_jailed(base, "subdir").is_ok());

    let result = join_path_jailed(base, "test.txt").unwrap();
    assert!(result.starts_with(base));
    assert_eq!(result, "/base/test.txt");
}

#[test]
fn paths_test_path_traversal_prevention() {
    let base = "/base";
    assert!(join_path_jailed(base, "../outside.txt").is_err());
    assert!(join_path_jailed(base, "../../etc/passwd").is_err());
    assert!(join_path_jailed(base, "/etc/passwd").is_err());

    assert!(join_path_jailed(base, "%2e%2e/outside.txt").is_err());
    assert!(join_path_jailed(base, "..%2foutside.txt").is_err());
    assert!(join_path_jailed(base, "%2e%2e%2foutside.txt").is_err());

    assert!(join_path_jailed(base, "sub/../../../etc/passwd").is_err());
    assert!(join_path_jailed(base, "././../outside.txt").is_err());
}

#[test]
fn paths_test_path_normalization() {
    let base = "/base";
    let normal = join_path_jailed(base, "sub/file.txt").unwrap();
    let with_dot = join_path_jailed(base, "sub/./file.txt").unwrap();
    let with_redundant = join_path_jailed(base, "other/../sub/file.txt").unwrap();

    assert_eq!(normal, "/base/sub/file.txt");
    assert_eq!(with_dot, "/base/sub/file.txt");
    assert_eq!(with_redundant, "/base/sub/file.txt");

    let traversal_attempt = join_path_jailed(base, "sub/../../outside.txt");
    assert!(traversal_attempt.is_err());
}

#[test]
fn test_url_encoded_paths() {
    let base = "/base";
    let result = join_path_jailed(base, "file%20with%20spaces.txt").unwrap();
    assert_eq!(result, "/base/file with spaces.txt");
}

#[test]
fn test_non_existent_file_handling() {
    let base = "/base";
    let result = join_path_jailed(base, "nonexistent.txt").unwrap();
    assert!(result.starts_with(base));
    assert!(result.ends_with("/nonexistent.txt"));

    assert!(join_path_jailed(base, "../nonexistent.txt").is_err());
}

#[test]
fn jail_error_variants() {
    let base = "/base";
    assert_eq!(
        join_path_jailed(base, "..%2fsecret.txt").unwrap_err(),
        PathTraversalError::EncodedSlash
    );
    assert_eq!(
        join_path_jailed(base, "../outside.txt").unwrap_err(),
        PathTraversalError::OutsideJail
    );
    assert_eq!(
        join_path_jailed(base, "file%C0%C1.txt").unwrap_err(),
        PathTraversalError::InvalidEncoding
    );
    assert_eq!(
        join_path_jailed(base, "file%00.txt").unwrap_err(),
        PathTraversalError::InvalidEncoding
    );
    assert_eq!(
        join_path_jailed(base, "a%5Cb.txt").unwrap_err(),
        PathTraversalError::Backslash
    );
    assert_eq!(join_path_jailed(base, "a\\b.txt").unwrap_err(), PathTraversalError::Backslash);
    assert_eq!(
        join_path_jailed(base, "/etc/passwd").unwrap_err(),
        PathTraversalError::InvalidTargetPath
    );
}

#[test]
fn traversal_maps_to_bad_request() {
    // GET /..%2fsecret.txt is refused with 400 whether or not the file exists.
    let err = resolve_request_path("/public", "/..%2fsecret.txt").unwrap_err();
    assert!(matches!(err, FsError::InvalidPath(PathTraversalError::EncodedSlash)));
    assert_eq!(map_fs_error(&err), 400);
}

#[test]
fn resolve_request_path_strips_one_slash() {
    assert_eq!(resolve_request_path("/public", "/a.txt").unwrap(), "/public/a.txt");
    assert_eq!(resolve_request_path("/public", "/").unwrap(), "/public");
    assert_eq!(resolve_request_path("/public", "/sub/").unwrap(), "/public/sub");
}

#[test]
fn encoded_slash_scan() {
    assert!(contains_encoded_slash(b"..%2fx"));
    assert!(contains_encoded_slash(b"..%2Fx"));
    assert!(contains_encoded_slash(b"%2f"));
    assert!(!contains_encoded_slash(b"%2"));
    assert!(!contains_encoded_slash(b"abc"));
    assert!(!contains_encoded_slash(b"%252f"));
}

#[test]
fn percent_decode_bytes() {
    assert_eq!(percent_decode(b"file%20name"), b"file name");
    assert_eq!(percent_decode(b"100%25"), b"100%");
    assert_eq!(percent_decode(b"%zz"), b"%zz");
    assert_eq!(percent_decode(b"%C3%A9"), "\u{e9}".as_bytes());
}

#[test]
fn test_encode_path_segments() {
    assert_eq!(encode_path_segments("/file with spaces.txt"), "/file%20with%20spaces.txt");
    assert_eq!(encode_path_segments("/dir/file#1.txt"), "/dir/file%231.txt");
    assert_eq!(encode_path_segments("/"), "/");
}

#[test]
fn href_round_trips_through_the_jail() {
    // The listing writes relative hrefs; decoding one leads back to the name.
    let name = "file with 100% weird#name.txt";
    let href = encode_path_segments(name);
    let resolved = join_path_jailed("/public", &href).unwrap();
    assert_eq!(resolved, format!("/public/{}", name));
}

#[test]
fn non_ascii_names_survive() {
    let resolved = join_path_jailed("/base", "caf%C3%A9.txt").unwrap();
    assert_eq!(resolved, "/base/caf\u{e9}.txt");
    let href = encode_path_segments("caf\u{e9}.txt");
    assert_eq!(href, "caf\u{e9}.txt");
}
