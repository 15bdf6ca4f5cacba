use soop3::config::{DirStatus, SecurityConfig, SecurityPolicy};
use soop3::auth::{authenticate_request, AuthOutcome};
use soop3::files::DirectoryEntry;
use soop3::listing::{build_listing_html, listing_row};
use soop3::paths::IoErrorKind;
use soop3::range::{file_response_plan, parse_and_validate_range, FileBody, RangeEval};
use soop3::router::{
    classify_get, cors_decision, get_asset_mime_type, map_io_error, redirect_location,
    route_request, security_headers, CorsAction, GetAction, PathKind, Route,
};
use soop3::upload::{
    escape_percent_for_join, plan_upload_with_prefix, sanitize_filename, temp_path_for_target,
    upload_base_action, upload_parent_action, validate_final_component, DirAction, UploadError,
    UploadStream,
};
use soop3::Method;

#[test]
fn range_suffix_serves_the_last_bytes() {
    // File "abcdef" (6 bytes), Range: bytes=-2 -> 206, bytes 4-5/6, length 2.
    let eval = parse_and_validate_range("bytes=-2", 6);
    assert_eq!(eval, RangeEval::First(4, 5));

    let plan = file_response_plan(Some("bytes=-2"), 6);
    assert_eq!(plan.status, 206);
    assert_eq!(plan.content_length, Some(2));
    assert_eq!(plan.content_range.as_deref(), Some("bytes 4-5/6"));
    assert_eq!(plan.body, FileBody::Range { start: 4, len: 2 });
    assert!(plan.accept_ranges);
}

#[test]
fn range_plans() {
    let full = file_response_plan(None, 10);
    assert_eq!(full.status, 200);
    assert_eq!(full.content_length, Some(10));
    assert_eq!(full.body, FileBody::Full);

    let malformed = file_response_plan(Some("bytes= 0-1"), 10);
    assert_eq!(malformed.status, 416);
    assert_eq!(malformed.content_range.as_deref(), Some("bytes */10"));
    assert_eq!(malformed.body, FileBody::Empty);

    let unsat = file_response_plan(Some("bytes=5-2"), 10);
    assert_eq!(unsat.status, 416);

    let first = file_response_plan(Some("bytes=0-3"), 10);
    assert_eq!(first.status, 206);
    assert_eq!(first.content_length, Some(4));
    assert_eq!(first.content_range.as_deref(), Some("bytes 0-3/10"));
}

#[test]
fn directory_redirect_adds_the_slash() {
    // public_root/sub exists: GET /sub -> 301 with Location /sub/.
    assert_eq!(classify_get(PathKind::Directory, "/sub"), GetAction::RedirectAddSlash);
    assert_eq!(redirect_location("/sub"), "/sub/");
    assert_eq!(classify_get(PathKind::Directory, "/sub/"), GetAction::DirectoryIndex);
}

#[test]
fn missing_paths_and_favicon() {
    assert_eq!(classify_get(PathKind::Missing, "/nope.txt"), GetAction::NotFound);
    assert_eq!(classify_get(PathKind::Missing, "/favicon.ico"), GetAction::EmbeddedFavicon);
    assert_eq!(classify_get(PathKind::Missing, "/sub/favicon.ico"), GetAction::EmbeddedFavicon);
    assert_eq!(classify_get(PathKind::File, "/a.txt"), GetAction::ServeFile);
}

#[test]
fn routing_table() {
    assert!(matches!(route_request(Method::Get, "/a.txt"), Route::Serve(p) if p == "/a.txt"));
    assert!(matches!(route_request(Method::Head, "/"), Route::Serve(p) if p == "/"));
    assert!(
        matches!(route_request(Method::Get, "/__soop_static/style.css"),
        Route::StaticAsset(k) if k == "style.css")
    );
    assert!(matches!(route_request(Method::Post, "/up"), Route::Upload(p) if p == "/up"));
    assert!(matches!(route_request(Method::Other, "/a"), Route::MethodNotAllowed));
}

#[test]
fn asset_mime_types() {
    assert_eq!(get_asset_mime_type("style.css"), "text/css");
    assert_eq!(get_asset_mime_type("icon.svg"), "image/svg+xml");
    assert_eq!(get_asset_mime_type("favicon.ico"), "image/x-icon");
    assert_eq!(get_asset_mime_type("weird.bin"), "application/octet-stream");
}

#[test]
fn io_error_statuses() {
    assert_eq!(map_io_error(IoErrorKind::NotFound), 404);
    assert_eq!(map_io_error(IoErrorKind::PermissionDenied), 403);
    assert_eq!(map_io_error(IoErrorKind::Other), 500);
}

#[test]
fn security_header_values() {
    let headers = security_headers();
    assert_eq!(headers.len(), 5);
    assert_eq!(headers[0], ("X-Frame-Options".to_string(), "DENY".to_string()));
    assert_eq!(headers[1], ("X-Content-Type-Options".to_string(), "nosniff".to_string()));
    assert_eq!(headers[2], ("X-XSS-Protection".to_string(), "1; mode=block".to_string()));
    assert_eq!(
        headers[3],
        ("Referrer-Policy".to_string(), "strict-origin-when-cross-origin".to_string())
    );
    assert_eq!(
        headers[4],
        (
            "Content-Security-Policy".to_string(),
            "default-src 'self'; style-src 'self' 'unsafe-inline'; img-src 'self' data:; object-src 'none'"
                .to_string()
        )
    );
}

#[test]
fn preflight_under_upload_policy() {
    // Configured origin http://x:3000; OPTIONS with that origin and a
    // requested method is answered 200 with the origin echoed, and the
    // authentication middleware never challenges an OPTIONS request.
    let origins = vec!["http://x:3000".to_string()];
    let plan = cors_decision(&origins, Method::Options, Some("http://x:3000"), None);
    assert_eq!(plan.action, CorsAction::PreflightAllow);
    assert_eq!(
        plan.headers[0],
        ("Access-Control-Allow-Origin".to_string(), "http://x:3000".to_string())
    );
    assert_eq!(plan.headers[1], ("Vary".to_string(), "Origin".to_string()));
    assert_eq!(
        plan.headers[2],
        ("Access-Control-Allow-Methods".to_string(), "GET, HEAD, POST, OPTIONS".to_string())
    );
    assert_eq!(
        plan.headers[3],
        ("Access-Control-Allow-Headers".to_string(), "*".to_string())
    );
    assert_eq!(plan.headers[4], ("Access-Control-Max-Age".to_string(), "3600".to_string()));

    let auth_cfg = SecurityConfig {
        username: Some("u".to_string()),
        password: Some("p".to_string()),
        policy: SecurityPolicy::AuthenticateUpload,
    };
    assert_eq!(authenticate_request(&auth_cfg, Method::Options, None), AuthOutcome::Allow);
}

#[test]
fn cors_preflight_refused_for_unknown_origin() {
    let origins = vec!["http://x:3000".to_string()];
    let plan = cors_decision(&origins, Method::Options, Some("http://evil"), None);
    assert_eq!(plan.action, CorsAction::PreflightForbid);
    assert!(plan.headers.is_empty());
}

#[test]
fn cors_headers_ride_along_on_any_response() {
    // With CORS allowing https://e.com, even a 413 from the upload limit
    // carries the origin echo: the decision does not depend on the status.
    let origins = vec!["https://e.com".to_string()];
    let plan = cors_decision(&origins, Method::Post, Some("https://e.com"), None);
    assert_eq!(plan.action, CorsAction::Forward);
    assert_eq!(
        plan.headers[0],
        ("Access-Control-Allow-Origin".to_string(), "https://e.com".to_string())
    );
    assert_eq!(plan.headers[1], ("Vary".to_string(), "Origin".to_string()));

    assert_eq!(UploadError::PayloadTooLarge.status_code(), 413);
}

#[test]
fn cors_wildcard_and_echo() {
    let origins = vec!["*".to_string()];
    let plan = cors_decision(&origins, Method::Get, Some("https://any.example"), None);
    assert_eq!(plan.action, CorsAction::Forward);
    assert_eq!(
        plan.headers[0],
        ("Access-Control-Allow-Origin".to_string(), "https://any.example".to_string())
    );

    let preflight = cors_decision(&origins, Method::Options, Some("https://any.example"), Some("x-custom"));
    assert_eq!(preflight.action, CorsAction::PreflightAllow);
    assert_eq!(
        preflight.headers[3],
        ("Access-Control-Allow-Headers".to_string(), "x-custom".to_string())
    );
}

#[test]
fn listing_link_encoding() {
    // A file named "file with spaces.txt" produces a row whose href is the
    // encoded name and whose display text is the literal name.
    let e = DirectoryEntry {
        name: "file with spaces.txt".to_string(),
        size: 3,
        modified: 0,
        is_dir: false,
    };
    let row = listing_row(&e, "1970-01-01 00:00:00");
    assert!(row.contains("href=\"file%20with%20spaces.txt\""));
    assert!(row.contains(">file with spaces.txt</a>"));
}

#[test]
fn listing_page_structure() {
    let entries = vec![
        DirectoryEntry { name: "sub".to_string(), size: 0, modified: 0, is_dir: true },
        DirectoryEntry { name: "a.txt".to_string(), size: 6, modified: 0, is_dir: false },
    ];
    let html = build_listing_html(&entries, "/");
    assert!(html.contains("<title>soop3 | /</title>"));
    assert!(html.contains("href=\"sub/\""));
    assert!(html.contains("href=\"a.txt\""));
    // the root listing has no parent link
    assert!(!html.contains("href=\"../\""));

    let nested = build_listing_html(&entries, "/sub/");
    assert!(nested.contains("href=\"../\""));
    // hrefs stay relative: no absolute or doubled paths
    assert!(!nested.contains("href=\"/sub/"));
}

#[test]
fn upload_stream_enforces_the_ceiling() {
    // max_request_bytes 1024, a single 2000-byte part: refused, nothing kept.
    let mut stream = UploadStream::new(1024);
    assert_eq!(stream.on_chunk(2000), Err(UploadError::PayloadTooLarge));
    assert_eq!(stream.written, 0);

    let mut stream = UploadStream::new(1024);
    assert_eq!(stream.on_chunk(1000), Ok(()));
    assert_eq!(stream.on_chunk(24), Ok(()));
    assert_eq!(stream.written, 1024);
    assert_eq!(stream.on_chunk(1), Err(UploadError::PayloadTooLarge));
}

#[test]
fn upload_error_statuses() {
    assert_eq!(UploadError::InvalidFilename.status_code(), 400);
    assert_eq!(UploadError::ParentNotDirectory.status_code(), 409);
    assert_eq!(UploadError::MissingDirectory.status_code(), 404);
    assert_eq!(UploadError::InvalidBase.status_code(), 500);
    assert_eq!(UploadError::Conflict.status_code(), 409);
    assert_eq!(UploadError::PayloadTooLarge.status_code(), 413);
    assert_eq!(UploadError::Io.status_code(), 500);
    assert_eq!(UploadError::Multipart(400).status_code(), 400);
}

#[test]
fn upload_filename_rules() {
    assert_eq!(sanitize_filename("upload.txt").unwrap(), "upload.txt");
    assert_eq!(sanitize_filename(""), Err(UploadError::InvalidFilename));
    assert_eq!(sanitize_filename("a/b.txt"), Err(UploadError::InvalidFilename));
    assert_eq!(sanitize_filename("a\\b.txt"), Err(UploadError::InvalidFilename));
    let long = "x".repeat(256);
    assert_eq!(sanitize_filename(&long), Err(UploadError::InvalidFilename));

    assert!(validate_final_component("dir/name.txt").is_ok());
    assert_eq!(validate_final_component("dir/.."), Err(UploadError::InvalidFilename));
    assert_eq!(validate_final_component("."), Err(UploadError::InvalidFilename));
    assert_eq!(validate_final_component("dir/"), Err(UploadError::InvalidFilename));

    assert_eq!(escape_percent_for_join("100%.txt"), "100%25.txt");
    assert_eq!(escape_percent_for_join("plain.txt"), "plain.txt");
}

#[test]
fn upload_target_planning() {
    let target = plan_upload_with_prefix("/uploads", "", "upload.txt", None).unwrap();
    assert_eq!(target, "/uploads/upload.txt");

    let nested = plan_upload_with_prefix("/uploads", "sub/", "a.txt", None).unwrap();
    assert_eq!(nested, "/uploads/sub/a.txt");

    let stamped =
        plan_upload_with_prefix("/uploads", "", "a.txt", Some("20240101_120000")).unwrap();
    assert_eq!(stamped, "/uploads/20240101_120000_a.txt");

    // a percent in the name survives the jail's decoding
    let tricky = plan_upload_with_prefix("/uploads", "", "100%2f.txt", None).unwrap();
    assert_eq!(tricky, "/uploads/100%2f.txt");

    let escape = plan_upload_with_prefix("/uploads", "../", "a.txt", None);
    assert!(escape.is_err());
}

#[test]
fn temp_names_sit_beside_the_target() {
    assert_eq!(temp_path_for_target("/up/a.txt", 12345), "/up/a.txt.12345.tmp");
}

#[test]
fn timestamp_prefix_lands_in_the_stored_name() {
    let target = soop3::upload::plan_upload("/uploads", "", "a.txt", true).unwrap();
    assert!(target.starts_with("/uploads/"));
    assert!(target.ends_with("_a.txt"));
    // the prefix itself: at least 15 characters between the root and the name
    assert!(target.len() >= "/uploads/".len() + 15 + "_a.txt".len());

    let plain = soop3::upload::plan_upload("/uploads", "", "a.txt", false).unwrap();
    assert_eq!(plain, "/uploads/a.txt");
}

#[test]
fn upload_directory_policy() {
    assert_eq!(upload_parent_action(DirStatus::Directory, false), DirAction::Proceed);
    assert_eq!(
        upload_parent_action(DirStatus::NotDirectory, true),
        DirAction::Fail(UploadError::ParentNotDirectory)
    );
    assert_eq!(
        upload_parent_action(DirStatus::Missing, false),
        DirAction::Fail(UploadError::MissingDirectory)
    );
    assert_eq!(upload_parent_action(DirStatus::Missing, true), DirAction::Create);

    assert_eq!(
        upload_base_action(DirStatus::NotDirectory, true),
        DirAction::Fail(UploadError::InvalidBase)
    );
    assert_eq!(upload_base_action(DirStatus::Directory, false), DirAction::Proceed);
}
