use soop3::files::{escape_html, format_file_size, format_timestamp, get_mime_type};

#[test]
fn files_test_file_size_formatting() {
    assert_eq!(format_file_size(0), "0 B");
    assert_eq!(format_file_size(512), "512 B");
    assert_eq!(format_file_size(1024), "1.0 KiB");
    assert_eq!(format_file_size(1536), "1.5 KiB");
    assert_eq!(format_file_size(1048576), "1.0 MiB");
    assert_eq!(format_file_size(1073741824), "1.0 GiB");
}

#[test]
fn files_test_html_escaping() {
    assert_eq!(escape_html("normal text"), "normal text");
    assert_eq!(escape_html("<script>"), "&lt;script&gt;");
    assert_eq!(escape_html("a & b"), "a &amp; b");
    assert_eq!(escape_html("\"quoted\""), "&quot;quoted&quot;");
}

#[test]
fn files_test_mime_type_detection() {
    assert_eq!(get_mime_type("file.html"), "text/html");
    assert_eq!(get_mime_type("file.css"), "text/css");
    assert_eq!(get_mime_type("file.js"), "text/javascript");
    assert_eq!(get_mime_type("file.png"), "image/png");
    assert_eq!(get_mime_type("file.jpg"), "image/jpeg");
}

#[test]
fn unit_tests_test_file_size_formatting() {
    assert_eq!(format_file_size(0), "0 B");
    assert_eq!(format_file_size(512), "512 B");
    assert_eq!(format_file_size(1024), "1.0 KiB");
    assert_eq!(format_file_size(1536), "1.5 KiB");
    assert_eq!(format_file_size(1048576), "1.0 MiB");
    assert_eq!(format_file_size(2147483648), "2.0 GiB");
    assert_eq!(format_file_size(1099511627776), "1.0 TiB");
}

#[test]
fn unit_tests_test_html_escaping() {
    assert_eq!(escape_html("normal text"), "normal text");
    assert_eq!(
        escape_html("<script>alert('xss')</script>"),
        "&lt;script&gt;alert(&#x27;xss&#x27;)&lt;/script&gt;"
    );
    assert_eq!(escape_html("a & b"), "a &amp; b");
    assert_eq!(escape_html("\"quoted\""), "&quot;quoted&quot;");
    assert_eq!(escape_html("'single quotes'"), "&#x27;single quotes&#x27;");
    assert_eq!(escape_html("<>&\"'"), "&lt;&gt;&amp;&quot;&#x27;");
}

#[test]
fn unit_tests_test_mime_type_detection() {
    assert_eq!(get_mime_type("file.html"), "text/html");
    assert_eq!(get_mime_type("file.css"), "text/css");
    assert_eq!(get_mime_type("file.js"), "text/javascript");
    assert_eq!(get_mime_type("file.png"), "image/png");
    assert_eq!(get_mime_type("file.jpg"), "image/jpeg");
    assert_eq!(get_mime_type("file.gif"), "image/gif");
    assert_eq!(get_mime_type("file.svg"), "image/svg+xml");
    assert_eq!(get_mime_type("file.pdf"), "application/pdf");
    assert_eq!(get_mime_type("file.zip"), "application/zip");
    assert_eq!(get_mime_type("file.unknown"), "application/octet-stream");
}

#[test]
fn test_timestamp_formatting() {
    let formatted = format_timestamp(0);
    assert!(formatted.len() == 19);
    assert!(formatted.contains("-"));
    assert!(formatted.contains(":"));
    assert!(formatted.contains(" "));
}

#[test]
fn file_size_rounding_holds_the_unit() {
    assert_eq!(format_file_size(1023), "1023 B");
    assert_eq!(format_file_size(1100), "1.1 KiB");
    assert_eq!(format_file_size(10240), "10.0 KiB");
}
