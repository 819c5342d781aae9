use furl_core::engine::range_header_value;
use furl_core::headers::{
    HeaderError, HeaderUtils, ResponseHeaders, extract_filename_from_url, output_path,
    parse_disposition_filename, resolve_filename,
};

fn headers(disposition: Option<&str>, range: Option<&str>) -> ResponseHeaders {
    ResponseHeaders {
        content_disposition: disposition.map(|s| s.to_string()),
        content_range: range.map(|s| s.to_string()),
    }
}

#[test]
fn filename_from_quoted_disposition() {
    let h = headers(Some("attachment; filename=\"report.pdf\""), None);
    assert_eq!(h.extract_filename().unwrap(), "report.pdf");
}

#[test]
fn filename_from_unquoted_disposition() {
    let h = headers(Some("filename=data.bin"), None);
    assert_eq!(h.extract_filename().unwrap(), "data.bin");
}

#[test]
fn filename_missing_disposition() {
    let h = headers(None, None);
    assert_eq!(h.extract_filename(), Err(HeaderError::MissingHeader));
}

#[test]
fn filename_disposition_without_token() {
    let h = headers(Some("attachment; name=x"), None);
    assert_eq!(h.extract_filename(), Err(HeaderError::MalformedValue));
}

#[test]
fn filename_stops_at_second_token() {
    assert_eq!(
        parse_disposition_filename("filename=a.txt; filename=b.txt").unwrap(),
        "a.txt; "
    );
}

#[test]
fn filename_from_url_segment() {
    assert_eq!(
        extract_filename_from_url("https://example.com/files/archive.zip").unwrap(),
        "archive.zip"
    );
    assert_eq!(extract_filename_from_url("https://example.com/"), None);
    assert_eq!(extract_filename_from_url("not a url"), None);
}

#[test]
fn filename_precedence_disposition_first() {
    let h = headers(Some("filename=\"from-header.bin\""), None);
    let name = resolve_filename(&h, "https://example.com/from-url.bin");
    assert_eq!(name, "from-header.bin");
}

#[test]
fn filename_precedence_url_second() {
    let h = headers(Some("no token here"), None);
    let name = resolve_filename(&h, "https://example.com/from-url.bin");
    assert_eq!(name, "from-url.bin");
}

#[test]
fn filename_precedence_default_last() {
    let h = headers(None, None);
    let name = resolve_filename(&h, "https://example.com/");
    assert_eq!(name, "download.bin");
}

#[test]
fn file_size_from_content_range() {
    let h = headers(None, Some("bytes 0-0/360996864"));
    assert_eq!(h.extract_file_size(), Ok(360996864));
}

#[test]
fn file_size_without_slash() {
    let h = headers(None, Some("12345"));
    assert_eq!(h.extract_file_size(), Ok(12345));
}

#[test]
fn file_size_missing_header() {
    let h = headers(None, None);
    assert_eq!(h.extract_file_size(), Err(HeaderError::MissingHeader));
}

#[test]
fn file_size_malformed_values() {
    for v in ["bytes */abc", "bytes 0-0/", "bytes 0-0/12x", "bytes 0-0/-3"] {
        let h = headers(None, Some(v));
        assert_eq!(h.extract_file_size(), Err(HeaderError::MalformedValue), "{v}");
    }
}

#[test]
fn file_size_u64_boundary() {
    let h = headers(None, Some("bytes 0-0/18446744073709551615"));
    assert_eq!(h.extract_file_size(), Ok(u64::MAX));
    let h = headers(None, Some("bytes 0-0/18446744073709551616"));
    assert_eq!(h.extract_file_size(), Err(HeaderError::MalformedValue));
}

#[test]
fn output_path_joins_and_collapses() {
    assert_eq!(output_path("downloads", "file.txt"), "downloads/file.txt");
    assert_eq!(output_path("downloads/", "file.txt"), "downloads/file.txt");
    assert_eq!(output_path(".", "a.bin"), "./a.bin");
}

#[test]
fn output_path_collapse_is_one_pass() {
    // pairs of separators collapse left to right, without rescanning
    assert_eq!(output_path("a//b", "c"), "a/b/c");
    assert_eq!(output_path("a///b", "c"), "a//b/c");
}

#[test]
fn range_header_rendering() {
    assert_eq!(range_header_value(0, 1023), "bytes=0-1023");
    assert_eq!(range_header_value(6553600, 13107199), "bytes=6553600-13107199");
    assert_eq!(range_header_value(0, 0), "bytes=0-0");
}
