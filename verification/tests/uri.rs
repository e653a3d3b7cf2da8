use oxideav_source::uri::{
    has_file_scheme, percent_decode_bytes, percent_decode_path, split,
};

#[test]
fn bare_path() {
    assert_eq!(split("/tmp/x.mp4"), ("file", "/tmp/x.mp4"));
    assert_eq!(split("relative/x.mp4"), ("file", "relative/x.mp4"));
    assert_eq!(split("Cargo.toml"), ("file", "Cargo.toml"));
}

#[test]
fn file_scheme() {
    assert_eq!(split("file:///tmp/x.mp4"), ("file", "/tmp/x.mp4"));
    assert_eq!(split("file:relative"), ("file", "relative"));
}

#[test]
fn http_scheme() {
    assert_eq!(
        split("https://example.com/a.mp4"),
        ("https", "example.com/a.mp4")
    );
    assert_eq!(
        split("http://example.com:8080/a"),
        ("http", "example.com:8080/a")
    );
}

#[test]
fn windows_drive_letter_is_bare_path() {
    assert_eq!(
        split("C:\\Users\\file.mp4"),
        ("file", "C:\\Users\\file.mp4")
    );
}

#[test]
fn has_file_scheme_basic() {
    assert!(has_file_scheme("file:///tmp/x"));
    assert!(has_file_scheme("file:rel"));
    assert!(has_file_scheme("FILE:///tmp/x"));
    assert!(has_file_scheme("File:///tmp/x"));
    assert!(!has_file_scheme("/tmp/x"));
    assert!(!has_file_scheme("Cargo.toml"));
    assert!(!has_file_scheme("mem://x"));
    assert!(!has_file_scheme("data:,abc"));
    assert!(!has_file_scheme(""));
    assert!(!has_file_scheme("file"));
}

#[test]
fn percent_decode_no_escapes_passthrough() {
    assert_eq!(percent_decode_path("/tmp/x.mp4").unwrap(), "/tmp/x.mp4");
    assert_eq!(percent_decode_path("").unwrap(), "");
}

#[test]
fn percent_decode_space() {
    assert_eq!(
        percent_decode_path("/tmp/foo%20bar.txt").unwrap(),
        "/tmp/foo bar.txt"
    );
}

#[test]
fn percent_decode_mixed_case_hex() {
    assert_eq!(percent_decode_path("%2f%2F").unwrap(), "//");
    assert_eq!(percent_decode_path("%41%61").unwrap(), "Aa");
    assert_eq!(
        percent_decode_path("%6a").unwrap(),
        percent_decode_path("%6A").unwrap()
    );
}

#[test]
fn percent_decode_utf8_multibyte() {
    assert_eq!(
        percent_decode_path("%D0%9F%D1%80%D0%B8%D0%B2%D0%B5%D1%82").unwrap(),
        "Привет"
    );
}

#[test]
fn percent_decode_plus_is_not_space() {
    assert_eq!(percent_decode_path("/tmp/a+b.txt").unwrap(), "/tmp/a+b.txt");
}

#[test]
fn percent_decode_truncated_rejected() {
    assert!(percent_decode_path("/tmp/%F").is_err());
    assert!(percent_decode_path("%").is_err());
}

#[test]
fn percent_decode_bad_hex_rejected() {
    assert!(percent_decode_path("%ZZ").is_err());
    assert!(percent_decode_path("%2G").is_err());
}

#[test]
fn percent_decode_invalid_utf8_rejected() {
    assert!(percent_decode_path("%FF").is_err());
}

#[test]
fn percent_decode_bytes_accepts_invalid_utf8() {
    let v = percent_decode_bytes("%FF%00%7E").unwrap();
    assert_eq!(v, [0xff, 0x00, 0x7e]);
}
