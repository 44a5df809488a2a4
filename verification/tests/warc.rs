//! Web archives.
use newtua_core::archive::{ArchiveReader, Confidence, FormatHandler, FormatId, Source};
use newtua_core::datetime::{Stamp, Timestamp};
use newtua_core::error::Error;
use newtua_core::format::stored::StoredReader;
use newtua_core::format::warc::{
    build_reader, check_uris, parse_warc_date, strip_http_headers, uri_to_path, RecordKind, WarcHandler, WarcRow,
};

fn at(secs: i128) -> Timestamp {
    Timestamp { secs, nanos: 0 }
}

#[test]
fn id_is_warc() {
    assert_eq!(WarcHandler.id(), FormatId::Warc);
}

#[test]
fn parse_warc_date_valid_and_out_of_range() {
    assert!(parse_warc_date("1970-01-01T00:00:00Z") == Some(at(0)));
    assert!(parse_warc_date("2020-06-15T12:30:00Z").is_some());
    assert_eq!(parse_warc_date("2020-13-01T00:00:00Z"), None);
    assert_eq!(parse_warc_date("2020-00-01T00:00:00Z"), None);
    assert_eq!(parse_warc_date("1969-12-31T23:59:59Z"), None);
}

#[test]
fn probe_positive_magic() {
    let header = b"WARC/1.0\r\nWARC-Type: warcinfo\r\n";
    assert_eq!(WarcHandler.probe(header, None), Confidence::magic());
}

#[test]
fn probe_positive_warc_gz_name() {
    let header = &[0x1f_u8, 0x8b, 0x08, 0x00];
    assert_eq!(
        WarcHandler.probe(header, Some("archive.warc.gz")),
        Confidence::magic()
    );
}

#[test]
fn probe_positive_warc_extension() {
    let header = b"WARC/1.0\r\n";
    assert_eq!(
        WarcHandler.probe(header, Some("site.warc")),
        Confidence::magic()
    );
}

#[test]
fn warc_probe_negative_zip() {
    assert_eq!(WarcHandler.probe(b"PK\x03\x04", None), Confidence::none());
}

#[test]
fn uri_to_path_http() {
    assert_eq!(
        uri_to_path("http://example.com/page.html"),
        "example.com/page.html"
    );
}

#[test]
fn uri_to_path_root() {
    assert_eq!(uri_to_path("https://example.com/"), "example.com");
}

#[test]
fn uri_to_path_no_scheme() {
    assert_eq!(uri_to_path("example.com/data"), "example.com/data");
}

#[test]
fn uri_to_path_query_stripped() {
    assert_eq!(
        uri_to_path("http://example.com/search?q=foo&bar=1"),
        "example.com/search"
    );
}

#[test]
fn uri_to_path_dotdot_sanitized() {
    assert_eq!(
        uri_to_path("http://example.com/../etc/passwd"),
        "example.com/_/etc/passwd"
    );
}

#[test]
fn strip_http_headers_basic() {
    let body = b"HTTP/1.1 200 OK\r\nContent-Type: text/html\r\n\r\n<html>body</html>";
    assert_eq!(strip_http_headers(body), b"<html>body</html>");
}

#[test]
fn strip_http_headers_no_separator_returns_full() {
    let body = b"no-separator-here";
    assert_eq!(strip_http_headers(body), body.as_ref());
}

#[test]
fn strip_http_headers_empty_payload() {
    let body = b"HTTP/1.1 200 OK\r\n\r\n";
    assert_eq!(strip_http_headers(body), b"");
}

fn record(kind: &str, uri: Option<&[u8]>, date: &str, body: &[u8]) -> Vec<u8> {
    let mut out = format!("WARC/1.0\r\nWARC-Type: {kind}\r\nWARC-Record-ID: <urn:uuid:1>\r\nWARC-Date: {date}\r\n").into_bytes();
    if let Some(u) = uri {
        out.extend_from_slice(b"WARC-Target-URI: ");
        out.extend_from_slice(u);
        out.extend_from_slice(b"\r\n");
    }
    out.extend_from_slice(format!("Content-Length: {}\r\n\r\n", body.len()).as_bytes());
    out.extend_from_slice(body);
    out.extend_from_slice(b"\r\n\r\n");
    out
}

fn sample() -> Vec<u8> {
    let http: &[u8] = b"HTTP/1.1 200 OK\r\n\r\n<p>hi</p>";
    let mut out = record("warcinfo", None, "2020-01-02T03:04:05Z", b"software: x");
    out.extend(record("response", Some(b"http://a.org/p?q"), "2020-01-02T03:04:05Z", http));
    out.extend(record("resource", Some(b"http://a.org/p"), "2020-01-02T03:04:05Z", http));
    out.extend(record("resource", None, "2020-01-02T03:04:05Z", b"bare"));
    out
}

fn source(name: &str, bytes: &[u8]) -> Source {
    Source::Seekable { inner: bytes.to_vec(), path: Some(String::from(name)) }
}

fn check(r: &StoredReader) {
    assert_eq!(r.format(), FormatId::Warc);
    let names: Vec<&str> = r.entries().iter().map(|e| e.path.as_str()).collect();
    assert_eq!(names, ["a.org/p", "a.org/p-1", "record-2"]);
    assert_eq!(r.read_entry(0).unwrap(), b"<p>hi</p>");
    assert_eq!(r.read_entry(1).unwrap(), b"HTTP/1.1 200 OK\r\n\r\n<p>hi</p>");
    assert_eq!(r.read_entry(2).unwrap(), b"bare");
    assert_eq!(r.entries()[0].modified, Some(Stamp::Instant(at(1_577_934_245))));
    assert!(matches!(r.read_entry(3), Err(Error::InvalidIndex(3))));
}

#[test]
fn responses_and_resources_are_listed_and_read() {
    check(&WarcHandler.open_readable(source("/tmp/a.warc", &sample())).unwrap().unwrap());
    let mut e = flate2::write::GzEncoder::new(Vec::new(), flate2::Compression::default());
    std::io::Write::write_all(&mut e, &sample()).unwrap();
    let packed = e.finish().unwrap();
    check(&WarcHandler.open_readable(source("/tmp/a.WARC.GZ", &packed)).unwrap().unwrap());
}

#[test]
fn broken_record_is_corrupt() {
    let mut bytes = sample();
    bytes.truncate(bytes.len() - 3);
    let r = WarcHandler.open_readable(source("/tmp/a.warc", &bytes)).unwrap();
    assert!(matches!(r, Err(Error::Corrupt(_))));
}

#[test]
fn archives_that_cannot_be_read_are_told() {
    let odd = record("resource", Some(b"http://\xFF/"), "2020-01-02T03:04:05Z", b"");
    assert!(WarcHandler.open_readable(source("/tmp/a.warc", &odd)).is_none());
    let info = record("warcinfo", Some(b"http://\xFF/"), "2020-01-02T03:04:05Z", b"");
    assert!(WarcHandler.open_readable(source("/tmp/a.warc", &info)).unwrap().unwrap().entries().is_empty());
    let long = b"WARC/1.0\r\nContent-Length: 18446744073709551615\r\n\r\nxx\r\n";
    assert!(WarcHandler.open_readable(source("/tmp/a.warc", long)).is_none());
}

#[test]
fn names_that_meet_are_told_apart() {
    let row = |uri: &str| WarcRow {
        kind: RecordKind::Resource,
        uri: Some(uri.as_bytes().to_vec()),
        date: None,
        body: Vec::new(),
    };
    let rows = vec![row("x/a"), row("http://x/a#1"), row("x/a?2")];
    assert!(check_uris(&rows));
    let names: Vec<String> = build_reader(rows).entries().iter().map(|e| e.path.clone()).collect();
    assert_eq!(names, ["x/a", "x/a-1", "x/a-2"]);
}

#[test]
fn numbered_names_do_not_meet_others() {
    let mut bytes = Vec::new();
    for uri in ["a", "a", "a-1", "a", "a-1"] {
        bytes.extend(record("resource", Some(uri.as_bytes()), "2020-01-02T03:04:05Z", b"x"));
    }
    let r = WarcHandler.open_readable(source("/tmp/a.warc", &bytes)).unwrap().unwrap();
    let mut names: Vec<String> = r.entries().iter().map(|e| e.path.clone()).collect();
    assert_eq!(names[..2], ["a", "a-1"]);
    names.sort();
    names.dedup();
    assert_eq!(names.len(), 5);
}

#[test]
fn only_lengths_in_record_heads_can_be_too_large() {
    let bytes = record("resource", Some(b"x/a"), "2020-01-02T03:04:05Z", b"Content-Length: 18446744073709551615\r\n\r\n");
    let r = WarcHandler.open_readable(source("/tmp/a.warc", &bytes)).unwrap().unwrap();
    assert_eq!(r.read_entry(0).unwrap(), b"Content-Length: 18446744073709551615\r\n\r\n");
}

#[test]
fn damaged_gzip_is_corrupt() {
    let mut e = flate2::write::GzEncoder::new(Vec::new(), flate2::Compression::default());
    std::io::Write::write_all(&mut e, &sample()).unwrap();
    let mut packed = e.finish().unwrap();
    packed.truncate(packed.len() - 9);
    let r = WarcHandler.open_readable(source("/tmp/a.warc.gz", &packed)).unwrap();
    assert!(matches!(r, Err(Error::Corrupt(_))));
}
