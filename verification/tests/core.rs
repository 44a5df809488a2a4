//! Entries, times, names and errors.
use newtua_core::archive::{
    read_up_to, Confidence, Entry, EntryKind, EntrySink, OpenOptions, SinkStep, SinkWriter, Source,
};
use newtua_core::datetime::{
    civil_from_days, civil_to_systime, days_from_civil, dos_words_to_systime, filetime_to_systime, local_civil,
    local_civil_to_systime, local_unix_secs, unix_secs_to_systime, CivilTime, Timestamp,
};
use newtua_core::encoding::{decode_names, detect_encoding};
use newtua_core::error::{from_std, io_err_to_corrupt, Error, IoError, IoKind};

fn at(secs: i128) -> Timestamp {
    Timestamp { secs, nanos: 0 }
}

#[test]
fn confidence_ordering() {
    assert!(Confidence::magic() > Confidence::none());
    assert_eq!(Confidence::none(), Confidence(0));
}

#[test]
fn open_options_default_is_empty() {
    let o = OpenOptions::default();
    assert!(o.password.is_none());
    assert!(o.encoding_override.is_none());
}

#[test]
fn entry_construction() {
    let e = Entry {
        path_raw: b"a.txt".to_vec(),
        path: String::from("a.txt"),
        kind: EntryKind::File,
        size: 5,
        mode: None,
        is_encrypted: false,
        modified: None,
        is_resource_fork: false,
    };
    assert_eq!(e.size, 5);
    assert!(!e.is_dir());
}

#[test]
fn header_of_a_source() {
    let s = Source::Seekable { inner: b"abcdef".to_vec(), path: Some(String::from("/x/y")) };
    assert_eq!(s.file_path(), Some("/x/y"));
    assert_eq!(s.peek_header(4).unwrap(), b"abcd");
    assert_eq!(s.peek_header(40).unwrap(), b"abcdef");
    let t = Source::Stream { inner: b"abc".to_vec(), path: None };
    assert_eq!(t.file_path(), None);
    assert!(matches!(t.peek_header(1), Err(Error::UnknownFormat)));
    assert_eq!(read_up_to(b"abc", 2), b"ab");
}

struct Refusing;

impl EntrySink for Refusing {
    fn begin(&mut self, _idx: usize) -> Result<SinkStep, Error> {
        Ok(SinkStep::Body)
    }

    fn write_body(&mut self, _buf: &[u8]) -> Result<(), Error> {
        Err(Error::WrongPassword)
    }

    fn end(&mut self, _idx: usize, _outcome: Result<(), Error>) -> Result<bool, Error> {
        Ok(true)
    }
}

#[test]
fn refusal_of_a_sink_is_kept() {
    let mut sink = Refusing;
    let mut w = SinkWriter::new(&mut sink);
    assert!(w.take_err().is_none());
    assert!(matches!(w.write(b"x"), Err(Error::Io(e))
        if e.kind == IoKind::Other && e.message == "entry sink rejected the body"));
    assert!(matches!(w.take_err(), Some(Error::WrongPassword)));
    assert!(w.take_err().is_none());
}

#[test]
fn unix_secs_zero_is_no_time() {
    assert_eq!(unix_secs_to_systime(0), None);
    assert_eq!(unix_secs_to_systime(1), Some(at(1)));
}

#[test]
fn days_from_civil_epoch_and_known_date() {
    assert_eq!(days_from_civil(1970, 1, 1), Some(0));
    assert_eq!(days_from_civil(2000, 1, 1), Some(10957));
    assert_eq!(days_from_civil(1969, 12, 31), None);
}

#[test]
fn civil_to_systime_valid_and_out_of_range() {
    assert_eq!(civil_to_systime(1970, 1, 1, 0, 0, 0), Some(at(0)));
    assert_eq!(civil_to_systime(1970, 1, 1, 0, 1, 0), Some(at(60)));
    assert!(civil_to_systime(2020, 6, 15, 12, 30, 0).is_some());
    assert_eq!(civil_to_systime(2020, 13, 1, 0, 0, 0), None);
    assert_eq!(civil_to_systime(2020, 0, 1, 0, 0, 0), None);
    assert_eq!(civil_to_systime(1969, 12, 31, 23, 59, 59), None);
}

#[test]
fn days_and_dates_go_both_ways() {
    for days in [0u64, 1, 58, 59, 60, 365, 10957, 11016, 20000, 100000] {
        let (y, m, d) = civil_from_days(days as i64);
        assert_eq!(days_from_civil(y, m, d), Some(days));
    }
    assert_eq!(civil_from_days(11016), (2000, 2, 29));
}

#[test]
fn wall_clock_is_split_and_resolved() {
    let c = local_unix_secs(86_400 * 10957 + 3_723);
    assert_eq!(c, CivilTime { year: 2000, month: 1, day: 1, hour: 1, min: 2, sec: 3 });
    assert_eq!(local_civil(c), Some(c));
    assert_eq!(local_civil(CivilTime { month: 13, ..c }), None);
    assert_eq!(local_civil_to_systime(c, 946_688_523), Some(at(946_688_523)));
}

#[test]
fn packed_dos_words_are_a_wall_clock() {
    let c = dos_words_to_systime(0x226c, 0x59ba).unwrap();
    assert_eq!(c, CivilTime { year: 1997, month: 3, day: 12, hour: 11, min: 13, sec: 52 });
    assert_eq!(dos_words_to_systime(0, 0), None);
}

#[test]
fn windows_ticks_before_1970_are_no_time() {
    assert_eq!(filetime_to_systime(0), None);
    assert_eq!(filetime_to_systime(116_444_735_999_999_999), None);
    assert_eq!(filetime_to_systime(116_444_736_000_000_000), Some(at(0)));
    assert_eq!(
        filetime_to_systime(116_444_736_000_000_000 + 10_000_001),
        Some(Timestamp { secs: 1, nanos: 100 })
    );
}

#[test]
fn utf8_names_pass_through() {
    let raw = vec!["café.txt".as_bytes().to_vec(), "naïve".as_bytes().to_vec()];
    let out = decode_names(&raw, None);
    assert_eq!(out, vec!["café.txt".to_string(), "naïve".to_string()]);
}

#[test]
fn override_label_forces_encoding() {
    let raw = vec![vec![b'c', b'a', b'f', 0xE9]];
    let out = decode_names(&raw, Some("windows-1252"));
    assert_eq!(out, vec!["café".to_string()]);
}

#[test]
fn aggregate_detection_decodes_legacy_bytes() {
    let raw = vec![vec![0xF4, 0xE0, 0xE9, 0xEB]];
    let out = decode_names(&raw, None);
    assert!(out[0].chars().all(|c| c != '\u{FFFD}'));
}

#[test]
fn empty_input_yields_empty() {
    assert!(decode_names(&[], None).is_empty());
}

#[test]
fn invalid_override_label_falls_back() {
    let raw = vec!["ok.txt".as_bytes().to_vec()];
    let out = decode_names(&raw, Some("not-a-real-encoding"));
    assert_eq!(out, vec!["ok.txt".to_string()]);
}

#[test]
fn empty_name_decodes_to_empty_string() {
    let raw = vec![Vec::new()];
    assert_eq!(decode_names(&raw, None), vec![String::new()]);
}

#[test]
fn settled_encoding_is_told() {
    assert_eq!(detect_encoding(&[b"abc".to_vec()], None), "UTF-8");
    assert_eq!(detect_encoding(&[b"abc".to_vec()], Some("latin1")), "windows-1252");
}

#[test]
fn reported_encoding_decodes_the_names_again() {
    let sets = [
        vec![vec![0xF4, 0xE0, 0xE9, 0xEB], vec![b'a', 0xE0]],
        vec!["café".as_bytes().to_vec(), b"plain".to_vec()],
        vec![vec![0x82, 0xA0, 0x82, 0xA2, 0x82, 0xA4]],
    ];
    for raw in sets {
        let name = detect_encoding(&raw, None);
        let again = Some(name.as_str());
        assert_eq!(detect_encoding(&raw, again), name);
        assert_eq!(decode_names(&raw, again), decode_names(&raw, None));
        let first = raw[..1].to_vec();
        assert_eq!(decode_names(&first, again)[0], decode_names(&raw, None)[0]);
    }
}

fn std_io(kind: std::io::ErrorKind) -> IoError {
    match from_std(std::io::Error::from(kind)) {
        Error::Io(e) => e,
        other => panic!("unexpected {other:?}"),
    }
}

#[test]
fn io_err_to_corrupt_classifies_kinds() {
    let corrupt = io_err_to_corrupt(std_io(std::io::ErrorKind::InvalidData));
    assert!(matches!(corrupt, Error::Corrupt(_)));
    let eof = io_err_to_corrupt(std_io(std::io::ErrorKind::UnexpectedEof));
    assert!(matches!(eof, Error::Corrupt(_)));
    let io = io_err_to_corrupt(std_io(std::io::ErrorKind::NotFound));
    assert!(matches!(io, Error::Io(_)));
}

#[test]
fn display_messages_are_human_readable() {
    let e = Error::WrongPassword;
    assert!(e.to_string().to_lowercase().contains("password"));

    let e = Error::Unsupported {
        format: "rar".into(),
        feature: "solid".into(),
    };
    let msg = e.to_string();
    assert!(msg.contains("rar") && msg.contains("solid"));
}

#[test]
fn io_error_converts() {
    let io = std::io::Error::new(std::io::ErrorKind::NotFound, "x");
    let e: Error = from_std(io);
    assert!(matches!(e, Error::Io(_)));
    let again: Error = IoError { kind: IoKind::NotFound, message: String::from("x") }.into();
    assert!(matches!(again, Error::Io(IoError { kind: IoKind::NotFound, .. })));
}

#[test]
fn corrupt_carries_context() {
    let e = Error::Corrupt("bad central directory".into());
    assert!(e.to_string().contains("bad central directory"));
}

#[test]
fn path_traversal_carries_offending_path() {
    let e = Error::PathTraversal("../../etc/passwd".into());
    assert!(e.to_string().contains("../../etc/passwd"));
}

#[test]
fn invalid_index_display_contains_index_and_number() {
    let e = Error::InvalidIndex(7);
    let msg = e.to_string();
    assert!(msg.contains("7"), "expected '7' in: {msg}");
    assert!(msg.contains("index"), "expected 'index' in: {msg}");
}

#[test]
fn copies_of_errors_say_the_same() {
    for e in [
        Error::UnknownFormat,
        Error::Encrypted,
        Error::WrongPassword,
        Error::MissingVolume(String::from("a.r01")),
        Error::InvalidIndex(12),
        Error::Corrupt(String::from("c")),
    ] {
        assert_eq!(e.copy().to_string(), e.to_string());
    }
}

#[test]
fn a_time_of_day_out_of_range_is_no_time() {
    assert_eq!(civil_to_systime(2020, 6, 15, 99, 0, 0), None);
    assert_eq!(civil_to_systime(2020, 6, 15, 24, 0, 0), None);
    assert_eq!(civil_to_systime(2020, 6, 15, 0, 60, 0), None);
    assert_eq!(civil_to_systime(2020, 6, 15, 0, 0, 61), None);
    assert_eq!(civil_to_systime(1970, 1, 1, 23, 59, 60), Some(at(86_400)));
    let c = CivilTime { year: 2020, month: 6, day: 15, hour: 24, min: 0, sec: 0 };
    assert_eq!(local_civil(c), None);
}
