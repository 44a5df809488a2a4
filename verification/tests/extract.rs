//! What is extracted, where to, and what is reported of it.
use newtua_core::archive::{Entry, EntryKind, SinkStep};
use newtua_core::datetime::{Stamp, Timestamp};
use newtua_core::error::{Error, IoError, IoKind};
use newtua_core::extract::{
    appledouble, common_root, is_macos_metadata, mode_to_restore, plan_extraction, wrapper_name, Begin, End, ExtractOptions,
    ExtractReport, ExtractSink, Flow, Next, Piece, Task,
};

fn entry(path: &str, kind: EntryKind) -> Entry {
    Entry {
        path_raw: path.as_bytes().to_vec(),
        path: path.to_string(),
        kind,
        size: 3,
        mode: Some(0o100755),
        is_encrypted: false,
        modified: Some(Stamp::Instant(Timestamp { secs: 10, nanos: 0 })),
        is_resource_fork: false,
    }
}

fn file(path: &str) -> Entry {
    entry(path, EntryKind::File)
}

fn dir(path: &str) -> Entry {
    entry(path, EntryKind::Dir)
}

fn options() -> ExtractOptions {
    ExtractOptions {
        dest: "out".to_string(),
        wrapper_name: None,
        strict: false,
        preserve: true,
        selection: None,
        keep_macos_metadata: false,
    }
}

fn io(message: &str) -> Error {
    Error::Io(IoError { kind: IoKind::Other, message: message.to_string() })
}

#[test]
fn one_directory_at_the_top_is_the_common_root() {
    assert_eq!(common_root(&[file("a/x"), file("a/y/z")]), Some("a".to_string()));
    assert_eq!(common_root(&[dir("a"), file("a/x")]), Some("a".to_string()));
    assert_eq!(common_root(&[dir("a")]), Some("a".to_string()));
    assert_eq!(common_root(&[file("./a/x")]), Some("a".to_string()));
}

#[test]
fn several_tops_or_a_lone_file_have_no_common_root() {
    assert_eq!(common_root(&[file("a/x"), file("b/y")]), None);
    assert_eq!(common_root(&[file("a")]), None);
    assert_eq!(common_root(&[]), None);
    assert_eq!(common_root(&[file("../a/x")]), None);
}

#[test]
fn the_wrapper_is_named_after_the_archive() {
    assert_eq!(wrapper_name("dir/site.zip", true), Some("site".to_string()));
    assert_eq!(wrapper_name("dir/site.tar.gz", true), Some("site.tar".to_string()));
    assert_eq!(wrapper_name("dir/site.zip", false), None);
}

#[test]
fn macos_leftovers_are_known_by_their_names() {
    assert!(is_macos_metadata("a/._x"));
    assert!(is_macos_metadata(".DS_Store"));
    assert!(is_macos_metadata("a/.DS_Store"));
    assert!(is_macos_metadata("__MACOSX/a/x"));
    assert!(!is_macos_metadata("a/x"));
    assert!(!is_macos_metadata("a/MACOSX"));
}

#[test]
fn a_plan_leaves_macos_leftovers_out_unless_asked() {
    let entries = vec![file("a/x"), file("__MACOSX/a/._x"), file("a/y")];
    let plan = plan_extraction(&entries, &options());
    assert_eq!(plan.indices, vec![0, 2]);
    assert_eq!(plan.dest, "out");
    assert!(!plan.wrapped);
    let mut all = options();
    all.keep_macos_metadata = true;
    assert_eq!(plan_extraction(&entries, &all).indices, vec![0, 1, 2]);
}

#[test]
fn a_plan_keeps_to_the_selection_and_goes_forward() {
    let entries = vec![file("a"), file("b"), file("c")];
    let mut some = options();
    some.selection = Some(vec![2, 0, 9]);
    assert_eq!(plan_extraction(&entries, &some).indices, vec![0, 2]);
}

#[test]
fn a_plan_wraps_what_has_no_common_root() {
    let mut wrapping = options();
    wrapping.wrapper_name = Some("site".to_string());
    let loose = plan_extraction(&vec![file("a"), file("b")], &wrapping);
    assert!(loose.wrapped);
    assert_eq!(loose.dest, "out/site");
    let rooted = plan_extraction(&vec![file("a/x"), file("a/y")], &wrapping);
    assert!(!rooted.wrapped);
    assert_eq!(rooted.dest, "out");
    let hidden = plan_extraction(&vec![file("a/x"), file("__MACOSX/a/._x")], &wrapping);
    assert!(!hidden.wrapped, "what is left out does not count");
}

#[test]
fn an_appledouble_holds_the_fork_behind_its_header() {
    let made = appledouble(b"fork").unwrap();
    assert_eq!(&made[..8], &[0, 5, 0x16, 7, 0, 2, 0, 0]);
    assert_eq!(&made[8..24], &[0u8; 16]);
    assert_eq!(&made[24..38], &[0, 1, 0, 0, 0, 2, 0, 0, 0, 38, 0, 0, 0, 4]);
    assert_eq!(&made[38..], b"fork");
}

#[test]
fn only_permission_bits_are_restored() {
    assert_eq!(mode_to_restore(Some(0o100755)), Some(0o755));
    assert_eq!(mode_to_restore(Some(0o104755)), Some(0o4755));
    assert_eq!(mode_to_restore(None), None);
}

#[test]
fn a_report_begins_empty() {
    let report = ExtractReport::default();
    assert_eq!((report.extracted, report.failed.len(), report.wrapped, report.aborted), (0, 0, false, false));
}

#[test]
fn a_file_goes_from_begin_to_restore() {
    let entries = vec![file("a.txt")];
    let mut sink = ExtractSink::new(&options(), false, false);
    assert!(matches!(sink.begin(&entries, 0, Flow::Continue), Ok(Begin::Prepare(Task::File))));
    assert!(matches!(sink.prepared(&entries, 0, "out/a.txt".into(), Ok(())), Ok(SinkStep::Body)));
    assert!(matches!(sink.write_body(b"abc"), Ok(Piece::ToFile)));
    assert!(sink.wrote(Flow::Continue).is_ok());
    match sink.end(&entries, 0, &Ok(())) {
        Ok(End::Restore { path, mode, modified }) => {
            assert_eq!(path, "out/a.txt");
            assert_eq!(mode, Some(0o755));
            assert_eq!(modified, entries[0].modified);
        }
        _ => panic!("the file is whole"),
    }
    assert!(matches!(sink.finished(&entries, 0, Ok(())), Ok(true)));
    assert_eq!(sink.report.extracted, 1);
}

#[test]
fn directories_and_links_have_no_body() {
    let entries = vec![dir("d"), entry("l", EntryKind::Symlink { target: "d".into() })];
    let mut sink = ExtractSink::new(&options(), false, false);
    assert!(matches!(sink.begin(&entries, 0, Flow::Continue), Ok(Begin::Prepare(Task::Dir))));
    assert!(matches!(sink.prepared(&entries, 0, "out/d".into(), Ok(())), Ok(SinkStep::Skip)));
    assert!(matches!(sink.begin(&entries, 1, Flow::Continue), Ok(Begin::Prepare(Task::Link))));
    assert!(matches!(sink.prepared(&entries, 1, "out/l".into(), Ok(())), Ok(SinkStep::Skip)));
    assert_eq!(sink.report.extracted, 2);
    assert_eq!(sink.dir_mtimes, vec![("out/d".to_string(), entries[0].modified)]);
}

#[test]
fn a_failure_is_put_down_or_ends_a_strict_extraction() {
    let entries = vec![file("../evil"), file("b")];
    let mut lenient = ExtractSink::new(&options(), false, false);
    let failed = lenient.prepared(&entries, 0, String::new(), Err(Error::Corrupt("no".into())));
    assert!(matches!(failed, Ok(SinkStep::Skip)));
    assert_eq!(lenient.report.failed.len(), 1);
    assert_eq!(lenient.report.failed[0].0, "../evil");
    assert_eq!(lenient.report.extracted, 0);

    let mut stern = options();
    stern.strict = true;
    let mut strict = ExtractSink::new(&stern, false, false);
    let failed = strict.prepared(&entries, 0, String::new(), Err(Error::Corrupt("no".into())));
    assert!(matches!(failed, Err(Error::Corrupt(m)) if m == "no"));
    assert!(strict.report.failed.is_empty());
}

#[test]
fn of_a_broken_body_nothing_stays() {
    let entries = vec![file("a.txt")];
    let mut sink = ExtractSink::new(&options(), false, false);
    sink.prepared(&entries, 0, "out/a.txt".into(), Ok(())).unwrap();
    match sink.end(&entries, 0, &Err(Error::Corrupt("crc".into()))) {
        Ok(End::Discard { remove, next: Next::GoesOn }) => assert_eq!(remove, Some("out/a.txt".to_string())),
        _ => panic!("the body broke off"),
    }
    assert_eq!(sink.report.failed.len(), 1);

    let mut stern = options();
    stern.strict = true;
    let mut strict = ExtractSink::new(&stern, false, false);
    strict.prepared(&entries, 0, "out/a.txt".into(), Ok(())).unwrap();
    assert!(matches!(
        strict.end(&entries, 0, &Err(Error::Corrupt("crc".into()))),
        Ok(End::Discard { remove: Some(_), next: Next::Fails })
    ));
}

#[test]
fn calling_off_is_reported_and_is_no_failure() {
    let entries = vec![file("a.txt")];
    let mut sink = ExtractSink::new(&options(), false, false);
    assert!(matches!(sink.begin(&entries, 0, Flow::Abort), Ok(Begin::Stop)));
    assert!(sink.report.aborted);

    let mut later = ExtractSink::new(&options(), false, false);
    later.prepared(&entries, 0, "out/a.txt".into(), Ok(())).unwrap();
    assert!(matches!(later.wrote(Flow::Abort), Err(Error::Io(e)) if e.message == "extraction aborted"));
    assert!(matches!(
        later.end(&entries, 0, &Err(io("extraction aborted"))),
        Ok(End::Discard { remove: Some(_), next: Next::CalledOff })
    ));
    assert!(later.report.aborted);
    assert!(later.report.failed.is_empty());
}

#[test]
fn a_fork_becomes_a_sidecar_where_forks_are_not_native() {
    let mut fork = file("d/icon");
    fork.is_resource_fork = true;
    let entries = vec![fork];
    let mut sink = ExtractSink::new(&options(), false, false);
    assert!(matches!(sink.begin(&entries, 0, Flow::Continue), Ok(Begin::Prepare(Task::Fork))));
    sink.prepared(&entries, 0, "out/d/icon".into(), Ok(())).unwrap();
    assert!(matches!(sink.write_body(b"re"), Ok(Piece::Kept)));
    assert!(matches!(sink.write_body(b"st"), Ok(Piece::Kept)));
    match sink.end(&entries, 0, &Ok(())) {
        Ok(End::Sidecar { path, name, bytes, .. }) => {
            assert_eq!(path, "out/d/icon");
            assert_eq!(name, "._icon");
            assert_eq!(bytes, appledouble(b"rest").unwrap());
        }
        _ => panic!("the fork is whole"),
    }

    let mut native = ExtractSink::new(&options(), true, false);
    native.prepared(&entries, 0, "out/d/icon".into(), Ok(())).unwrap();
    assert!(matches!(native.write_body(b"rest"), Ok(Piece::ToFile)));
    match native.end(&entries, 0, &Ok(())) {
        Ok(End::Restore { mode, .. }) => assert_eq!(mode, None, "a fork has no mode of its own"),
        _ => panic!("the fork is whole"),
    }
}

#[test]
fn calls_out_of_step_are_refused() {
    let entries = vec![file("a.txt")];
    let mut sink = ExtractSink::new(&options(), false, false);
    assert!(matches!(sink.begin(&entries, 1, Flow::Continue), Err(Error::InvalidIndex(1))));
    assert!(matches!(sink.write_body(b"x"), Err(Error::Corrupt(m)) if m == "extract: entry body arrived without begin"));
    assert!(matches!(sink.end(&entries, 0, &Ok(())), Err(Error::Corrupt(m)) if m == "extract: entry end without begin"));
}
