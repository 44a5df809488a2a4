//! RAR archives.
use newtua_core::archive::{Confidence, EntryKind, EntrySink, FormatHandler, FormatId, OpenOptions, SinkStep, Source};
use newtua_core::datetime::{Stamp, Timestamp};
use newtua_core::error::{Error, IoError, IoKind};
use newtua_core::format::rar::{
    from_family, judge_trial, list, map_err, modified, not_reached, sibling_volumes, unix_mode, volume_scheme, Failure,
    Family, Member, RarArchive, RarHandler, Scheme, Volume, Walker,
};

#[test]
fn probe_detects_rar_magic() {
    assert_eq!(
        RarHandler.probe(b"Rar!\x1a\x07\x01\x00", None),
        Confidence::magic()
    );
}

#[test]
fn probe_detects_rar4_magic() {
    assert_eq!(
        RarHandler.probe(b"Rar!\x1a\x07\x00", None),
        Confidence::magic()
    );
}

#[test]
fn rar_probe_rejects_other() {
    assert_eq!(RarHandler.probe(b"PK\x03\x04", None), Confidence::none());
}

#[test]
fn rar_handler_id_is_rar() {
    assert_eq!(RarHandler.id(), FormatId::Rar);
}

#[test]
fn part_volumes_are_found_until_the_first_gap() {
    let present: Vec<String> = ["a.part1.rar", "a.part2.rar", "a.part3.rar", "a.part5.rar"].iter().map(|n| n.to_string()).collect();
    let found = sibling_volumes("a.part1.rar", &present);
    assert_eq!(
        found,
        vec![
            "a.part2.rar",
            "a.part3.rar"
        ],
        "пятый том без четвёртого — не продолжение набора"
    );
}

#[test]
fn part_volume_numbers_may_outgrow_their_width() {
    let present: Vec<String> = ["a.part08.rar", "a.part09.rar", "a.part10.rar"].iter().map(|n| n.to_string()).collect();
    let found = sibling_volumes("a.part08.rar", &present);
    assert_eq!(
        found,
        vec![
            "a.part09.rar",
            "a.part10.rar"
        ]
    );
}

#[test]
fn old_scheme_volumes_follow_the_first_one() {
    let present: Vec<String> = ["a.rar", "a.r00", "a.r01"].iter().map(|n| n.to_string()).collect();
    let found = sibling_volumes("a.rar", &present);
    assert_eq!(
        found,
        vec!["a.r00", "a.r01"]
    );
}

#[test]
fn a_lone_archive_has_no_siblings() {
    let present = vec!["a.rar".to_string(), "b.r00".to_string()];
    assert!(sibling_volumes("a.rar", &present).is_empty());
}

#[derive(Default)]
struct Chunks {
    pieces: Vec<Vec<u8>>,
    ended: Vec<usize>,
}

impl EntrySink for Chunks {
    fn begin(&mut self, _idx: usize) -> Result<SinkStep, Error> {
        Ok(SinkStep::Body)
    }

    fn write_body(&mut self, buf: &[u8]) -> Result<(), Error> {
        self.pieces.push(buf.to_vec());
        Ok(())
    }

    fn end(&mut self, idx: usize, outcome: Result<(), Error>) -> Result<bool, Error> {
        outcome?;
        self.ended.push(idx);
        Ok(true)
    }
}

#[test]
fn body_reaches_the_sink_piece_by_piece() {
    let mut sink = Chunks::default();
    {
        let mut walker = Walker::new(vec![0], &mut sink);
        assert!(walker.open_body().unwrap());
        walker.write(b"first").unwrap();
        walker.write(b"second").unwrap();
        walker.finish().unwrap();
    }
    assert_eq!(
        sink.pieces,
        vec![b"first".to_vec(), b"second".to_vec()],
        "куски должны дойти как есть, а не склеенными"
    );
    assert_eq!(sink.ended, vec![0]);
}

#[test]
fn a_sink_refusal_survives_the_write() {
    struct Refuses;
    impl EntrySink for Refuses {
        fn begin(&mut self, _idx: usize) -> Result<SinkStep, Error> {
            Ok(SinkStep::Body)
        }
        fn write_body(&mut self, _buf: &[u8]) -> Result<(), Error> {
            Err(Error::Corrupt("некуда писать".into()))
        }
        fn end(&mut self, _idx: usize, outcome: Result<(), Error>) -> Result<bool, Error> {
            match outcome {
                Err(Error::Corrupt(why)) => {
                    assert_eq!(why, "некуда писать");
                    Ok(true)
                }
                other => panic!("исход приёмника подменён: {other:?}"),
            }
        }
    }

    let mut sink = Refuses;
    let mut walker = Walker::new(vec![0], &mut sink);
    assert!(walker.open_body().unwrap());
    assert!(walker.write(b"body").is_err());
    walker.finish().unwrap();
}

#[test]
fn unix_mode_ignores_windows_attributes() {
    assert_eq!(unix_mode(0o100755), Some(0o755));
    assert_eq!(unix_mode(0o040755), Some(0o755));
    assert_eq!(unix_mode(0x10), None, "FILE_ATTRIBUTE_DIRECTORY — не режим");
    assert_eq!(unix_mode(0x1), None, "FILE_ATTRIBUTE_READONLY — не режим");
}

fn member(name: &str) -> Member {
    Member {
        name: name.as_bytes().to_vec(),
        link: Vec::new(),
        is_split_before: false,
        is_split_after: false,
        is_directory: false,
        is_encrypted: false,
        unpacked_size: 7,
        file_attr: 0o100644,
        file_time: None,
        is_solid: Some(false),
    }
}

fn volume(family: Family, members: Vec<Member>) -> Volume {
    Volume { family, is_solid: false, members }
}

fn open_set(volumes: Vec<Volume>) -> Result<RarArchive, Error> {
    let src = Source::Seekable { inner: Vec::new(), path: Some("a.rar".to_string()) };
    RarHandler.open(&src, Ok(volumes), &OpenOptions::default())
}

#[test]
fn names_of_volumes_are_told_apart() {
    assert!(matches!(volume_scheme("a.part01.rar"), Some(Scheme::Parts { head, width: 2, start: 1, tail })
        if head == "a.part" && tail == ".rar"));
    assert!(matches!(volume_scheme("a.rar"), Some(Scheme::Old { .. })));
    assert!(volume_scheme("a.zip").is_none());
}

#[test]
fn a_member_that_goes_on_in_the_next_volume_is_listed_once() {
    let mut first = member("big.bin");
    first.is_split_after = true;
    let mut rest = member("big.bin");
    rest.is_split_before = true;
    let volumes = vec![
        volume(Family::Rar50Plus, vec![member("a.txt"), first]),
        volume(Family::Rar50Plus, vec![rest, member("z.txt")]),
    ];
    let toc = list(&volumes, None);
    let paths: Vec<&str> = toc.entries.iter().map(|e| e.path.as_str()).collect();
    assert_eq!(paths, vec!["a.txt", "big.bin", "z.txt"]);
    assert!(toc.any_split);
    assert!(toc.places[1].split);
    assert_eq!((toc.places[2].volume, toc.places[2].ordinal), (1, 1));
    let a = open_set(volumes).unwrap();
    assert!(a.one_pass);
    assert!(a.alone_readable(0));
    assert!(!a.alone_readable(1));
}

#[test]
fn redirections_directories_and_files_are_told_apart() {
    let mut link = member("to");
    link.link = b"a.txt".to_vec();
    link.is_directory = true;
    let mut dir = member("d");
    dir.is_directory = true;
    dir.file_attr = 0x10;
    let mut locked = member("secret");
    locked.is_encrypted = true;
    locked.file_time = Some(1_700_000_000);
    let toc = list(&vec![volume(Family::Rar50Plus, vec![link, dir, locked])], None);
    assert!(matches!(&toc.entries[0].kind, EntryKind::Symlink { target } if target == "a.txt"));
    assert!(matches!(toc.entries[1].kind, EntryKind::Dir));
    assert_eq!(toc.entries[1].mode, None);
    assert!(matches!(toc.entries[2].kind, EntryKind::File));
    assert!(toc.entries[2].is_encrypted);
    assert_eq!(toc.entries[2].mode, Some(0o644));
    assert_eq!(toc.entries[2].modified, Some(Stamp::Instant(Timestamp { secs: 1_700_000_000, nanos: 0 })));
}

#[test]
fn old_generations_tell_the_time_as_dos_does() {
    let told = modified(Family::Rar15To40, Some((0x5721 << 16) | 0x6000));
    assert!(matches!(told, Some(Stamp::WallClock(_))), "got {told:?}");
    assert_eq!(modified(Family::Rar15To40, None), None);
}

#[test]
fn volumes_of_two_generations_are_corrupt() {
    let mixed = vec![volume(Family::Rar50Plus, vec![]), volume(Family::Rar15To40, vec![])];
    assert!(matches!(from_family(&mixed), Err(Error::Corrupt(_))));
    assert!(matches!(open_set(mixed), Err(Error::Corrupt(_))));
    assert!(open_set(vec![volume(Family::Rar13, vec![])]).is_ok());
}

#[test]
fn a_set_must_come_from_a_file_and_have_headers() {
    let stream = Source::Stream { inner: Vec::new(), path: None };
    assert!(matches!(RarHandler.open(&stream, Ok(vec![]), &OpenOptions::default()), Err(Error::Unsupported { .. })));
    let file = Source::Seekable { inner: Vec::new(), path: Some("a.rar".to_string()) };
    assert!(matches!(
        RarHandler.open(&file, Err(Failure::NeedPassword), &OpenOptions::default()),
        Err(Error::Encrypted)
    ));
}

#[test]
fn failures_are_reported_by_their_cause() {
    assert!(matches!(map_err(Failure::NeedPassword), Error::Encrypted));
    assert!(matches!(map_err(Failure::WrongPasswordOrCorruptData), Error::WrongPassword));
    assert!(matches!(map_err(Failure::UnsupportedSignature), Error::UnknownFormat));
    assert!(matches!(map_err(Failure::Unsupported("v9".into())), Error::Unsupported { feature, .. } if feature == "v9"));
    let io = IoError { kind: IoKind::UnexpectedEof, message: "end".into() };
    assert!(matches!(map_err(Failure::Io(io)), Error::Io(e) if e.message == "end"));
    let broken = Failure::Within { text: "a.txt: bad".into(), source: Box::new(Failure::Other("bad".into())) };
    assert!(matches!(map_err(broken), Error::Corrupt(m) if m == "a.txt: bad"));
    let locked = Failure::Within { text: "a.txt: locked".into(), source: Box::new(Failure::NeedPassword) };
    assert!(matches!(map_err(locked), Error::Encrypted));
}

#[test]
fn a_cause_that_names_a_remedy_stays_what_it_is() {
    assert!(matches!(not_reached(Some(&Error::WrongPassword), 3), Error::WrongPassword));
    assert!(matches!(not_reached(Some(&Error::Encrypted), 3), Error::Encrypted));
    assert!(matches!(not_reached(None, 3), Error::Corrupt(m) if m.ends_with(" 3")));
    assert!(matches!(not_reached(Some(&Error::UnknownFormat), 3), Error::Corrupt(_)));
}

#[test]
fn a_trial_blames_the_password() {
    assert!(judge_trial(Ok(()), true).is_ok());
    assert!(matches!(judge_trial(Err(Error::Corrupt("x".into())), true), Err(Error::WrongPassword)));
    assert!(matches!(judge_trial(Err(Error::Corrupt("x".into())), false), Err(Error::Encrypted)));
    assert!(matches!(judge_trial(Err(Error::Encrypted), true), Err(Error::Encrypted)));
}

#[test]
fn indices_and_refusals_of_a_solid_set() {
    let mut solid = volume(Family::Rar50Plus, vec![member("a"), member("b")]);
    solid.is_solid = true;
    let a = open_set(vec![solid]).unwrap();
    assert_eq!(a.invalid_index(&[0, 1]), None);
    assert_eq!(a.invalid_index(&[0, 7, 9]), Some(7));
    assert!(matches!(a.refusal(1, None), Some(Error::Corrupt(_))));
    let free = open_set(vec![volume(Family::Rar50Plus, vec![member("a")])]).unwrap();
    assert!(free.refusal(0, None).is_none());
    let given = free.prepare(0, None, (b"body".to_vec(), None));
    assert_eq!(given.body, b"body".to_vec());
    let refused = free.prepare(0, Some(Error::Encrypted), (b"body".to_vec(), None));
    assert!(refused.body.is_empty());
    assert!(matches!(refused.failure, Some(Error::Encrypted)));
}

#[test]
fn a_member_that_leans_on_those_before_makes_the_set_solid() {
    let with = |family: Family, solid: Option<bool>, dir: bool| {
        let mut m = member("a");
        m.is_solid = solid;
        m.is_directory = dir;
        open_set(vec![volume(family, vec![m])]).unwrap().solid
    };
    assert!(with(Family::Rar50Plus, Some(true), false));
    assert!(with(Family::Rar50Plus, None, false), "what cannot be told counts as solid");
    assert!(!with(Family::Rar50Plus, None, true), "a directory has nothing to unpack");
    assert!(!with(Family::Rar50Plus, Some(false), false));
    assert!(with(Family::Rar15To40, Some(true), true));
    assert!(!with(Family::Rar13, Some(true), false));
}

#[test]
fn entries_that_are_not_wanted_are_passed_over() {
    let mut sink = Chunks::default();
    let mut walker = Walker::new(vec![1, 3], &mut sink);
    assert_eq!(walker.open_body(), Ok(false));
    assert_eq!(walker.open_body(), Ok(true));
    walker.write(b"one").unwrap();
    assert_eq!(walker.open_body(), Ok(false));
    assert_eq!(walker.open_body(), Ok(true));
    walker.write(b"three").unwrap();
    assert!(walker.open_body().is_err(), "nothing more is wanted");
    assert_eq!(walker.finish().unwrap(), 2);
    assert_eq!(sink.ended, vec![1, 3]);
    assert_eq!(sink.pieces, vec![b"one".to_vec(), b"three".to_vec()]);
}

#[derive(Default)]
struct Outcomes {
    ended: Vec<(usize, bool)>,
}

impl EntrySink for Outcomes {
    fn begin(&mut self, _idx: usize) -> Result<SinkStep, Error> {
        Ok(SinkStep::Body)
    }

    fn write_body(&mut self, _buf: &[u8]) -> Result<(), Error> {
        Ok(())
    }

    fn end(&mut self, idx: usize, outcome: Result<(), Error>) -> Result<bool, Error> {
        self.ended.push((idx, outcome.is_ok()));
        Ok(true)
    }
}

#[test]
fn a_break_inside_a_body_asks_for_another_pass() {
    let mut sink = Outcomes::default();
    let mut walker = Walker::new(vec![0, 1], &mut sink);
    assert_eq!(walker.open_body(), Ok(true));
    assert!(walker.after_pass(Some(Error::Corrupt("crc".into()))).unwrap());
    assert_eq!(walker.open_body(), Ok(false), "the first one is dealt with");
    assert_eq!(walker.open_body(), Ok(true));
    assert!(!walker.after_pass(None).unwrap());
    assert_eq!(walker.finish().unwrap(), 2);
    assert_eq!(sink.ended, vec![(0, false), (1, true)]);
}

#[test]
fn a_break_between_entries_asks_for_no_other_pass() {
    let mut sink = Outcomes::default();
    let mut walker = Walker::new(vec![2], &mut sink);
    assert_eq!(walker.open_body(), Ok(false));
    assert!(!walker.after_pass(Some(Error::Corrupt("header".into()))).unwrap());
    assert_eq!(walker.finish().unwrap(), 0);
    assert!(sink.ended.is_empty());
}
