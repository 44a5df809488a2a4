//! Formats of the floppy and bulletin-board years.
use newtua_core::archive::{ArchiveReader, BatchReader, Confidence, EntrySink, FormatHandler, FormatId, OpenOptions};
use newtua_core::archive::{SinkStep, Source};
use newtua_core::datetime::{CivilTime, Stamp, Timestamp};
use newtua_core::error::{Error, IoError, IoKind};
use newtua_core::format::legacy::alz::AlzHandler;
use newtua_core::format::legacy::amiga::{DmsHandler, LzxHandler, PowerPackerHandler};
use newtua_core::format::legacy::dos::{
    check_zoo_list, ArcHandler, ArjHandler, CrunchHandler, LbrHandler, SqueezeHandler, ZooHandler,
};
use newtua_core::format::legacy::mac::{
    payload_index, payload_is_a_nested_archive, unwrap_envelope, AppleSingleHandler, BinHexHandler, CompactProHandler,
    MacBinaryHandler, PackItHandler,
};
use newtua_core::format::legacy::nsis::NsisHandler;
use newtua_core::format::legacy::stuffit::{StuffIt5Handler, StuffItHandler, StuffItXHandler};
use newtua_core::format::legacy::{
    applesingle_date_to_systime, file_stem_bytes, mac_date_to_systime, metas_from, open_listed, unpack, Dating,
    EntryMeta, LegacyKind, LegacyReader, Row,
};

fn source(bytes: &[u8]) -> Source {
    Source::Seekable { inner: bytes.to_vec(), path: Some(String::from("/tmp/file.bin")) }
}

fn no_options() -> OpenOptions {
    OpenOptions::default()
}

fn with_password(p: &str) -> OpenOptions {
    OpenOptions { password: Some(String::from(p)), encoding_override: None }
}

fn crc32(bytes: &[u8]) -> u32 {
    let mut c = flate2::Crc::new();
    c.update(bytes);
    c.sum()
}

fn crc16_low(bytes: &[u8]) -> u16 {
    let mut crc = 0u16;
    for b in bytes {
        crc ^= u16::from(*b);
        for _ in 0..8 {
            crc = if crc % 2 == 1 { crc / 2 ^ 0xA001 } else { crc / 2 };
        }
    }
    crc
}

fn crc16_high(bytes: &[u8]) -> u16 {
    let mut crc = 0u16;
    for b in bytes {
        crc ^= u16::from(*b) << 8;
        for _ in 0..8 {
            crc = if crc >= 0x8000 { crc << 1 ^ 0x1021 } else { crc << 1 };
        }
    }
    crc
}

fn put(out: &mut Vec<u8>, parts: &[&[u8]]) {
    for p in parts {
        out.extend_from_slice(p);
    }
}

fn check(r: &LegacyReader, format: FormatId, names: &[&str], bodies: &[&[u8]]) {
    assert_eq!(r.format(), format);
    let found: Vec<&str> = r.entries().iter().map(|e| e.path.as_str()).collect();
    assert_eq!(found, names);
    for (i, body) in bodies.iter().enumerate() {
        assert_eq!(r.read_entry(i).unwrap(), *body);
    }
    assert!(matches!(r.read_entry(names.len()), Err(Error::InvalidIndex(_))));
    assert!(r.verify_password().is_ok());
}

fn probes<H: FormatHandler>(h: &H, bytes: &[u8], id: FormatId) {
    assert_eq!(h.id(), id);
    assert_eq!(h.probe(bytes, None), Confidence::magic());
    assert_eq!(h.probe(b"", None), Confidence::none());
    assert_eq!(h.probe(b"nothing of the kind, and long enough to look at", None), Confidence::none());
}

fn arj() -> Vec<u8> {
    let body: &[u8] = b"stored by arj";
    let mut main = vec![0u8; 28];
    main[0] = 28;
    main[3] = 2;
    main[6] = 2;
    put(&mut main, &[b"name\0\0"]);
    let mut local = vec![0u8; 28];
    local[0] = 28;
    local[3] = 2;
    local[4] = 0x10;
    local[12] = body.len() as u8;
    local[16] = body.len() as u8;
    local[20..24].copy_from_slice(&crc32(body).to_le_bytes());
    put(&mut local, &[b"dir/a.txt\0\0"]);
    let mut out = Vec::new();
    for (h, content) in [(main, &b""[..]), (local, body)] {
        let len = (h.len() as u16).to_le_bytes();
        put(&mut out, &[&[0x60, 0xEA], &len, &h, &crc32(&h).to_le_bytes(), &[0, 0], content]);
    }
    put(&mut out, &[&[0x60, 0xEA, 0, 0]]);
    out
}

#[test]
fn arj_member_is_listed_and_read() {
    let bytes = arj();
    probes(&ArjHandler, &bytes, FormatId::Arj);
    let r = ArjHandler.open(source(&bytes), &no_options()).unwrap();
    check(&r, FormatId::Arj, &["dir/a.txt"], &[b"stored by arj"]);
    assert!(r.entries()[0].modified.is_none());
}

#[test]
fn zoo_member_is_listed_and_read() {
    let body: &[u8] = b"stored by zoo";
    let mut record = vec![0u8; 51];
    record[..4].copy_from_slice(&[0xDC, 0xA7, 0xC4, 0xFD]);
    record[6] = 34 + 51;
    record[10] = 34 + 51 + 38;
    record[18..20].copy_from_slice(&crc16_low(body).to_le_bytes());
    record[20] = body.len() as u8;
    record[24] = body.len() as u8;
    record[38..43].copy_from_slice(b"b.txt");
    let mut last = vec![0u8; 38];
    last[..4].copy_from_slice(&[0xDC, 0xA7, 0xC4, 0xFD]);
    let mut bytes = vec![0u8; 34];
    bytes[20..24].copy_from_slice(&[0xDC, 0xA7, 0xC4, 0xFD]);
    bytes[24] = 34;
    put(&mut bytes, &[&record, &last, body]);
    probes(&ZooHandler, &bytes, FormatId::Zoo);
    assert!(check_zoo_list(&bytes));
    let r = ZooHandler.open(source(&bytes), &no_options()).unwrap();
    check(&r, FormatId::Zoo, &["b.txt"], &[body]);

    bytes[34 + 6] = 34;
    assert!(!check_zoo_list(&bytes), "the entry names itself as the next one");
    assert!(check_zoo_list(b"no archive at all"));
}

#[test]
fn lbr_member_is_listed_and_read() {
    let body: &[u8] = b"stored in a library";
    let mut dir = vec![0xFFu8; 128];
    dir[..32].copy_from_slice(&[0; 32]);
    dir[1..12].copy_from_slice(&[b' '; 11]);
    dir[14] = 1;
    dir[32..64].copy_from_slice(&[0; 32]);
    dir[33..44].copy_from_slice(b"HELLO   TXT");
    dir[44] = 1;
    dir[46] = 1;
    dir[48..50].copy_from_slice(&crc16_high(body).to_le_bytes());
    dir[58] = 128 - body.len() as u8;
    let sum = crc16_high(&dir);
    dir[16..18].copy_from_slice(&sum.to_le_bytes());
    put(&mut dir, &[body]);
    dir.resize(256, 0);
    probes(&LbrHandler, &dir, FormatId::Lbr);
    let r = LbrHandler.open(source(&dir), &no_options()).unwrap();
    check(&r, FormatId::Lbr, &["HELLO.TXT"], &[body]);
}

#[test]
fn crunched_file_is_unpacked() {
    let mut bytes = vec![0x76, 0xFE];
    put(&mut bytes, &[b"ab.txt\0", &[0x20, 0x20, 1, 0], &[0x20, 0x90, 0xA0, 0]]);
    probes(&CrunchHandler, &bytes, FormatId::Crunch);
    let r = CrunchHandler.open(source(&bytes), &no_options()).unwrap();
    check(&r, FormatId::Crunch, &["ab.txt"], &[b"AB"]);
}

#[test]
fn arc_member_is_listed_and_read() {
    let body: &[u8] = b"A";
    let mut bytes = vec![0x1A, 2];
    put(&mut bytes, &[b"a\0\0\0\0\0\0\0\0\0\0\0\0", &[1, 0, 0, 0], &[0; 4]]);
    put(&mut bytes, &[&crc16_low(body).to_le_bytes(), &[1, 0, 0, 0], body, &[0x1A, 0]]);
    assert_eq!(ArcHandler.id(), FormatId::Arc);
    assert_eq!(ArcHandler.probe(&bytes, Some("a.arc")), Confidence::magic());
    assert_eq!(ArcHandler.probe(&bytes, Some("a.txt")), Confidence::none());
    let r = ArcHandler.open(source(&bytes), &no_options()).unwrap();
    check(&r, FormatId::Arc, &["a"], &[body]);
}

#[test]
fn squeezed_file_is_unpacked() {
    let bytes = [0x76, 0xFF, 0x41, 0, 0x61, 0, 1, 0, 0xBE, 0xFF, 0xFF, 0xFE, 2];
    probes(&SqueezeHandler, &bytes, FormatId::Squeeze);
    let r = SqueezeHandler.open(source(&bytes), &no_options()).unwrap();
    check(&r, FormatId::Squeeze, &["a"], &[b"A"]);
}

fn binhex(name: &[u8], data: &[u8], fork: &[u8]) -> Vec<u8> {
    let letters = b"!\"#$%&'()*+,-012345689@ABCDEFGHIJKLMNPQRSTUVXYZ[`abcdefhijklmpqr";
    let mut head = vec![name.len() as u8];
    put(&mut head, &[name, b"\0TEXTttxt\0\0"]);
    put(&mut head, &[&(data.len() as u32).to_be_bytes(), &(fork.len() as u32).to_be_bytes()]);
    let mut stream = head.clone();
    put(&mut stream, &[&crc16_high(&head).to_be_bytes(), data, &crc16_high(data).to_be_bytes()]);
    put(&mut stream, &[fork, &crc16_high(fork).to_be_bytes()]);
    let mut out = b"(This file must be converted with BinHex 4.0)\r\n:".to_vec();
    let mut escaped = Vec::new();
    for b in stream {
        escaped.push(b);
        if b == 0x90 {
            escaped.push(0);
        }
    }
    for group in escaped.chunks(3) {
        let mut word = 0u32;
        for i in 0..3 {
            word = word * 256 + u32::from(group.get(i).copied().unwrap_or(0));
        }
        for i in 0..group.len() + 1 {
            out.push(letters[(word >> (18 - 6 * i)) as usize % 64]);
        }
    }
    out.push(b':');
    out
}

#[test]
fn binhex_forks_are_listed_and_read() {
    let bytes = binhex(b"note", b"data of the note", b"fork");
    probes(&BinHexHandler, &bytes, FormatId::BinHex);
    let e = BinHexHandler.open(source(&bytes), &no_options()).unwrap();
    assert!(e.payload.is_none());
    assert_eq!(e.reader.entries().len(), 2);
    for i in 0..2 {
        let entry = &e.reader.entries()[i];
        assert_eq!(entry.path, "note");
        let body = e.reader.read_entry(i).unwrap();
        assert_eq!(body, if entry.is_resource_fork { &b"fork"[..] } else { &b"data of the note"[..] });
    }
}

#[test]
fn archive_in_an_envelope_is_handed_out() {
    let bytes = binhex(b"things.SIT", b"not looked at here", b"");
    let e = BinHexHandler.open(source(&bytes), &no_options()).unwrap();
    assert_eq!(e.payload.as_deref(), Some(&b"not looked at here"[..]));
}

fn macbinary(name: &[u8], data: &[u8], fork: &[u8]) -> Vec<u8> {
    let mut h = vec![0u8; 128];
    h[1] = name.len() as u8;
    h[2..2 + name.len()].copy_from_slice(name);
    h[65..73].copy_from_slice(b"TEXTttxt");
    h[83..87].copy_from_slice(&(data.len() as u32).to_be_bytes());
    h[87..91].copy_from_slice(&(fork.len() as u32).to_be_bytes());
    h[91..95].copy_from_slice(&1u32.to_be_bytes());
    h[95..99].copy_from_slice(&(2_082_844_800u32 + 86_400).to_be_bytes());
    h[102..106].copy_from_slice(b"mBIN");
    let sum = crc16_high(&h[..124]);
    h[124..126].copy_from_slice(&sum.to_be_bytes());
    for part in [data, fork] {
        put(&mut h, &[part]);
        h.resize(h.len().div_ceil(128) * 128, 0);
    }
    h
}

#[test]
fn macbinary_forks_are_listed_and_read() {
    let bytes = macbinary(b"picture", b"the data fork", b"the resource fork");
    probes(&MacBinaryHandler, &bytes, FormatId::MacBinary);
    let e = MacBinaryHandler.open(source(&bytes), &no_options()).unwrap();
    assert!(e.payload.is_none());
    let forks: Vec<bool> = e.reader.entries().iter().map(|x| x.is_resource_fork).collect();
    assert_eq!(forks.len(), 2);
    assert_ne!(forks[0], forks[1]);
    let data = forks.iter().position(|f| !*f).unwrap();
    assert_eq!(e.reader.read_entry(data).unwrap(), b"the data fork");
    assert_eq!(e.reader.read_entry(1 - data).unwrap(), b"the resource fork");
    let wall = CivilTime { year: 1970, month: 1, day: 2, hour: 0, min: 0, sec: 0 };
    assert_eq!(e.reader.entries()[data].modified, Some(Stamp::WallClock(wall)));
    let e = MacBinaryHandler.open(source(&macbinary(b"x.cpt", b"inner", b"")), &no_options()).unwrap();
    assert_eq!(e.payload.as_deref(), Some(&b"inner"[..]));
}

#[test]
fn applesingle_forks_are_listed_and_read() {
    let sections: [(u32, &[u8]); 4] = [(1, b"data fork"), (2, b"resource fork"), (3, b"named"), (8, &[0; 16])];
    let mut bytes = vec![0u8; 26 + 12 * 4];
    bytes[..4].copy_from_slice(&0x0005_1600u32.to_be_bytes());
    bytes[4..8].copy_from_slice(&0x0002_0000u32.to_be_bytes());
    bytes[25] = 4;
    for (i, (id, body)) in sections.iter().enumerate() {
        let at = bytes.len() as u32;
        let d = 26 + 12 * i;
        bytes[d..d + 4].copy_from_slice(&id.to_be_bytes());
        bytes[d + 4..d + 8].copy_from_slice(&at.to_be_bytes());
        bytes[d + 8..d + 12].copy_from_slice(&(body.len() as u32).to_be_bytes());
        put(&mut bytes, &[body]);
    }
    probes(&AppleSingleHandler, &bytes, FormatId::AppleSingle);
    let r = AppleSingleHandler.open(source(&bytes), &no_options()).unwrap();
    assert_eq!(r.entries().len(), 2);
    let data = r.entries().iter().position(|e| !e.is_resource_fork).unwrap();
    assert_eq!(r.entries()[data].path, "named");
    assert_eq!(r.read_entry(data).unwrap(), b"data fork");
    assert_eq!(r.read_entry(1 - data).unwrap(), b"resource fork");
    let at = Timestamp { secs: 946_684_800, nanos: 0 };
    assert_eq!(r.entries()[data].modified, Some(Stamp::Instant(at)));
}

#[test]
fn compactpro_file_is_listed_and_read() {
    let body: &[u8] = b"kept as it is";
    let mut meta = vec![0, 1, 0, 3];
    put(&mut meta, &[b"one\0", &8u32.to_be_bytes(), b"TEXTttxt", &[0; 8], &[0; 2]]);
    put(&mut meta, &[&(!crc32(body)).to_be_bytes(), &[0; 2], &[0; 4]]);
    put(&mut meta, &[&(body.len() as u32).to_be_bytes(), &[0; 4], &(body.len() as u32).to_be_bytes()]);
    let mut bytes = vec![1, 0, 0, 0];
    put(&mut bytes, &[&(8 + body.len() as u32).to_be_bytes(), body, &(!crc32(&meta)).to_be_bytes(), &meta]);
    probes(&CompactProHandler, &bytes, FormatId::CompactPro);
    let r = CompactProHandler.open(source(&bytes), &no_options()).unwrap();
    check(&r, FormatId::CompactPro, &["one"], &[body]);
}

#[test]
fn packit_file_is_listed_and_read() {
    let data: &[u8] = b"packed plainly";
    let mut bytes = b"PMag".to_vec();
    let mut h = vec![0u8; 94];
    h[0] = 3;
    h[1..4].copy_from_slice(b"pit");
    h[64..72].copy_from_slice(b"TEXTttxt");
    h[79] = data.len() as u8;
    let sum = crc16_high(&h[..92]);
    h[92..94].copy_from_slice(&sum.to_be_bytes());
    put(&mut bytes, &[&h, data, &crc16_high(data).to_be_bytes(), b"PEnd"]);
    probes(&PackItHandler, &bytes, FormatId::PackIt);
    let r = PackItHandler.open(source(&bytes), &no_options()).unwrap();
    let i = r.entries().iter().position(|e| !e.is_resource_fork).unwrap();
    assert_eq!(r.format(), FormatId::PackIt);
    assert_eq!(r.entries()[i].path, "pit");
    assert_eq!(r.read_entry(i).unwrap(), data);
}

#[test]
fn stuffit_file_is_listed_and_read() {
    let body: &[u8] = b"stuffed plainly";
    let mut h = vec![0u8; 112];
    h[2] = 4;
    h[3..7].copy_from_slice(b"file");
    h[66..74].copy_from_slice(b"TEXTttxt");
    h[91] = body.len() as u8;
    h[99] = body.len() as u8;
    h[102..104].copy_from_slice(&crc16_low(body).to_be_bytes());
    let sum = crc16_low(&h[..110]);
    h[110..112].copy_from_slice(&sum.to_be_bytes());
    let mut bytes = b"SIT!\0\0\0\0\0\0rLau\0\0\0\0\0\0\0\0".to_vec();
    put(&mut bytes, &[&h, body]);
    let total = (bytes.len() as u32).to_be_bytes();
    bytes[6..10].copy_from_slice(&total);
    probes(&StuffItHandler, &bytes, FormatId::StuffIt);
    let r = StuffItHandler.open(source(&bytes), &no_options()).unwrap();
    check(&r, FormatId::StuffIt, &["file"], &[body]);
}

#[test]
fn stuffit5_file_is_listed_and_read() {
    let body: &[u8] = b"stuffed by version five";
    let mut bytes = b"StuffIt (c)1997-2000 Aladdin Systems, Inc., http://www.aladdinsys.com/StuffIt/\r\n".to_vec();
    bytes.resize(100, 0);
    bytes[82] = 5;
    bytes[93] = 1;
    bytes[97] = 100;
    let mut h = vec![0u8; 48];
    h[..4].copy_from_slice(&[0xA5; 4]);
    h[4] = 1;
    h[7] = 52;
    h[31] = 4;
    h[37] = body.len() as u8;
    h[41] = body.len() as u8;
    h[42..44].copy_from_slice(&crc16_low(body).to_be_bytes());
    put(&mut bytes, &[&h, b"five", &[0; 4], b"TEXTttxt", &[0; 24], body]);
    let total = (bytes.len() as u32).to_be_bytes();
    bytes[84..88].copy_from_slice(&total);
    probes(&StuffIt5Handler, &bytes, FormatId::StuffIt5);
    let r = StuffIt5Handler.open(source(&bytes), &no_options()).unwrap();
    check(&r, FormatId::StuffIt5, &["five"], &[body]);
}

struct Bits {
    out: Vec<u8>,
    used: u32,
}

impl Bits {
    fn bit(&mut self, b: u64) {
        if self.used == 0 {
            self.out.push(0);
        }
        if b == 1 {
            *self.out.last_mut().unwrap() |= 1 << self.used;
        }
        self.used = (self.used + 1) % 8;
    }

    fn number(&mut self, n: u64) {
        let v = n + 1;
        for _ in 1..v.count_ones() {
            self.bit(1);
        }
        self.bit(0);
        for i in 0..64 - v.leading_zeros() {
            self.bit(v >> i & 1);
        }
    }

    fn bytes(&mut self, b: &[u8]) {
        self.used = 0;
        self.out.extend_from_slice(b);
    }

    fn head(&mut self, kind: u64, attributes: &[(u64, u64)]) {
        self.bit(0);
        self.number(kind);
        for (k, v) in attributes {
            self.number(*k);
            self.number(*v);
        }
        self.number(0);
        self.number(0);
    }

    fn area(&mut self, payload: &[u8]) {
        self.used = 0;
        self.number(payload.len() as u64);
        self.bytes(payload);
        self.number(0);
        self.used = 0;
        self.number(0);
        self.used = 0;
    }
}

#[test]
fn stuffitx_file_is_listed_and_read() {
    let body: &[u8] = b"stuffed once more";
    let mut names = Bits { out: Vec::new(), used: 0 };
    names.number(1);
    names.number(5);
    names.bytes(b"x.txt");
    names.number(0);
    let mut w = Bits { out: b"StuffIt!".to_vec(), used: 0 };
    w.head(2, &[(1, 1)]);
    w.used = 0;
    w.head(3, &[(2, 1), (3, 1), (4, 0), (5, body.len() as u64)]);
    w.number(0);
    w.used = 0;
    w.head(5, &[(5, names.out.len() as u64)]);
    w.area(&names.out);
    w.head(1, &[(1, 1), (5, body.len() as u64)]);
    w.area(body);
    w.head(0, &[]);
    probes(&StuffItXHandler, &w.out, FormatId::StuffItX);
    let r = StuffItXHandler.open(source(&w.out), &no_options()).unwrap();
    check(&r, FormatId::StuffItX, &["x.txt"], &[body]);
}

fn alz(flags: u8, packed: &[u8], body: &[u8]) -> Vec<u8> {
    let mut out = b"ALZ\x01\0\0\0\0BLZ\x01\x05\0\0".to_vec();
    let date = 0x226C_59BAu32;
    put(&mut out, &[&date.to_le_bytes(), &[flags, 0, 0, 0], &crc32(body).to_le_bytes()]);
    put(&mut out, &[&(packed.len() as u32).to_le_bytes(), &(body.len() as u32).to_le_bytes(), b"a.txt"]);
    put(&mut out, &[packed, b"CLZ\x01"]);
    out
}

#[test]
fn alz_member_is_listed_and_read() {
    let bytes = alz(0x40, b"egg", b"egg");
    probes(&AlzHandler, &bytes, FormatId::Alz);
    let r = AlzHandler.open(source(&bytes), &no_options()).unwrap();
    check(&r, FormatId::Alz, &["a.txt"], &[b"egg"]);
    assert_eq!(r.entries()[0].size, 3);
}

#[test]
fn alz_password_is_checked() {
    let mut out = b"ALZ\x01\0\0\0\0BLZ\x01\x05\0\0\0\0\0\0".to_vec();
    put(&mut out, &[&[0x41, 0, 0, 0], &crc32(b"egg").to_le_bytes()]);
    put(&mut out, &[&15u32.to_le_bytes(), &3u32.to_le_bytes(), b"a.txt", b"0123456789ab", b"egg", b"CLZ\x01"]);
    let r = AlzHandler.open(source(&out), &no_options()).unwrap();
    assert!(r.entries()[0].is_encrypted);
    assert!(matches!(r.verify_password(), Err(Error::Encrypted)));
    assert!(matches!(r.read_entry(0), Err(Error::Io(_))));
    let r = AlzHandler.open(source(&out), &with_password("wrong")).unwrap();
    assert!(matches!(r.verify_password(), Err(Error::WrongPassword)));
    assert!(r.read_entry(0).is_err());
}

#[test]
fn nsis_installer_is_listed_and_read() {
    let body: &[u8] = b"installed bytes";
    let squash = |b: &[u8]| {
        let mut e = flate2::write::DeflateEncoder::new(Vec::new(), flate2::Compression::best());
        std::io::Write::write_all(&mut e, b).unwrap();
        e.finish().unwrap()
    };
    let mut ops = Vec::new();
    for word in [20u32, 0, 0, 0, u32::MAX, u32::MAX, 0] {
        put(&mut ops, &[&word.to_le_bytes()]);
    }
    let mut header = vec![0u8; 44];
    put(&mut header, &[&ops, b"a.txt\0", &[0; 32]]);
    for (at, v) in [(20, 44u32), (24, 1), (28, 72), (36, 78)] {
        header[at..at + 4].copy_from_slice(&v.to_le_bytes());
    }
    let packed = squash(&header);
    let stored = squash(body);
    let mut region = Vec::new();
    for part in [&packed, &stored] {
        put(&mut region, &[&(part.len() as u32 | 0x8000_0000).to_le_bytes(), part]);
    }
    let mut file = vec![0u8; 4];
    put(&mut file, &[&[0xEF, 0xBE, 0xAD, 0xDE], b"NullsoftInst", &(header.len() as u32).to_le_bytes()]);
    put(&mut file, &[&(region.len() as u32 + 32).to_le_bytes(), &region]);
    assert_eq!(NsisHandler.id(), FormatId::Nsis);
    assert_eq!(NsisHandler.probe(&file, None), Confidence::none());
    let r = NsisHandler::open_bytes(file.clone(), &no_options()).unwrap();
    check(&r, FormatId::Nsis, &["a.txt"], &[body]);
    assert!(NsisHandler.open(source(&file), &no_options()).is_ok());
    assert!(NsisHandler.open(source(b"no installer"), &no_options()).is_err());
}

#[test]
fn powerpacked_file_is_unpacked() {
    let bytes = [0x50, 0x50, 0x32, 0x30, 9, 10, 12, 13, 0, 0x1C, 0x10, 0, 0, 6, 0];
    probes(&PowerPackerHandler, &bytes, FormatId::PowerPacker);
    let r = PowerPackerHandler.open(source(&bytes), &no_options()).unwrap();
    check(&r, FormatId::PowerPacker, &["file"], &[b"AAAAAA"]);
    assert_eq!(r.entries()[0].size, 6);
    assert!(matches!(PowerPackerHandler.open(source(b"PP20"), &no_options()), Err(Error::Corrupt(_))));
}

#[test]
fn amiga_lzx_members_are_listed_and_read() {
    let files: [(&[u8], &[u8]); 2] = [(b"one.txt", b"first of two"), (b"two.txt", b"second")];
    let mut bytes = b"LZX\0\0\0\0\0\0\0".to_vec();
    for (i, (name, body)) in files.iter().enumerate() {
        let packed = if i == 1 { 18u32 } else { 0 };
        put(&mut bytes, &[&[0, 0], &(body.len() as u32).to_le_bytes(), &packed.to_le_bytes(), &[0; 12]]);
        put(&mut bytes, &[&crc32(body).to_le_bytes(), &[0; 4], &[name.len() as u8], name]);
    }
    put(&mut bytes, &[b"first of twosecond"]);
    probes(&LzxHandler, &bytes, FormatId::Lzx);
    let r = LzxHandler.open(source(&bytes), &no_options()).unwrap();
    check(&r, FormatId::Lzx, &["one.txt", "two.txt"], &[b"first of two", b"second"]);
}

fn dms(kind: u16, unpacked: u32, tracks: &[(u16, &[u8])]) -> Vec<u8> {
    let mut out = vec![0u8; 56];
    out[..4].copy_from_slice(b"DMS!");
    out[24..28].copy_from_slice(&unpacked.to_be_bytes());
    out[50..52].copy_from_slice(&kind.to_be_bytes());
    let sum = crc16_low(&out[4..54]);
    out[54..56].copy_from_slice(&sum.to_be_bytes());
    for (number, raw) in tracks {
        let len = (raw.len() as u16).to_be_bytes();
        let mut t = vec![0x54, 0x52];
        let total = raw.iter().fold(0u16, |a, b| a.wrapping_add(u16::from(*b)));
        put(&mut t, &[&number.to_be_bytes(), &[0, 0], &len, &len, &len, &[0, 0], &total.to_be_bytes(), &[0, 0]]);
        let sum = crc16_low(&t);
        put(&mut t, &[&sum.to_be_bytes()]);
        put(&mut out, &[&t, raw]);
    }
    out
}

#[test]
fn dms_disk_is_one_image() {
    let tracks: Vec<Vec<u8>> = (0..3u8).map(|n| vec![n + 1; 11 * 1024]).collect();
    let list: Vec<(u16, &[u8])> = tracks.iter().enumerate().map(|(i, t)| (i as u16, &t[..])).collect();
    let bytes = dms(0, 0, &list);
    probes(&DmsHandler, &bytes, FormatId::Dms);
    let r = DmsHandler.open(source(&bytes), &no_options()).unwrap();
    check(&r, FormatId::Dms, &["file.adf"], &[&tracks.concat()]);
}

#[test]
fn dms_files_are_listed_and_read() {
    let bytes = dms(7, 5, &[(0x3E7, b"README"), (0x3E8, b"hello")]);
    let r = DmsHandler.open(source(&bytes), &no_options()).unwrap();
    check(&r, FormatId::Dms, &["README"], &[b"hello"]);
}

#[test]
fn files_that_are_no_archives_are_corrupt() {
    let junk: &[u8] = b"this is none of the formats that are asked for it";
    assert!(matches!(ArjHandler.open(source(junk), &no_options()), Err(Error::Corrupt(_))));
    assert!(matches!(ZooHandler.open(source(junk), &no_options()), Err(Error::Corrupt(_))));
    assert!(matches!(StuffItHandler.open(source(junk), &no_options()), Err(Error::Corrupt(_))));
    assert!(matches!(BinHexHandler.open(source(junk), &no_options()), Err(Error::Corrupt(_))));
    assert!(matches!(DmsHandler.open(source(junk), &no_options()), Err(Error::Corrupt(_))));
}

#[test]
fn damaged_body_is_corrupt() {
    let mut bytes = arj();
    let n = bytes.len();
    bytes[n - 5] ^= 1;
    let r = ArjHandler.open(source(&bytes), &no_options()).unwrap();
    assert!(matches!(r.read_entry(0), Err(Error::Corrupt(_))));
}

#[test]
fn dates_count_from_their_epochs() {
    assert_eq!(mac_date_to_systime(0), None);
    assert_eq!(mac_date_to_systime(2_082_844_799), None);
    let wall = CivilTime { year: 1970, month: 1, day: 1, hour: 0, min: 0, sec: 0 };
    assert_eq!(mac_date_to_systime(2_082_844_800), Some(Stamp::WallClock(wall)));
    let at = |secs: i128| Some(Stamp::Instant(Timestamp { secs, nanos: 0 }));
    assert_eq!(applesingle_date_to_systime(None), None);
    assert_eq!(applesingle_date_to_systime(Some(0)), at(946_684_800));
    assert_eq!(applesingle_date_to_systime(Some(u32::MAX)), at(946_684_799));
    assert_eq!(applesingle_date_to_systime(Some(0x8000_0000)), at(946_684_800 - 2_147_483_648));
}

fn row(name: &str, fork: bool) -> Row {
    Row {
        name: name.as_bytes().to_vec(),
        is_dir: None,
        size: Some(4),
        is_encrypted: None,
        is_resource_fork: Some(fork),
        date: Some(0x226C_59BA),
    }
}

#[test]
fn rows_become_entries() {
    let rows = vec![row("a", false)];
    let metas = metas_from(Dating::Dos, &rows);
    let wall = CivilTime { year: 1997, month: 3, day: 12, hour: 11, min: 13, sec: 52 };
    assert_eq!(metas[0].modified, Some(Stamp::WallClock(wall)));
    assert_eq!(metas_from(Dating::Undated, &rows)[0].modified, None);
    let made = EntryMeta::file(b"x", 7).resource_fork(true).at(None);
    assert!(made.is_resource_fork && !made.is_dir && made.size == 7);
    let r = open_listed(Ok(rows), FormatId::Arj, LegacyKind::Arj, Dating::Dos, arj(), &no_options()).unwrap();
    assert_eq!(r.entries()[0].size, 4);
    assert_eq!(r.read_entry(0).unwrap(), b"stored by arj");
    let gone = IoError { kind: IoKind::Other, message: String::from("gone") };
    let r = open_listed(Err(gone), FormatId::Arj, LegacyKind::Arj, Dating::Dos, arj(), &no_options());
    assert!(matches!(r, Err(Error::Io(_))));
}

#[test]
fn payload_is_the_first_data_fork_of_an_archive_name() {
    assert!(payload_is_a_nested_archive(b"A.Sit"));
    assert!(payload_is_a_nested_archive(b"a.cpt"));
    assert!(payload_is_a_nested_archive(b"a.SEA"));
    assert!(!payload_is_a_nested_archive(b"a.sitx"));
    let rows = vec![row("a.sit", true), row("a.sit", false), row("b.sit", false)];
    assert_eq!(payload_index(&metas_from(Dating::Mac, &rows)), Some(1));
    assert_eq!(payload_index(&metas_from(Dating::Mac, &vec![row("a.txt", false)])), None);
    let bytes = binhex(b"a.sit", b"inner", b"");
    let e = unwrap_envelope(
        Ok(vec![row("a.txt", false)]),
        FormatId::BinHex,
        LegacyKind::BinHex,
        Dating::Undated,
        bytes,
        &no_options(),
    );
    assert!(e.unwrap().payload.is_none());
}

#[test]
fn one_entry_can_be_unpacked_alone() {
    assert_eq!(unpack(LegacyKind::Arj, &arj(), None, 0).unwrap(), b"stored by arj");
    assert!(unpack(LegacyKind::Arj, &arj(), None, 9).is_err());
}

#[test]
fn name_of_a_file_without_names_is_its_stem() {
    let src = Source::Stream { inner: Vec::new(), path: Some(String::from("/x/Disk.One.dms")) };
    assert_eq!(file_stem_bytes(&src, "disk"), b"Disk.One");
    let src = Source::Stream { inner: Vec::new(), path: None };
    assert_eq!(file_stem_bytes(&src, "disk"), b"disk");
}

struct Bodies(Vec<Vec<u8>>);

impl EntrySink for Bodies {
    fn begin(&mut self, _idx: usize) -> Result<SinkStep, Error> {
        self.0.push(Vec::new());
        Ok(SinkStep::Body)
    }

    fn write_body(&mut self, buf: &[u8]) -> Result<(), Error> {
        self.0.last_mut().unwrap().extend_from_slice(buf);
        Ok(())
    }

    fn end(&mut self, _idx: usize, outcome: Result<(), Error>) -> Result<bool, Error> {
        outcome?;
        Ok(true)
    }
}

#[test]
fn batch_goes_entry_by_entry() {
    let r = ArjHandler.open(source(&arj()), &no_options()).unwrap();
    let mut bodies = Bodies(Vec::new());
    r.read_entries(&[0, 0], &mut bodies).unwrap();
    assert_eq!(bodies.0, vec![b"stored by arj".to_vec(), b"stored by arj".to_vec()]);
}

#[test]
fn an_alz_member_without_room_is_refused() {
    let mut out = b"ALZ\x01\0\0\0\0BLZ\x01\x01\0\0\0\0\0\0\x80\0\x01\0\0\0\0\0".to_vec();
    out.extend_from_slice(&0u64.to_le_bytes());
    out.extend_from_slice(&(1u64 << 63).to_le_bytes());
    out.extend_from_slice(b"aCLZ\x01");
    let r = AlzHandler.open(source(&out), &no_options()).unwrap();
    assert_eq!(r.entries()[0].size, 1 << 63);
    assert!(matches!(r.read_entry(0), Err(Error::Corrupt(m)) if m.contains("alz: size too large")));
}

fn nested_folders(levels: u16) -> Vec<u8> {
    let mut bytes = vec![1, 0, 0, 0, 0, 0, 0, 8, 0, 0, 0, 0];
    put(&mut bytes, &[&levels.to_be_bytes(), &[0]]);
    for i in 0..levels {
        put(&mut bytes, &[&[0x81, b'd'], &(levels - 1 - i).to_be_bytes()]);
    }
    bytes
}

#[test]
fn compactpro_folders_in_folders_are_listed() {
    let r = CompactProHandler.open(source(&nested_folders(3)), &no_options()).unwrap();
    let paths: Vec<&str> = r.entries().iter().map(|e| e.path.as_str()).collect();
    assert_eq!(paths, ["d", "d/d", "d/d/d"]);
    let r = CompactProHandler.open(source(&nested_folders(999)), &no_options()).unwrap();
    assert_eq!(r.entries().len(), 999);
}

#[test]
fn compactpro_folders_that_lie_too_deep_are_refused() {
    for levels in [1000, 60000] {
        let r = CompactProHandler.open(source(&nested_folders(levels)), &no_options());
        assert!(matches!(r, Err(Error::Corrupt(m)) if m.contains("folders lie too deep")));
    }
}

/// Packs bytes by Huffman's method, with the code tree before them.
fn packed(bytes: &[u8]) -> Vec<u8> {
    let mut seen: Vec<u8> = bytes.to_vec();
    seen.sort();
    seen.dedup();
    let last = seen.len() - 1;
    let mut bits = String::new();
    for (i, b) in seen.iter().enumerate() {
        if i < last {
            bits.push('0');
        }
        bits.push_str(&format!("1{:08b}", b));
    }
    for b in bytes {
        let i = seen.iter().position(|s| s == b).unwrap();
        bits.push_str(&"1".repeat(i));
        if i < last {
            bits.push('0');
        }
    }
    while bits.len() % 8 != 0 {
        bits.push('0');
    }
    (0..bits.len() / 8).map(|i| u8::from_str_radix(&bits[8 * i..8 * i + 8], 2).unwrap()).collect()
}

fn packit_parts(name: &[u8], data: &[u8]) -> Vec<u8> {
    let mut h = vec![0u8; 94];
    h[0] = name.len() as u8;
    h[1..1 + name.len()].copy_from_slice(name);
    h[79] = data.len() as u8;
    put(&mut h, &[data, &crc16_high(data).to_be_bytes()]);
    h
}

#[test]
fn packit_packed_records_are_read() {
    let mut bytes = b"PMag".to_vec();
    put(&mut bytes, &[&packit_parts(b"p", b"PMa4")]);
    put(&mut bytes, &[b"PMa4", &packed(&packit_parts(b"q", b"packed")), b"PEnd"]);
    let r = PackItHandler.open(source(&bytes), &no_options()).unwrap();
    check(&r, FormatId::PackIt, &["p", "q"], &[b"PMa4", b"packed"]);
}

#[test]
fn packit_mark_in_a_stored_fork_is_no_record() {
    let mut inner = b"PMa4".to_vec();
    inner.resize(200, 0);
    let mut bytes = b"PMag".to_vec();
    put(&mut bytes, &[&packit_parts(b"p", &inner), b"PEnd"]);
    let r = PackItHandler.open(source(&bytes), &no_options()).unwrap();
    check(&r, FormatId::PackIt, &["p"], &[&inner]);
}

#[test]
fn packit_code_tree_with_too_many_branches_is_refused() {
    let mut bytes = b"PMag".to_vec();
    put(&mut bytes, &[&packit_parts(b"p", b"plain"), b"PMa4", &[0; 400_000]]);
    let r = PackItHandler.open(source(&bytes), &no_options());
    assert!(matches!(r, Err(Error::Corrupt(m)) if m.contains("code tree too large")));
}

fn stuffit_of(files: &[(&[u8], &[u8], u8)]) -> Vec<u8> {
    let mut bytes = b"SIT!\0\0\0\0\0\0rLau\0\0\0\0\0\0\0\0".to_vec();
    for (raw, body, name) in files {
        let mut h = vec![0u8; 112];
        h[0..4].copy_from_slice(&[3, 3, 1, *name]);
        h[88..92].copy_from_slice(&(body.len() as u32).to_be_bytes());
        h[96..100].copy_from_slice(&(raw.len() as u32).to_be_bytes());
        h[102..104].copy_from_slice(&crc16_low(body).to_be_bytes());
        let sum = crc16_low(&h[..110]);
        h[110..112].copy_from_slice(&sum.to_be_bytes());
        put(&mut bytes, &[&h, raw]);
    }
    let total = (bytes.len() as u32).to_be_bytes();
    bytes[6..10].copy_from_slice(&total);
    bytes
}

#[test]
fn stuffit_code_tree_with_too_many_branches_is_refused() {
    let good: &[u8] = b"abracadabra";
    let raw = packed(good);
    let deep = vec![0u8; 400_000];
    let bytes = stuffit_of(&[(&raw, good, b'a'), (&deep, b"x", b'b'), (&raw, good, b'c')]);
    let r = StuffItHandler.open(source(&bytes), &no_options()).unwrap();
    assert_eq!(r.entries().len(), 3);
    assert_eq!(r.read_entry(0).unwrap(), good);
    assert!(matches!(r.read_entry(1), Err(Error::Corrupt(m)) if m.contains("code tree too large")));
    assert_eq!(r.read_entry(2).unwrap(), good);
}

#[test]
fn stuffit5_code_tree_with_too_many_branches_is_refused() {
    let good: &[u8] = b"abracadabra";
    let raw = packed(good);
    let deep = vec![0u8; 400_000];
    let mut bytes = b"StuffIt (c)1997-2000 Aladdin Systems, Inc., http://www.aladdinsys.com/StuffIt/\r\n".to_vec();
    bytes.resize(100, 0);
    bytes[82] = 5;
    bytes[93] = 3;
    bytes[97] = 100;
    for part in [&raw, &deep, &raw] {
        let mut h = vec![0u8; 48];
        h[..4].copy_from_slice(&[0xA5; 4]);
        h[4] = 1;
        h[7] = 52;
        h[31] = 4;
        h[37] = good.len() as u8;
        h[38..42].copy_from_slice(&(part.len() as u32).to_be_bytes());
        h[42..44].copy_from_slice(&crc16_low(good).to_be_bytes());
        h[46] = 3;
        put(&mut bytes, &[&h, b"five", &[0; 4], b"TEXTttxt", &[0; 24], part]);
    }
    let r = StuffIt5Handler.open(source(&bytes), &no_options()).unwrap();
    assert_eq!(r.entries().len(), 3);
    assert_eq!(r.read_entry(0).unwrap(), good);
    assert!(matches!(r.read_entry(1), Err(Error::Corrupt(m)) if m.contains("code tree too large")));
    assert_eq!(r.read_entry(2).unwrap(), good);
    let mut wrapped = vec![0u8; 0x1a000];
    wrapped[..2].copy_from_slice(b"MZ");
    wrapped[4100..4104].copy_from_slice(&[0x42, 0x03, 0xE8, 0x53]);
    wrapped.extend_from_slice(&bytes);
    let r = StuffIt5Handler.open(source(&wrapped), &no_options()).unwrap();
    assert_eq!(r.read_entry(0).unwrap(), good);
    assert!(matches!(r.read_entry(1), Err(Error::Corrupt(m)) if m.contains("code tree too large")));
    assert_eq!(r.read_entry(2).unwrap(), good);
}

#[test]
fn stuffit5_program_without_its_archive_is_refused() {
    let mut bytes = vec![0u8; 5000];
    bytes[..2].copy_from_slice(b"MZ");
    bytes[4100..4104].copy_from_slice(&[0x42, 0x03, 0xE8, 0x53]);
    let r = StuffIt5Handler.open(source(&bytes), &no_options());
    assert!(matches!(r, Err(Error::Corrupt(m)) if m.contains("program without its archive")));
}

/// Bits from the lowest of each byte up.
fn low_bits(codes: &[(u32, u32)]) -> Vec<u8> {
    let mut out = Vec::new();
    let mut used = 0;
    for &(v, width) in codes {
        for k in 0..width {
            if used % 8 == 0 {
                out.push(0u8);
            }
            *out.last_mut().unwrap() |= (((v >> k) & 1) as u8) << (used % 8);
            used += 1;
        }
    }
    out
}

/// Bits from the highest of each byte down.
fn high_bits(codes: &[(u32, u32)]) -> Vec<u8> {
    let mut out = Vec::new();
    let mut used = 0;
    for &(v, width) in codes {
        for k in (0..width).rev() {
            if used % 8 == 0 {
                out.push(0u8);
            }
            *out.last_mut().unwrap() |= (((v >> k) & 1) as u8) << (7 - used % 8);
            used += 1;
        }
    }
    out
}

fn arc_entry(method: u8, packed: &[u8], body: &[u8]) -> Vec<u8> {
    let mut out = vec![0x1A, method];
    let mut name = b"X.TXT".to_vec();
    name.resize(13, 0);
    put(&mut out, &[&name, &(packed.len() as u32).to_le_bytes(), &[0; 4], &crc16_low(body).to_le_bytes()]);
    put(&mut out, &[&(body.len() as u32).to_le_bytes(), packed, &[0x1A, 0]]);
    out
}

#[test]
fn arc_codes_are_unpacked() {
    let nine = |v: u32| (v, 9);
    let good = low_bits(&[nine(65), nine(66), nine(257), nine(259)]);
    let r = ArcHandler.open(source(&arc_entry(9, &good, b"ABABABA")), &no_options()).unwrap();
    assert_eq!(r.read_entry(0).unwrap(), b"ABABABA");
    let mut flagged = vec![0x10];
    flagged.extend(&good);
    let r = ArcHandler.open(source(&arc_entry(0x7f, &flagged, b"ABABABA")), &no_options()).unwrap();
    assert_eq!(r.read_entry(0).unwrap(), b"ABABABA");
}

#[test]
fn arc_codes_of_an_emptied_table_are_unpacked() {
    let mut codes = vec![(65, 9), (66, 9), (256, 9)];
    codes.extend([(0, 9); 5]);
    codes.extend([(67, 9), (68, 9), (257, 9)]);
    let r = ArcHandler.open(source(&arc_entry(9, &low_bits(&codes), b"ABCDCD")), &no_options()).unwrap();
    assert_eq!(r.read_entry(0).unwrap(), b"ABCDCD");
}

#[test]
fn arc_codes_without_an_end_are_refused() {
    let mut codes = vec![(65, 9), (66, 9), (257, 9), (65, 9), (256, 9)];
    codes.extend([(0, 9); 3]);
    codes.extend([(259, 9), (65, 9), (257, 9)]);
    let packed = low_bits(&codes);
    for (method, width) in [(9, None), (8, Some(0x0c)), (0x7f, Some(12)), (0x7f, Some(8))] {
        let mut bytes: Vec<u8> = width.into_iter().collect();
        bytes.extend(&packed);
        let r = ArcHandler.open(source(&arc_entry(method, &bytes, &[0; 100])), &no_options()).unwrap();
        assert!(matches!(r.read_entry(0), Err(Error::Corrupt(m)) if m.contains("codes without an end")));
    }
}

#[test]
fn arc_crushed_codes_are_unpacked() {
    // A bit tells bytes and strings apart, and a string has one bit more than there are.
    let codes = [(0, 1), (65, 8), (0, 1), (66, 8), (1, 1), (1, 1), (1, 1), (0, 1)];
    let r = ArcHandler.open(source(&arc_entry(10, &low_bits(&codes), b"ABAB")), &no_options()).unwrap();
    assert_eq!(r.read_entry(0).unwrap(), b"ABAB");
    let first = low_bits(&[(1, 1), (1, 1), (0, 1), (65, 8), (1, 1), (1, 1)]);
    let r = ArcHandler.open(source(&arc_entry(10, &first, &[0; 9])), &no_options()).unwrap();
    assert!(matches!(r.read_entry(0), Err(Error::Corrupt(m)) if m.contains("codes without an end")));
}

fn stuffit_packed(method: u8, raw: &[u8], body: &[u8]) -> Vec<u8> {
    let mut bytes = stuffit_of(&[(raw, body, b'a')]);
    bytes[23] = method;
    let sum = crc16_low(&bytes[22..132]);
    bytes[132..134].copy_from_slice(&sum.to_be_bytes());
    bytes
}

#[test]
fn stuffit_codes_without_an_end_are_refused() {
    let good = low_bits(&[(65, 9), (66, 9), (257, 9)]);
    let r = StuffItHandler.open(source(&stuffit_packed(2, &good, b"ABAB")), &no_options()).unwrap();
    assert_eq!(r.read_entry(0).unwrap(), b"ABAB");
    let bad = low_bits(&[(257, 9), (65, 9), (257, 9)]);
    let r = StuffItHandler.open(source(&stuffit_packed(2, &bad, &[0; 9])), &no_options()).unwrap();
    assert!(matches!(r.read_entry(0), Err(Error::Corrupt(m)) if m.contains("without an end")));
}

/// A squeezed file with one byte, 0x41, again and again.
fn squeezed_run(runs: usize) -> Vec<u8> {
    let mut out = vec![0x76, 0xFF, 0, 0, b'a', 0, 3, 0];
    for child in [1i16, -(0x90 + 1), 2, -(0xFF + 1), -(0x41 + 1), -(256 + 1)] {
        out.extend(child.to_le_bytes());
    }
    // 0x90 is 1, 0xFF is 01, 0x41 is 000 and the end is 001.
    let mut codes = vec![(0, 3)];
    for _ in 0..runs {
        codes.extend([(1, 1), (2, 2)]);
    }
    codes.push((4, 3));
    out.extend(low_bits(&codes));
    out
}

#[test]
fn squeezed_runs_are_written_out() {
    let mut bytes = squeezed_run(2);
    let sum = 509u16 * 0x41;
    bytes[2..4].copy_from_slice(&sum.to_le_bytes());
    let r = SqueezeHandler.open(source(&bytes), &no_options()).unwrap();
    assert_eq!(r.read_entry(0).unwrap(), vec![0x41; 509]);
}

#[test]
fn squeezed_sum_that_does_not_fit_is_refused() {
    let r = SqueezeHandler.open(source(&squeezed_run(260_200)), &no_options()).unwrap();
    assert!(matches!(r.read_entry(0), Err(Error::Corrupt(m)) if m.contains("sum too large")));
}

#[test]
fn compactpro_match_before_the_first_byte_is_refused() {
    let archive = |packed: &[u8], body: &[u8]| {
        let mut meta = vec![0, 1, 0, 3];
        put(&mut meta, &[b"one\0", &8u32.to_be_bytes(), b"TEXTttxt", &[0; 8], &[0; 2]]);
        put(&mut meta, &[&(!crc32(body)).to_be_bytes(), &[0, 4], &[0; 4]]);
        put(&mut meta, &[&(body.len() as u32).to_be_bytes(), &[0; 4], &(packed.len() as u32).to_be_bytes()]);
        let mut bytes = vec![1, 0, 0, 0];
        let at = 8 + packed.len() as u32;
        put(&mut bytes, &[&at.to_be_bytes(), packed, &(!crc32(&meta)).to_be_bytes(), &meta]);
        bytes
    };
    // Two bytes, 0 and 1; lengths 0 and 1; offsets from 0 and from 64 on, of one bit each.
    let tables: &[u8] = &[1, 0x11, 1, 0x11, 1, 0x11];
    let with = |codes: &[(u32, u32)]| {
        let mut out = tables.to_vec();
        out.extend(high_bits(codes));
        out
    };
    // A byte is 1 and its code; a match is 0, its length, and its offset in two parts.
    let good = with(&[(3, 2), (2, 2), (1, 2), (0, 1), (2, 6), (1, 2), (0, 1), (1, 6)]);
    let r = CompactProHandler.open(source(&archive(&good, &[1, 0, 1, 1])), &no_options()).unwrap();
    assert_eq!(r.read_entry(0).unwrap(), [1, 0, 1, 1]);
    let bad = with(&[(3, 2), (1, 2), (0, 1), (2, 6)]);
    let r = CompactProHandler.open(source(&archive(&bad, &[1, 0])), &no_options()).unwrap();
    assert!(matches!(r.read_entry(0), Err(Error::Corrupt(m)) if m.contains("match before the first byte")));
}

fn installer(region: &[u8], header_len: u32) -> Vec<u8> {
    let mut file = vec![0u8; 4];
    put(&mut file, &[&[0xEF, 0xBE, 0xAD, 0xDE], b"NullsoftInst", &header_len.to_le_bytes()]);
    put(&mut file, &[&(region.len() as u32 + 32).to_le_bytes(), region]);
    file
}

/// One block of a bzip2 stream as installers hold it.
fn bare_block(bytes: &[u8]) -> Vec<u8> {
    let mut e = bzip2::write::BzEncoder::new(Vec::new(), bzip2::Compression::best());
    std::io::Write::write_all(&mut e, bytes).unwrap();
    let bits: String = e.finish().unwrap().iter().map(|b| format!("{:08b}", b)).collect();
    let end = bits.rfind(&format!("{:048b}", 0x1772_4538_5090u64)).unwrap();
    let all = format!("00110001{}00010111", &bits[113..end]);
    let codes: Vec<(u32, u32)> = all.bytes().map(|b| (u32::from(b - b'0'), 1)).collect();
    high_bits(&codes)
}

#[test]
fn nsis_installer_in_one_block_is_listed_and_read() {
    let body: &[u8] = b"installed bytes, installed bytes, installed bytes";
    let mut header = vec![0u8; 44];
    for word in [20u32, 0, 0, 0, u32::MAX, u32::MAX, 0] {
        put(&mut header, &[&word.to_le_bytes()]);
    }
    put(&mut header, &[b"a.txt\0", &[0; 32]]);
    for (at, v) in [(20, 44u32), (24, 1), (28, 72), (36, 78)] {
        header[at..at + 4].copy_from_slice(&v.to_le_bytes());
    }
    let mut whole = (header.len() as u32).to_le_bytes().to_vec();
    put(&mut whole, &[&header, &(body.len() as u32).to_le_bytes(), body]);
    let file = installer(&bare_block(&whole), header.len() as u32);
    let r = NsisHandler.open(source(&file), &no_options()).unwrap();
    check(&r, FormatId::Nsis, &["a.txt"], &[body]);
}

#[test]
fn nsis_run_of_a_run_is_refused() {
    // One byte occurs; a run's digits are 0 and 10, and 11 is the end.
    let mut codes = vec![(0x31, 8), (0, 24), (0x8000, 16), (0x8000, 16), (2, 3), (1, 15), (0, 1)];
    for _ in 0..2 {
        codes.extend([(1, 5), (0, 1), (2, 2), (0, 1), (0, 1)]);
    }
    let block = |digits: u32| {
        let mut all = codes.clone();
        all.push((0, digits));
        all.extend([(3, 2), (0x17, 8)]);
        high_bits(&all)
    };
    let refused = |digits: u32| {
        let r = NsisHandler.open(source(&installer(&block(digits), 40)), &no_options());
        matches!(r, Err(Error::Corrupt(m)) if m.contains("nsis: block out of range"))
    };
    assert!(!refused(3));
    assert!(!refused(30));
    assert!(refused(31));
    assert!(refused(32));
}

#[test]
fn stuffitx_methods_that_trust_what_they_read_are_refused() {
    for method in [0u64, 1, 4, 6] {
        let mut w = Bits { out: b"StuffIt!".to_vec(), used: 0 };
        w.bit(0);
        w.number(5);
        for n in [5, 3, 0, 1, method, 0] {
            w.number(n);
        }
        w.area(b"abc");
        w.head(0, &[]);
        let r = StuffItXHandler.open(source(&w.out), &no_options());
        assert!(matches!(r, Err(Error::Io(e)) if e.message.contains("method or size")));
    }
    let mut w = Bits { out: b"StuffIt!".to_vec(), used: 0 };
    w.head(3, &[(2, 1), (3, 1), (4, 0), (5, 1 << 41)]);
    w.number(0);
    let r = StuffItXHandler.open(source(&w.out), &no_options());
    assert!(matches!(r, Err(Error::Io(e)) if e.message.contains("method or size")));
}

fn lzx_archive(bits: &[(u32, u32)], body: &[u8]) -> Vec<u8> {
    let mut packed = low_bits(bits);
    if packed.len() % 2 == 1 {
        packed.push(0);
    }
    for pair in packed.chunks_exact_mut(2) {
        pair.swap(0, 1);
    }
    let mut bytes = b"LZX\0\0\0\0\0\0\0".to_vec();
    let sizes = [(body.len() as u32).to_le_bytes(), (packed.len() as u32).to_le_bytes()].concat();
    put(&mut bytes, &[&[0, 0], &sizes, &[0, 2], &[0; 10], &crc32(body).to_le_bytes(), &[0; 4], &[1], b"f", &packed]);
    bytes
}

/// The lengths of a code for the code's lengths: two bits for each of four symbols.
fn lzx_lengths(symbols: [usize; 4]) -> Vec<(u32, u32)> {
    (0..20).map(|i| (if symbols.contains(&i) { 2 } else { 0 }, 4)).collect()
}

#[test]
fn lzx_packed_member_is_read() {
    // Of the symbols 0, 16, 17 and 18 the codes are 00, 01, 10 and 11, highest bit first.
    let mut bits = vec![(2, 3), (0, 8), (0, 8), (6, 8)];
    bits.extend(lzx_lengths([0, 16, 17, 18]));
    bits.extend([(3, 2), (31, 5), (3, 2), (26, 5), (2, 2), (2, 2)]);
    bits.extend([(3, 2), (31, 5), (3, 2), (31, 5), (3, 2), (31, 5), (1, 2), (0, 4)]);
    bits.extend(lzx_lengths([0, 16, 17, 18]));
    for _ in 0..6 {
        bits.extend([(3, 2), (63, 6)]);
    }
    bits.extend([(3, 2), (1, 6)]);
    bits.extend([(0, 1), (1, 1), (1, 1), (0, 1), (1, 1), (0, 1)]);
    let r = LzxHandler.open(source(&lzx_archive(&bits, b"abbaba")), &no_options()).unwrap();
    check(&r, FormatId::Lzx, &["f"], &[b"abbaba"]);
}

#[test]
fn lzx_length_out_of_range_is_refused() {
    let mut bits = vec![(2, 3), (0, 8), (0, 8), (6, 8)];
    bits.extend(lzx_lengths([0, 17, 18, 19]));
    bits.extend([(3, 2), (0, 1), (1, 2)]);
    bits.extend([(0, 32), (0, 32)]);
    let r = LzxHandler.open(source(&lzx_archive(&bits, b"abbaba")), &no_options()).unwrap();
    assert!(matches!(r.read_entry(0), Err(Error::Corrupt(m)) if m.contains("code length out of range")));
}

fn heavy_track(method: u8, flags: u8, packed: &[u8], byte: u8, len: u16) -> Vec<u8> {
    let mut out = dms(7, u32::from(len), &[(0x3E7, b"NAME")]);
    let total = (0..len).fold(0u16, |a, _| a.wrapping_add(u16::from(byte)));
    let mut t = vec![0x54, 0x52];
    let sizes = [(packed.len() as u16).to_be_bytes(), len.to_be_bytes(), len.to_be_bytes()].concat();
    put(&mut t, &[&0x3E8u16.to_be_bytes(), &[0, 0], &sizes, &[flags, method], &total.to_be_bytes(), &[0, 0]]);
    let sum = crc16_low(&t);
    put(&mut t, &[&sum.to_be_bytes()]);
    put(&mut out, &[&t, packed]);
    out
}

#[test]
fn dms_tables_of_one_symbol_are_read() {
    let packed = high_bits(&[(0, 9), (0x41, 9), (0, 5), (0, 5)]);
    let bytes = heavy_track(5, 2, &packed, 0x41, 300);
    let r = DmsHandler.open(source(&bytes), &no_options()).unwrap();
    check(&r, FormatId::Dms, &["NAME"], &[&[0x41; 300]]);
}

#[test]
fn dms_whole_tables_are_read() {
    // The bytes 0 and 1 have codes of one bit.
    let packed = high_bits(&[(2, 9), (1, 5), (1, 5), (0, 5), (0, 5), (0xFFFF, 16)]);
    let bytes = heavy_track(6, 2, &packed, 1, 16);
    let r = DmsHandler.open(source(&bytes), &no_options()).unwrap();
    check(&r, FormatId::Dms, &["NAME"], &[&[1; 16]]);
}

#[test]
fn dms_tables_that_are_not_whole_are_refused() {
    let torn: [&[(u32, u32)]; 5] = [
        &[(511, 9), (0, 32)],
        &[(0, 9), (510, 9), (0, 5), (0, 5)],
        &[(0, 9), (0x41, 9), (31, 5)],
        &[(0, 9), (0x41, 9), (0, 5), (14, 5)],
        &[(2, 9), (1, 5), (2, 5), (0, 5), (0, 5)],
    ];
    for bits in torn {
        let bytes = heavy_track(5, 2, &high_bits(bits), 0x41, 300);
        let r = DmsHandler.open(source(&bytes), &no_options());
        assert!(matches!(r, Err(Error::Corrupt(m)) if m.contains("code table is not whole")));
    }
}
