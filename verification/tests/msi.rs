//! Windows installers.
use newtua_core::archive::{ArchiveReader, Confidence, FormatHandler, FormatId, OpenOptions, Source};
use newtua_core::error::Error;
use newtua_core::format::cab::{CabFile, CabFolder, CabReader, FolderStream};
use newtua_core::format::msi::{
    build_file_paths, check_catalog, embedded_cabinets, parse_defaultdir_name, parse_filename_long, resolve_dir_path, DirRow, Directories,
    MsiHandler, MsiPackage, MsiReader, CFB_MAGIC, COLUMNS_STREAM, MAX_DIR_DEPTH,
};

fn cfb_header() -> Vec<u8> {
    let mut v = CFB_MAGIC.to_vec();
    v.extend_from_slice(&[0u8; 504]);
    v
}

#[test]
fn id_is_msi() {
    assert_eq!(MsiHandler.id(), FormatId::Msi);
}

#[test]
fn probe_positive_cfb_magic_and_msi_ext() {
    assert_eq!(
        MsiHandler.probe(&cfb_header(), Some("setup.msi")),
        Confidence::magic()
    );
}

#[test]
fn probe_positive_case_insensitive_ext() {
    assert_eq!(
        MsiHandler.probe(&cfb_header(), Some("SETUP.MSI")),
        Confidence::magic()
    );
}

#[test]
fn probe_negative_cfb_but_wrong_ext() {
    assert_eq!(
        MsiHandler.probe(&cfb_header(), Some("doc.doc")),
        Confidence::none()
    );
}

#[test]
fn probe_negative_non_cfb_magic() {
    assert_eq!(
        MsiHandler.probe(b"PK\x03\x04\x00\x00\x00\x00", Some("setup.msi")),
        Confidence::none()
    );
}

#[test]
fn msi_probe_negative_no_name() {
    assert_eq!(MsiHandler.probe(&cfb_header(), None), Confidence::none());
}

#[test]
fn defaultdir_takes_long_target_name() {
    assert_eq!(parse_defaultdir_name("APP|MyApp"), Some("MyApp".to_owned()));
    assert_eq!(
        parse_defaultdir_name("APP|MyApp:SRC|MySrc"),
        Some("MyApp".to_owned())
    );
    assert_eq!(
        parse_defaultdir_name("ProgramFilesFolder"),
        Some("ProgramFilesFolder".to_owned())
    );
}

#[test]
fn defaultdir_dot_and_empty_are_none() {
    assert_eq!(parse_defaultdir_name("."), None);
    assert_eq!(parse_defaultdir_name(""), None);
    assert_eq!(parse_defaultdir_name(".:SRC|src"), None);
}

#[test]
fn filename_takes_long_name() {
    assert_eq!(parse_filename_long("app.exe"), "app.exe".to_owned());
    assert_eq!(
        parse_filename_long("APP~1.EXE|app.exe"),
        "app.exe".to_owned()
    );
}

fn dir(parent: Option<&str>, name: Option<&str>) -> DirRow {
    DirRow { parent: parent.map(str::to_owned), name: name.map(str::to_owned) }
}

#[test]
fn resolve_nested_drops_root_keeps_property_folder() {
    let mut m = Directories::new();
    m.insert("TARGETDIR".to_owned(), dir(None, None));
    m.insert(
        "ProgramFilesFolder".to_owned(),
        dir(Some("TARGETDIR"), Some("ProgramFilesFolder")),
    );
    m.insert(
        "MyApp".to_owned(),
        dir(Some("ProgramFilesFolder"), Some("MyApp")),
    );
    assert_eq!(
        resolve_dir_path("MyApp", &m),
        "ProgramFilesFolder/MyApp"
    );
}

#[test]
fn resolve_dot_segment_is_skipped() {
    let mut m = Directories::new();
    m.insert("TARGETDIR".to_owned(), dir(None, None));
    m.insert("DOT".to_owned(), dir(Some("TARGETDIR"), None));
    m.insert("Leaf".to_owned(), dir(Some("DOT"), Some("Leaf")));
    assert_eq!(resolve_dir_path("Leaf", &m), "Leaf");
}

#[test]
fn resolve_root_itself_is_empty_path() {
    let mut m = Directories::new();
    m.insert("TARGETDIR".to_owned(), dir(None, None));
    assert_eq!(resolve_dir_path("TARGETDIR", &m), "");
}

#[test]
fn resolve_cycle_is_bounded_no_panic() {
    let mut m = Directories::new();
    m.insert("A".to_owned(), dir(Some("B"), Some("A")));
    m.insert("B".to_owned(), dir(Some("A"), Some("B")));
    let p = resolve_dir_path("A", &m);
    assert!(p.split('/').count() <= MAX_DIR_DEPTH);
}

#[test]
fn resolve_missing_key_is_empty_path() {
    let m = Directories::new();
    assert_eq!(resolve_dir_path("nope", &m), "");
}

fn text_table(p: &mut msi::Package<std::io::Cursor<Vec<u8>>>, name: &str, columns: &[&str], rows: &[&[Option<&str>]]) {
    let mut list = vec![msi::Column::build(columns[0]).primary_key().string(72)];
    for c in &columns[1..] {
        list.push(msi::Column::build(*c).nullable().string(255));
    }
    p.create_table(name, list).unwrap();
    for row in rows {
        let values: Vec<msi::Value> = row.iter().map(|v| v.map_or(msi::Value::Null, msi::Value::from)).collect();
        p.insert_rows(msi::Insert::into(name).row(values)).unwrap();
    }
}

fn package(cabinets: &[(&str, &[u8])]) -> Vec<u8> {
    let mut p = msi::Package::create(msi::PackageType::Installer, std::io::Cursor::new(Vec::new())).unwrap();
    text_table(&mut p, "Directory", &["Directory", "Directory_Parent", "DefaultDir"], &[
        &[Some("TARGETDIR"), None, Some("SourceDir")],
        &[Some("APP"), Some("TARGETDIR"), Some("APP~1|My App")],
    ]);
    text_table(&mut p, "Component", &["Component", "Directory_"], &[&[Some("C"), Some("APP")]]);
    text_table(&mut p, "File", &["File", "Component_", "FileName"], &[&[Some("f1"), Some("C"), Some("RUN~1.EXE|run.exe")]]);
    let media: Vec<Vec<Option<&str>>> = cabinets.iter().map(|c| vec![Some(c.0), Some(c.0)]).collect();
    let rows: Vec<&[Option<&str>]> = media.iter().map(|r| &r[..]).collect();
    text_table(&mut p, "Media", &["DiskId", "Cabinet"], &rows);
    for (name, bytes) in cabinets {
        if let Some(stream) = name.strip_prefix('#') {
            std::io::Write::write_all(&mut p.write_stream(stream).unwrap(), bytes).unwrap();
        }
    }
    p.into_inner().unwrap().into_inner()
}

fn open(bytes: Vec<u8>) -> Result<MsiPackage, Error> {
    MsiHandler.open(Source::Seekable { inner: bytes, path: Some(String::from("/tmp/a.msi")) })
}

fn cabinet(names: &[&str]) -> CabReader {
    let mut files = Vec::new();
    for (i, name) in names.iter().enumerate() {
        files.push(CabFile {
            name: name.as_bytes().to_vec(),
            name_is_utf8: false,
            date: 0,
            time: 0,
            offset: i as u64,
            size: 1,
        });
    }
    let stream = FolderStream::Unpacked { bytes: b"abcdef".to_vec(), failure: None };
    CabReader::new(vec![CabFolder { files, stream }], &OpenOptions::default())
}

#[test]
fn embedded_cabinets_are_found_and_read() {
    let p = open(package(&[("#one.cab", b"first"), ("disk2.cab", b"")])).unwrap();
    assert_eq!(p.count(), 1);
    assert_eq!(p.cabinet(0).unwrap(), b"first");
}

#[test]
fn files_of_a_package_are_placed() {
    let p = open(package(&[("#one.cab", b"1"), ("#two.cab", b"2")])).unwrap();
    let r = MsiReader::assemble(p, vec![cabinet(&["f1", "loose"]), cabinet(&["loose"])]);
    assert_eq!(r.format(), FormatId::Msi);
    let names: Vec<&str> = r.entries().iter().map(|e| e.path.as_str()).collect();
    assert_eq!(names, ["SourceDir/My App/run.exe", "one.cab/loose", "two.cab/loose"]);
    assert_eq!(r.read_entry(0).unwrap(), b"a");
    assert_eq!(r.read_entry(1).unwrap(), b"b");
    assert_eq!(r.read_entry(2).unwrap(), b"a");
    assert!(matches!(r.read_entry(3), Err(Error::InvalidIndex(3))));
}

#[test]
fn tables_give_the_paths_of_files() {
    let paths = build_file_paths(&package(&[])).unwrap();
    assert_eq!(paths.get("f1"), Some("SourceDir/My App/run.exe"));
    assert_eq!(paths.get("f2"), None);
}

#[test]
fn other_compound_files_are_unknown() {
    assert!(matches!(open(cfb_header()), Err(Error::UnknownFormat)));
    assert!(matches!(open(b"no compound file".to_vec()), Err(Error::UnknownFormat)));
    let src = Source::Stream { inner: Vec::new(), path: None };
    assert!(matches!(MsiHandler.open(src), Err(Error::Unsupported { .. })));
}

#[test]
fn media_rows_name_the_embedded_cabinets() {
    let rows = vec![vec![Some(String::from("#a"))], vec![None], vec![Some(String::from("b"))], vec![Some(String::from("#"))]];
    assert_eq!(embedded_cabinets(&rows), ["a", ""]);
}

#[test]
fn a_package_with_a_hole_in_its_catalog_is_told() {
    let whole = package(&[]);
    assert!(check_catalog(&whole));
    assert!(check_catalog(b"no compound file"));
    let mut file = cfb::CompoundFile::open(std::io::Cursor::new(whole.clone())).unwrap();
    std::io::Write::write_all(&mut file.open_stream(COLUMNS_STREAM).unwrap(), &[0, 0]).unwrap();
    let broken = file.into_inner().into_inner();
    assert!(!check_catalog(&broken));
    let open = |bytes| MsiHandler.open_readable(Source::Seekable { inner: bytes, path: Some(String::from("/tmp/a.msi")) });
    assert!(open(broken).is_none());
    assert_eq!(open(whole).unwrap().unwrap().count(), 0);
}

#[test]
fn a_directory_lies_in_its_parent() {
    let mut m = Directories::new();
    m.insert("ROOT".to_owned(), dir(None, Some("x")));
    m.insert("SELF".to_owned(), dir(Some("SELF"), Some("y")));
    m.insert("A".to_owned(), dir(Some("SELF"), Some("a")));
    m.insert("B".to_owned(), dir(Some("A"), None));
    m.insert("C".to_owned(), dir(Some("B"), Some("c")));
    assert_eq!(resolve_dir_path("C", &m), format!("{}/c", resolve_dir_path("B", &m)));
    assert_eq!(resolve_dir_path("B", &m), resolve_dir_path("A", &m));
    assert_eq!(resolve_dir_path("A", &m), "a");
    assert_eq!(resolve_dir_path("SELF", &m), "");
    assert_eq!(resolve_dir_path("ROOT", &m), "");
}
