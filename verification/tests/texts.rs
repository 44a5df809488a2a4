//! Texts, paths, bytes and XML.
use newtua_core::bytes::{
    be_u16, be_u32, be_u64, ends_with_ascii_ci, equal_any_case, find, found_at, le_u16, le_u32, le_u64, parse_digits,
    position_or_len, push_be_u32, push_le_u32, starts_with, trim_end,
};
use newtua_core::format::xml::{child_elements, dict_value, exceeds_nesting_depth, has_tag, XmlNode};
use newtua_core::paths::{extension_is, join_path, name_extension, name_stem, path_file_name, path_file_stem};
use newtua_core::error::Error;
use newtua_core::path_safety::{raw_path_escapes, safe_join, safe_symlink_target};
use newtua_core::text::{
    chars_of, decimal_text, hex4_text, hex8_text, join_chars, name_ends, split_chars, string_of, trim_end_char, trim_white,
    utf16_to_text,
};

fn shown(cs: Option<Vec<char>>) -> Option<String> {
    cs.map(|c| string_of(&c))
}

#[test]
fn integers_are_read_in_both_orders() {
    let b = [1u8, 2, 3, 4, 5, 6, 7, 8, 9];
    assert_eq!((le_u16(&b, 1), be_u16(&b, 1)), (0x0302, 0x0203));
    assert_eq!((le_u32(&b, 1), be_u32(&b, 1)), (0x0504_0302, 0x0203_0405));
    assert_eq!((le_u64(&b, 1), be_u64(&b, 1)), (0x0908_0706_0504_0302, 0x0203_0405_0607_0809));
}

#[test]
fn written_integers_read_back() {
    let mut v = vec![9u8];
    push_be_u32(&mut v, 0x0102_0304);
    push_le_u32(&mut v, 0x0102_0304);
    assert_eq!(v, vec![9, 1, 2, 3, 4, 4, 3, 2, 1]);
    assert_eq!(be_u32(&v, 1), 0x0102_0304);
    assert_eq!(le_u32(&v, 5), 0x0102_0304);
}

#[test]
fn bytes_are_searched_and_compared() {
    assert_eq!(find(b"abcabc", b"ca"), Some(2));
    assert_eq!(find(b"abcabc", b"cc"), None);
    assert!(found_at(b"abcabc", 3, b"abc"));
    assert!(!found_at(b"abcabc", 4, b"abc"));
    assert!(starts_with(b"abc", b"ab") && !starts_with(b"a", b"ab"));
    assert!(ends_with_ascii_ci(b"x.ZIP", b".zip"));
    assert!(equal_any_case(b"ZiP", b"zIp") && !equal_any_case(b"zip", b"zi"));
    assert_eq!((position_or_len(b"abc", b'c'), position_or_len(b"abc", b'x')), (2, 3));
    let mut v = b"a  ".to_vec();
    trim_end(&mut v, b' ');
    assert_eq!(v, b"a".to_vec());
}

#[test]
fn digits_are_a_number_unless_there_are_too_many() {
    assert_eq!(parse_digits(b"0042"), Some(42));
    assert_eq!(parse_digits(b"18446744073709551615"), Some(u64::MAX));
    assert_eq!(parse_digits(b"18446744073709551616"), None);
    assert_eq!(parse_digits(b"4x"), None);
}

#[test]
fn numbers_are_written_in_digits() {
    assert_eq!(decimal_text(0), "0");
    assert_eq!(decimal_text(1090), "1090");
    assert_ne!(decimal_text(19), decimal_text(91));
    assert_eq!(hex4_text(0x0a1f), "0a1f");
    assert_eq!(hex8_text(0x8000_0009), "80000009");
}

#[test]
fn splitting_undoes_joining() {
    let parts = vec![chars_of("a"), chars_of(""), chars_of("bc")];
    let joined = join_chars(&parts, '/');
    assert_eq!(string_of(&joined), "a//bc");
    assert_eq!(split_chars(&joined, '/'), parts);
    assert_eq!(split_chars(&[], '/'), vec![Vec::<char>::new()]);
}

#[test]
fn ends_are_trimmed() {
    assert_eq!(string_of(&trim_end_char(&chars_of("a//"), '/')), "a");
    assert_eq!(string_of(&trim_white(&chars_of(" \ta b\n"))), "a b");
    assert!(name_ends(Some("X.TAR.GZ"), ".tar.gz"));
    assert!(!name_ends(None, ".tar.gz"));
}

#[test]
fn utf16_pairs_are_one_character() {
    assert_eq!(utf16_to_text(&[0x61, 0xD83D, 0xDE00]), Ok("a\u{1F600}".to_string()));
    assert_eq!(utf16_to_text(&[0x61, 0xD83D]), Err(0xD83D));
}

#[test]
fn names_have_a_stem_and_an_extension() {
    assert_eq!(string_of(&name_stem(&chars_of("a.tar.gz"))), "a.tar");
    assert_eq!(shown(name_extension(&chars_of("a.tar.gz"))), Some("gz".to_string()));
    assert_eq!(string_of(&name_stem(&chars_of(".hidden"))), ".hidden");
    assert_eq!(shown(name_extension(&chars_of(".hidden"))), None);
    assert_eq!(shown(path_file_name(&chars_of("/x/y.txt/"))), Some("y.txt".to_string()));
    assert_eq!(shown(path_file_name(&chars_of("x/.."))), None);
    assert_eq!(shown(path_file_stem(&chars_of("/x/y.txt"))), Some("y".to_string()));
    assert!(extension_is(Some("A.IsO"), "iso"));
    assert!(!extension_is(Some("iso"), "iso"));
}

#[test]
fn paths_are_joined_and_judged() {
    assert_eq!(join_path("a", "b"), "a/b");
    assert!(raw_path_escapes(b"a\\..\\b"));
    assert!(!raw_path_escapes(b"a/b"));
}

#[test]
fn places_stay_below_the_directory() {
    assert_eq!(safe_join("a/./b//c").unwrap(), ["a", "b", "c"]);
    assert_eq!(safe_join("a\\b.txt").unwrap(), ["a", "b.txt"]);
    assert_eq!(safe_join("a..b/...").unwrap(), ["a..b", "..."]);
    for path in ["../a", "a/../b", "a\\..\\b", "/etc/passwd", "\\x", "..", ".", "", "./"] {
        match safe_join(path) {
            Err(Error::PathTraversal(p)) => assert_eq!(p, path),
            other => panic!("{path}: {other:?}"),
        }
    }
}

#[test]
fn stored_paths_that_escape_have_no_place() {
    for raw in ["../a.txt", "a/../../b.txt", "/etc/passwd", "..\\a.txt", "é/..", "..", "\\x"] {
        assert!(raw_path_escapes(raw.as_bytes()));
        assert!(safe_join(raw).is_err());
    }
}

#[test]
fn links_stay_below_the_directory() {
    assert!(safe_symlink_target("a/b/l", "../x").is_ok());
    assert!(safe_symlink_target("a/b/l", "../../x").is_ok());
    assert!(safe_symlink_target("a/l", "d/e/../../../x/./y").is_ok());
    assert!(safe_symlink_target("l", "x").is_ok());
    assert!(matches!(safe_symlink_target("a/b/l", "../../../x"), Err(Error::PathTraversal(p)) if p == "../../../x"));
    assert!(matches!(safe_symlink_target("l", ".."), Err(Error::PathTraversal(p)) if p == ".."));
    assert!(matches!(safe_symlink_target("a/l", "d/../../../a"), Err(Error::PathTraversal(_))));
    assert!(matches!(safe_symlink_target("a/l", "/etc"), Err(Error::PathTraversal(p)) if p == "/etc"));
    assert!(matches!(safe_symlink_target("../l", "x"), Err(Error::PathTraversal(p)) if p == "../l"));
}

fn node(parent: Option<usize>, tag: &str, text: Option<&str>) -> XmlNode {
    XmlNode { parent, is_element: !tag.is_empty(), tag: tag.to_string(), text: text.map(|t| t.to_string()) }
}

#[test]
fn a_key_of_a_dict_names_the_element_behind_it() {
    let nodes = vec![
        node(None, "dict", None),
        node(Some(0), "key", Some("a")),
        node(Some(0), "", None),
        node(Some(0), "data", Some("x")),
        node(Some(0), "key", Some("b")),
        node(Some(0), "array", None),
    ];
    assert_eq!(child_elements(&nodes, 0), vec![1, 3, 4, 5]);
    assert_eq!(dict_value(&nodes, 0, "a"), Some(3));
    assert_eq!(dict_value(&nodes, 0, "b"), Some(5));
    assert_eq!(dict_value(&nodes, 0, "c"), None);
    assert!(has_tag(&nodes[5], "array"));
    assert!(!has_tag(&nodes[2], "array"));
}

#[test]
fn elements_that_nest_too_deep_are_noticed() {
    let deep = format!("{}{}", "<a>".repeat(5), "</a>".repeat(5));
    assert!(!exceeds_nesting_depth(&deep, 5));
    assert!(exceeds_nesting_depth(&deep, 4));
    assert!(!exceeds_nesting_depth("<a/><b/><c/>", 1));
}
