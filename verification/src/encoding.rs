//! The encoding of entry names: one for a whole archive.
use vstd::prelude::*;
use vstd::utf8;

use chardetng::EncodingDetector;

use crate::text;
use crate::text::copy_text;

verus! {

/// The state of `chardetng`'s detector.
#[verifier::external_type_specification]
#[verifier::external_body]
pub struct ExEncodingDetector(EncodingDetector);

/// What a detector has been fed: each piece, and whether it was said to be the last.
pub uninterp spec fn fed(d: EncodingDetector) -> Seq<(Seq<u8>, bool)>;

/// The name of the encoding that `EncodingDetector::guess` settles on after
/// these pieces, with no top-level domain given and UTF-8 allowed.
pub uninterp spec fn guessed(pieces: Seq<(Seq<u8>, bool)>) -> Seq<char>;

/// The name of the encoding that `Encoding::for_label` finds for a label.
pub uninterp spec fn label_encoding(label: Seq<u8>) -> Option<Seq<char>>;

/// What `Encoding::decode` makes of `bytes` in the encoding of that name.
pub uninterp spec fn decoded(name: Seq<char>, bytes: Seq<u8>) -> Seq<char>;

/// What `String::from_utf8_lossy` makes of `bytes`.
pub uninterp spec fn lossy(bytes: Seq<u8>) -> Seq<char>;

/// The label by which UTF-8 is asked for: `utf-8`.
pub const UTF8_LABEL: [u8; 5] = [0x75, 0x74, 0x66, 0x2D, 0x38];

/// The text is the name of an encoding, and so a label of that encoding.
pub open spec fn is_encoding_name(name: Seq<char>) -> bool {
    label_encoding(utf8::encode_utf8(name)) == Some(name)
}

/// `EncodingDetector::new` makes a detector that has been fed nothing.
#[verifier::external_body]
fn new_detector() -> (r: EncodingDetector)
    ensures
        fed(r) == Seq::<(Seq<u8>, bool)>::empty(),
{
    EncodingDetector::new()
}

/// `EncodingDetector::feed` takes one more piece. It panics if the last piece
/// has been fed already.
#[verifier::external_body]
fn feed(d: &mut EncodingDetector, piece: &[u8], last: bool)
    requires
        forall|i: int| 0 <= i < fed(*old(d)).len() ==> !(#[trigger] fed(*old(d))[i]).1,
    ensures
        fed(*final(d)) == fed(*old(d)).push((piece@, last)),
{
    d.feed(piece, last);
}

/// `EncodingDetector::guess` with no top-level domain and UTF-8 allowed: the
/// name of the encoding depends on what was fed alone. The name of an encoding
/// is a label of it.
#[verifier::external_body]
fn guess(d: &EncodingDetector) -> (r: String)
    ensures
        r@ == guessed(fed(*d)),
        is_encoding_name(r@),
{
    d.guess(None, true).name().to_owned()
}

/// `Encoding::for_label` finds the encoding of a label; `Encoding::name` is its
/// name, which is itself a label of it. The label `utf-8` finds `UTF-8`.
#[verifier::external_body]
fn for_label(label: &[u8]) -> (r: Option<String>)
    ensures
        text::opt_string(r) == label_encoding(label@),
        r is Some ==> is_encoding_name(r->0@),
        label@ == UTF8_LABEL@ ==> r is Some && r->0@ == "UTF-8"@,
{
    encoding_rs::Encoding::for_label(label).map(|e| e.name().to_owned())
}

/// `Encoding::decode`, with byte-order marks looked for and faulty sequences
/// replaced. Valid UTF-8 without a byte-order mark decodes as UTF-8 to the text
/// that it encodes.
#[verifier::external_body]
fn decode_in(name: &str, bytes: &[u8]) -> (r: String)
    requires
        is_encoding_name(name@),
    ensures
        r@ == decoded(name@, bytes@),
        name@ == "UTF-8"@ && utf8::valid_utf8(bytes@) && !has_utf8_mark(bytes@) ==> r@ == utf8::decode_utf8(bytes@),
{
    encoding_rs::Encoding::for_label(name.as_bytes()).unwrap().decode(bytes).0.into_owned()
}

/// `std::str::from_utf8` succeeds on exactly the sequences that are valid UTF-8.
#[verifier::external_body]
pub(crate) fn is_utf8(bytes: &[u8]) -> (r: bool)
    ensures
        r == utf8::valid_utf8(bytes@),
{
    std::str::from_utf8(bytes).is_ok()
}

/// `String::from_utf8_lossy` keeps valid UTF-8 as the text that it encodes.
#[verifier::external_body]
pub(crate) fn text_lossy(bytes: &[u8]) -> (r: String)
    ensures
        r@ == lossy(bytes@),
        utf8::valid_utf8(bytes@) ==> r@ == utf8::decode_utf8(bytes@),
{
    String::from_utf8_lossy(bytes).into_owned()
}

/// The bytes begin with the byte-order mark of UTF-8.
pub open spec fn has_utf8_mark(bytes: Seq<u8>) -> bool {
    bytes.len() >= 3 && bytes[0] == 0xEF && bytes[1] == 0xBB && bytes[2] == 0xBF
}

/// The bytes of a list of names.
pub open spec fn raw_views(raw: Seq<Vec<u8>>) -> Seq<Seq<u8>> {
    raw.map_values(|v: Vec<u8>| v@)
}

/// The texts of a list of strings.
pub open spec fn text_views(v: Seq<String>) -> Seq<Seq<char>> {
    v.map_values(|s: String| s@)
}

/// What the detector is fed: every name, then the end.
pub open spec fn feeding(names: Seq<Seq<u8>>) -> Seq<(Seq<u8>, bool)> {
    names.map_values(|n: Seq<u8>| (n, false)).push((Seq::<u8>::empty(), true))
}

/// All the names are valid UTF-8.
pub open spec fn all_utf8(names: Seq<Seq<u8>>) -> bool {
    forall|i: int| 0 <= i < names.len() ==> utf8::valid_utf8(#[trigger] names[i])
}

/// The encoding of a set of names: the one a known label asks for, else UTF-8 if
/// every name is valid UTF-8, else the one guessed from all of them.
pub open spec fn settled(names: Seq<Seq<u8>>, label: Option<Seq<char>>) -> Seq<char> {
    if label matches Some(l) && label_encoding(utf8::encode_utf8(l)) is Some {
        label_encoding(utf8::encode_utf8(label->0))->0
    } else if all_utf8(names) {
        "UTF-8"@
    } else {
        guessed(feeding(names))
    }
}

/// The name of the encoding of a set of names.
pub fn detect_encoding(raw: &[Vec<u8>], override_label: Option<&str>) -> (r: String)
    ensures
        r@ == settled(raw_views(raw@), text::opt_text(override_label)),
        is_encoding_name(r@),
{
    if let Some(label) = override_label {
        if let Some(name) = for_label(label.as_bytes()) {
            return name;
        }
    }
    let ghost names = raw_views(raw@);
    let mut sure = true;
    let mut i: usize = 0;
    while i < raw.len()
        invariant
            i <= raw.len(),
            names == raw_views(raw@),
            sure == forall|j: int| 0 <= j < i ==> utf8::valid_utf8(#[trigger] names[j]),
        decreases raw.len() - i,
    {
        let one = is_utf8(raw[i].as_slice());
        proof {
            assert(names[i as int] == raw@[i as int]@);
        }
        sure = sure && one;
        i = i + 1;
    }
    if sure {
        return match for_label(&UTF8_LABEL) {
            Some(name) => name,
            None => copy_text("UTF-8"),
        };
    }
    let mut d = new_detector();
    let mut k: usize = 0;
    proof {
        assert(fed(d) =~= names.take(0).map_values(|n: Seq<u8>| (n, false)));
    }
    while k < raw.len()
        invariant
            k <= raw.len(),
            names == raw_views(raw@),
            fed(d) == names.take(k as int).map_values(|n: Seq<u8>| (n, false)),
        decreases raw.len() - k,
    {
        feed(&mut d, raw[k].as_slice(), false);
        k = k + 1;
        proof {
            assert(fed(d) =~= names.take(k as int).map_values(|n: Seq<u8>| (n, false)));
        }
    }
    let nothing: [u8; 0] = [];
    feed(&mut d, &nothing, true);
    proof {
        assert(nothing@ =~= Seq::<u8>::empty());
        assert(names.take(k as int) =~= names);
        assert(fed(d) =~= feeding(names));
    }
    guess(&d)
}

/// The names decoded, each in the one encoding of the set.
pub open spec fn decoded_names(names: Seq<Seq<u8>>, label: Option<Seq<char>>) -> Seq<Seq<char>> {
    names.map_values(|n: Seq<u8>| decoded(settled(names, label), n))
}

/// Decode a set of names in one encoding.
pub fn decode_names(raw: &[Vec<u8>], override_label: Option<&str>) -> (r: Vec<String>)
    ensures
        text_views(r@) == decoded_names(raw_views(raw@), text::opt_text(override_label)),
        r.len() == raw.len(),
        label_ignored(text::opt_text(override_label)) && all_utf8(raw_views(raw@)) ==> forall|i: int|
            0 <= i < raw.len() && !has_utf8_mark(raw@[i]@) ==> (#[trigger] r@[i])@ == utf8::decode_utf8(raw@[i]@),
{
    let name = detect_encoding(raw, override_label);
    let ghost names = raw_views(raw@);
    let ghost label = text::opt_text(override_label);
    let mut out: Vec<String> = Vec::new();
    let mut i: usize = 0;
    proof {
        assert(text_views(out@) =~= decoded_names(names, label).take(0));
    }
    while i < raw.len()
        invariant
            i <= raw.len(),
            out.len() == i,
            names == raw_views(raw@),
            name@ == settled(names, label),
            is_encoding_name(name@),
            text_views(out@) == decoded_names(names, label).take(i as int),
            label_ignored(label) && all_utf8(names) ==> forall|j: int|
                0 <= j < i && !has_utf8_mark(raw@[j]@) ==> (#[trigger] out@[j])@ == utf8::decode_utf8(raw@[j]@),
        decreases raw.len() - i,
    {
        let s = decode_in(name.as_str(), raw[i].as_slice());
        proof {
            assert(names[i as int] == raw@[i as int]@);
        }
        let ghost before = out@;
        out.push(s);
        i = i + 1;
        proof {
            assert(text_views(out@) =~= text_views(before).push(s@));
            assert(text_views(out@) =~= decoded_names(names, label).take(i as int));
        }
    }
    proof {
        assert(decoded_names(names, label).take(i as int) =~= decoded_names(names, label));
    }
    out
}

/// No label was given, or one that no encoding has.
pub open spec fn label_ignored(label: Option<Seq<char>>) -> bool {
    label matches Some(l) ==> label_encoding(utf8::encode_utf8(l)) is None
}

/// An unknown label is ignored: the names decode as they do without one.
pub proof fn unknown_label_is_ignored(names: Seq<Seq<u8>>, label: Option<Seq<char>>)
    requires
        label_ignored(label),
    ensures
        settled(names, label) == settled(names, None),
        decoded_names(names, label) == decoded_names(names, None),
{
    assert(decoded_names(names, label) =~= decoded_names(names, None));
}

/// Names are decoded in exactly the encoding that is reported for them, each by
/// itself.
pub proof fn names_decode_as_reported(names: Seq<Seq<u8>>, label: Option<Seq<char>>, i: int)
    requires
        0 <= i < names.len(),
    ensures
        decoded_names(names, label).len() == names.len(),
        decoded_names(names, label)[i] == decoded(settled(names, label), names[i]),
{
}

/// The name of an encoding, given as the label, comes back as the encoding of any
/// names; so what was reported for a set can be asked for again, and decodes the
/// set as before.
pub proof fn reported_encoding_can_be_asked_for(names: Seq<Seq<u8>>, label: Option<Seq<char>>, name: Seq<char>)
    requires
        is_encoding_name(name),
    ensures
        settled(names, Some(name)) == name,
        settled(names, label) == name ==> decoded_names(names, Some(name)) == decoded_names(names, label),
{
    if settled(names, label) == name {
        assert(decoded_names(names, Some(name)) =~= decoded_names(names, label));
    }
}

/// Names that are all valid UTF-8 are taken for that, if no known encoding is asked for;
/// where one is not, the guess is made from all of them together, in their order.
pub proof fn all_names_are_taken_together(names: Seq<Seq<u8>>, label: Option<Seq<char>>, k: int)
    requires
        label_ignored(label),
    ensures
        (forall|i: int| 0 <= i < names.len() ==> utf8::valid_utf8(#[trigger] names[i])) ==> settled(names, label) == "UTF-8"@,
        0 <= k < names.len() && !utf8::valid_utf8(names[k]) ==> ({
            let pieces = Seq::new(names.len() + 1, |i: int| if i < names.len() { (names[i], false) } else { (Seq::<u8>::empty(), true) });
            settled(names, label) == guessed(pieces)
        }),
{
    let pieces = Seq::new(
        names.len() + 1,
        |i: int| if i < names.len() { (names[i], false) } else { (Seq::<u8>::empty(), true) },
    );
    assert(feeding(names) =~= pieces);
    if 0 <= k < names.len() && !utf8::valid_utf8(names[k]) {
        assert(!all_utf8(names));
    }
}

} // verus!
