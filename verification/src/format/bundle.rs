//! Formats that are zip archives under another name.
use vstd::prelude::*;

use crate::archive;
use crate::bytes;
use crate::text;
use crate::archive::{Confidence, FormatHandler, FormatId};
use crate::bytes::starts_with;
use crate::text::name_ends;

verus! {

/// `PK`, 3, 4: how a zip archive begins.
pub const ZIP_MAGIC: [u8; 4] = [0x50, 0x4B, 0x03, 0x04];

/// A zip archive that is told from others by the end of its name.
#[derive(Debug, Clone, Copy)]
pub struct ZipBundleHandler {
    ext: &'static str,
    format: FormatId,
}

impl ZipBundleHandler {
    /// The end of the names of such archives.
    pub closed spec fn spec_ext(&self) -> Seq<char> {
        self.ext@
    }

    /// What such archives are.
    pub closed spec fn spec_format(&self) -> FormatId {
        self.format
    }

    pub fn new(ext: &'static str, format: FormatId) -> (r: ZipBundleHandler)
        ensures
            r.spec_ext() == ext@,
            r.spec_format() == format,
    {
        ZipBundleHandler { ext, format }
    }
}

/// The end of the name and the beginning of the content fit.
pub open spec fn is_bundle(ext: Seq<char>, header: Seq<u8>, name: Option<Seq<char>>) -> bool {
    text::name_has_suffix(name, ext) && bytes::stands_at(header, 0, ZIP_MAGIC@)
}

impl FormatHandler for ZipBundleHandler {
    open spec fn spec_id(&self) -> FormatId {
        self.spec_format()
    }

    open spec fn spec_probe(&self, header: Seq<u8>, name: Option<Seq<char>>) -> Confidence {
        archive::magic_when(is_bundle(self.spec_ext(), header, name))
    }

    fn id(&self) -> (r: FormatId) {
        self.format
    }

    fn probe(&self, header: &[u8], name: Option<&str>) -> (r: Confidence) {
        Confidence::magic_if(name_ends(name, self.ext) && starts_with(header, &ZIP_MAGIC))
    }
}

/// The ends of the names, and what they stand for.
pub open spec fn bundles() -> Seq<(Seq<char>, FormatId)> {
    seq![
        (".jar"@, FormatId::Jar),
        (".apk"@, FormatId::Apk),
        (".ipa"@, FormatId::Ipa),
        (".epub"@, FormatId::Epub),
        (".docx"@, FormatId::Docx),
        (".xlsx"@, FormatId::Xlsx),
        (".pptx"@, FormatId::Pptx),
        (".odt"@, FormatId::Odt),
        (".ods"@, FormatId::Ods),
        (".odp"@, FormatId::Odp),
    ]
}

/// A list of ends of names, and what they stand for, as its model.
pub open spec fn bundle_views(v: Seq<(&'static str, FormatId)>) -> Seq<(Seq<char>, FormatId)> {
    v.map_values(|b: (&'static str, FormatId)| (b.0@, b.1))
}

/// The ends of the names, and what they stand for: one for each format.
pub fn zip_bundles() -> (r: Vec<(&'static str, FormatId)>)
    ensures
        bundle_views(r@) == bundles(),
{
    let mut v: Vec<(&'static str, FormatId)> = Vec::new();
    v.push((".jar", FormatId::Jar));
    v.push((".apk", FormatId::Apk));
    v.push((".ipa", FormatId::Ipa));
    v.push((".epub", FormatId::Epub));
    v.push((".docx", FormatId::Docx));
    v.push((".xlsx", FormatId::Xlsx));
    v.push((".pptx", FormatId::Pptx));
    v.push((".odt", FormatId::Odt));
    v.push((".ods", FormatId::Ods));
    v.push((".odp", FormatId::Odp));
    assert(bundle_views(v@) =~= bundles());
    v
}

/// The ends of the names of all such formats: those above, and those of packages
/// that are told apart from them.
pub open spec fn all_bundles() -> Seq<(Seq<char>, FormatId)> {
    bundles().push((".war"@, FormatId::War)).push((".appx"@, FormatId::Appx)).push((".xpi"@, FormatId::Xpi))
}

/// The ends of the names of all such formats, and what they stand for.
pub fn all_zip_bundles() -> (r: Vec<(&'static str, FormatId)>)
    ensures
        bundle_views(r@) == all_bundles(),
{
    let mut v = zip_bundles();
    let ghost first = v@;
    v.push((".war", FormatId::War));
    v.push((".appx", FormatId::Appx));
    v.push((".xpi", FormatId::Xpi));
    assert(bundle_views(v@) =~= all_bundles()) by {
        assert(bundle_views(v@).take(first.len() as int) =~= bundle_views(first));
        assert forall|i: int| 0 <= i < first.len() implies bundle_views(v@)[i] == bundles()[i] by {
            assert(bundle_views(v@).take(first.len() as int)[i] == bundle_views(v@)[i]);
        }
    }
    v
}

} // verus!
