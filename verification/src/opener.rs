//! Opening a file with the handler of its format.
use vstd::prelude::*;

use crate::archive::{OpenOptions, Source};
use crate::detect::{Handler, TempBackedReader};
use crate::error::Error;
use crate::format::legacy::{alz, amiga, dos, mac, nsis, stuffit};
use crate::format::{apfs, ar, cpio, deb, dmg, hfsplus, rpm, sevenz, tar, warc, wim, wpress};
use crate::format::apfs::{ApfsHandler, ApfsReader};
use crate::format::ar::{check_long_names, ArHandler, ArReader};
use crate::format::cpio::{CpioHandler, CpioReader};
use crate::format::deb::{DebHandler, DebOpening};
use crate::format::dmg::{DmgHandler, RawImage};
use crate::format::hfsplus::{HfsPlusHandler, HfsPlusReader};
use crate::format::legacy::alz::AlzHandler;
use crate::format::legacy::amiga::{DmsHandler, LzxHandler, PowerPackerHandler};
use crate::format::legacy::dos::{
    check_zoo_list, ArcHandler, ArjHandler, CrunchHandler, LbrHandler, SqueezeHandler, ZooHandler,
};
use crate::format::legacy::mac::{
    AppleSingleHandler, BinHexHandler, CompactProHandler, Envelope, MacBinaryHandler, PackItHandler,
};
use crate::format::legacy::nsis::NsisHandler;
use crate::format::legacy::stuffit::{StuffIt5Handler, StuffItHandler, StuffItXHandler};
use crate::format::legacy::LegacyReader;
use crate::format::rpm::{check_headers, RpmHandler};
use crate::format::sevenz::{SevenZHandler, SevenZReader};
use crate::format::stored::StoredReader;
use crate::format::tar::{TarHandler, TarReader};
use crate::format::warc::WarcHandler;
use crate::format::wim::{check_chunk_size, WimHandler, WimReader};
use crate::format::wpress::{WpressHandler, WpressReader};

verus! {

/// What a handler makes of a file.
pub enum Opened {
    Cpio(CpioReader),
    SevenZ(SevenZReader),
    Tar(TarReader),
    Ar(ArReader),
    Rpm(TempBackedReader<CpioReader>),
    Wim(WimReader),
    Warc(StoredReader),
    HfsPlus(HfsPlusReader),
    Apfs(ApfsReader),
    Wpress(WpressReader),
    Legacy(LegacyReader),
    /// A package: its reader, or a payload that is decoded elsewhere.
    Deb(DebOpening),
    /// A disk image, whose volume is yet to be opened.
    Image(RawImage),
    /// A file with another in it, which may be an archive.
    Envelope(Envelope),
    /// The decoder of the format does not come back from such a file, or panics.
    Unreadable,
    /// It takes more than the bytes of the file: the directory that it lies in, a
    /// device, or a decoder that is not here.
    Elsewhere,
}

/// The outcome of opening a file with a handler.
pub open spec fn opens_with(r: Result<Opened, Error>, h: Handler, src: Source, opts: &OpenOptions) -> bool {
    match h {
        Handler::Cpio => match r {
            Err(e) => cpio::opens(Err(e), src, opts),
            Ok(Opened::Cpio(x)) => cpio::opens(Ok(x), src, opts),
            Ok(_) => false,
        },
        Handler::SevenZ => match r {
            Err(e) => sevenz::opens(Err(e), src, opts),
            Ok(Opened::SevenZ(x)) => sevenz::opens(Ok(x), src, opts),
            Ok(_) => false,
        },
        Handler::Tar => match r {
            Err(e) => tar::opens(Err(e), src, opts),
            Ok(Opened::Tar(x)) => tar::opens(Ok(x), src, opts),
            Ok(_) => false,
        },
        Handler::HfsPlus => match r {
            Err(e) => hfsplus::opens(Err(e), src),
            Ok(Opened::HfsPlus(x)) => hfsplus::opens(Ok(x), src),
            Ok(_) => false,
        },
        Handler::Apfs => match r {
            Err(e) => apfs::opens(Err(e), src),
            Ok(Opened::Apfs(x)) => apfs::opens(Ok(x), src),
            Ok(_) => false,
        },
        Handler::Wpress => match r {
            Err(e) => wpress::opens(Err(e), src, opts),
            Ok(Opened::Wpress(x)) => wpress::opens(Ok(x), src, opts),
            Ok(_) => false,
        },
        Handler::Arj => match r {
            Err(e) => dos::opens_arj(Err(e), src, opts),
            Ok(Opened::Legacy(x)) => dos::opens_arj(Ok(x), src, opts),
            Ok(_) => false,
        },
        Handler::Lbr => match r {
            Err(e) => dos::opens_lbr(Err(e), src, opts),
            Ok(Opened::Legacy(x)) => dos::opens_lbr(Ok(x), src, opts),
            Ok(_) => false,
        },
        Handler::Crunch => match r {
            Err(e) => dos::opens_crunch(Err(e), src, opts),
            Ok(Opened::Legacy(x)) => dos::opens_crunch(Ok(x), src, opts),
            Ok(_) => false,
        },
        Handler::Arc => match r {
            Err(e) => dos::opens_arc(Err(e), src, opts),
            Ok(Opened::Legacy(x)) => dos::opens_arc(Ok(x), src, opts),
            Ok(_) => false,
        },
        Handler::Squeeze => match r {
            Err(e) => dos::opens_squeeze(Err(e), src, opts),
            Ok(Opened::Legacy(x)) => dos::opens_squeeze(Ok(x), src, opts),
            Ok(_) => false,
        },
        Handler::AppleSingle => match r {
            Err(e) => mac::opens_applesingle(Err(e), src, opts),
            Ok(Opened::Legacy(x)) => mac::opens_applesingle(Ok(x), src, opts),
            Ok(_) => false,
        },
        Handler::CompactPro => match r {
            Err(e) => mac::opens_compactpro(Err(e), src, opts),
            Ok(Opened::Legacy(x)) => mac::opens_compactpro(Ok(x), src, opts),
            Ok(_) => false,
        },
        Handler::PackIt => match r {
            Err(e) => mac::opens_packit(Err(e), src, opts),
            Ok(Opened::Legacy(x)) => mac::opens_packit(Ok(x), src, opts),
            Ok(_) => false,
        },
        Handler::StuffIt5 => match r {
            Err(e) => stuffit::opens_stuffit5(Err(e), src, opts),
            Ok(Opened::Legacy(x)) => stuffit::opens_stuffit5(Ok(x), src, opts),
            Ok(_) => false,
        },
        Handler::StuffIt => match r {
            Err(e) => stuffit::opens_stuffit(Err(e), src, opts),
            Ok(Opened::Legacy(x)) => stuffit::opens_stuffit(Ok(x), src, opts),
            Ok(_) => false,
        },
        Handler::StuffItX => match r {
            Err(e) => stuffit::opens_stuffitx(Err(e), src, opts),
            Ok(Opened::Legacy(x)) => stuffit::opens_stuffitx(Ok(x), src, opts),
            Ok(_) => false,
        },
        Handler::Alz => match r {
            Err(e) => alz::opens_alz(Err(e), src, opts),
            Ok(Opened::Legacy(x)) => alz::opens_alz(Ok(x), src, opts),
            Ok(_) => false,
        },
        Handler::PowerPacker => match r {
            Err(e) => amiga::opens_powerpacker(Err(e), src, opts),
            Ok(Opened::Legacy(x)) => amiga::opens_powerpacker(Ok(x), src, opts),
            Ok(_) => false,
        },
        Handler::Lzx => match r {
            Err(e) => amiga::opens_lzx(Err(e), src, opts),
            Ok(Opened::Legacy(x)) => amiga::opens_lzx(Ok(x), src, opts),
            Ok(_) => false,
        },
        Handler::Dms => match r {
            Err(e) => amiga::opens_dms(Err(e), src, opts),
            Ok(Opened::Legacy(x)) => amiga::opens_dms(Ok(x), src, opts),
            Ok(_) => false,
        },
        Handler::BinHex => match r {
            Err(e) => mac::opens_binhex(Err(e), src, opts),
            Ok(Opened::Envelope(x)) => mac::opens_binhex(Ok(x), src, opts),
            Ok(_) => false,
        },
        Handler::MacBinary => match r {
            Err(e) => mac::opens_macbinary(Err(e), src, opts),
            Ok(Opened::Envelope(x)) => mac::opens_macbinary(Ok(x), src, opts),
            Ok(_) => false,
        },
        Handler::Ar => if src is Seekable && !ar::long_names_resolve(src.content()) {
            r matches Ok(Opened::Unreadable)
        } else {
            match r {
                Err(e) => ar::opens(Err(e), src, opts),
                Ok(Opened::Ar(x)) => ar::opens(Ok(x), src, opts),
                Ok(_) => false,
            }
        },
        Handler::Rpm => if !rpm::headers_sound(src.content()) {
            r matches Ok(Opened::Unreadable)
        } else {
            match r {
                Err(e) => rpm::opens(Err(e), src, opts),
                Ok(Opened::Rpm(x)) => rpm::opens(Ok(x), src, opts),
                Ok(_) => false,
            }
        },
        Handler::Wim => if !wim::chunk_size_given(src.content()) {
            r matches Ok(Opened::Unreadable)
        } else {
            match r {
                Err(e) => wim::opens(Err(e), src),
                Ok(Opened::Wim(x)) => wim::opens(Ok(x), src),
                Ok(_) => false,
            }
        },
        Handler::Deb => if src is Seekable && !ar::long_names_resolve(src.content()) {
            r matches Ok(Opened::Unreadable)
        } else {
            match r {
                Err(e) => deb::opens(Err(e), src, opts),
                Ok(Opened::Deb(x)) => deb::opens(Ok(x), src, opts),
                Ok(_) => false,
            }
        },
        Handler::Zoo => if !dos::zoo_list_ends(src.content()) {
            r matches Ok(Opened::Unreadable)
        } else {
            match r {
                Err(e) => dos::opens_zoo(Err(e), src, opts),
                Ok(Opened::Legacy(x)) => dos::opens_zoo(Ok(x), src, opts),
                Ok(_) => false,
            }
        },
        Handler::Warc => if !warc::readable(src.content(), src.spec_path()) {
            r matches Ok(Opened::Unreadable)
        } else {
            match r {
                Err(e) => warc::opened(src.content(), src.spec_path(), Err(e)),
                Ok(Opened::Warc(x)) => warc::opened(src.content(), src.spec_path(), Ok(x)),
                Ok(_) => false,
            }
        },
        Handler::Dmg => match r {
            Err(e) => dmg::opens(Err(e), src),
            Ok(Opened::Image(x)) => dmg::opens(Ok(x), src),
            Ok(_) => false,
        },
        Handler::Nsis => match r {
            Err(e) => nsis::opens_as_installer(Err(e), src.content(), opts),
            Ok(Opened::Legacy(x)) => nsis::opens_as_installer(Ok(x), src.content(), opts),
            Ok(_) => false,
        },
        _ => r matches Ok(Opened::Elsewhere),
    }
}

fn is_seekable(src: &Source) -> (r: bool)
    ensures
        r == (src is Seekable),
{
    match src {
        Source::Seekable { .. } => true,
        Source::Stream { .. } => false,
    }
}

fn bytes_of(src: &Source) -> (r: &[u8])
    ensures
        r@ == src.content(),
{
    match src {
        Source::Seekable { inner, .. } => inner.as_slice(),
        Source::Stream { inner, .. } => inner.as_slice(),
    }
}

fn legacy_opened(inner: Result<LegacyReader, Error>) -> (r: Result<Opened, Error>)
    ensures
        match inner {
            Ok(x) => r == Ok::<Opened, Error>(Opened::Legacy(x)),
            Err(e) => r == Err::<Opened, Error>(e),
        },
{
    match inner {
        Ok(x) => Ok(Opened::Legacy(x)),
        Err(e) => Err(e),
    }
}

/// Open a file with the handler of its format.
pub fn open_handler(h: Handler, src: Source, opts: &OpenOptions) -> (r: Result<Opened, Error>)
    ensures
        opens_with(r, h, src, opts),
{
    match h {
        Handler::Cpio => match CpioHandler.open(src, opts) {
            Ok(x) => Ok(Opened::Cpio(x)),
            Err(e) => Err(e),
        },
        Handler::SevenZ => match SevenZHandler.open(src, opts) {
            Ok(x) => Ok(Opened::SevenZ(x)),
            Err(e) => Err(e),
        },
        Handler::Tar => match TarHandler.open(src, opts) {
            Ok(x) => Ok(Opened::Tar(x)),
            Err(e) => Err(e),
        },
        Handler::HfsPlus => match HfsPlusHandler.open(src) {
            Ok(x) => Ok(Opened::HfsPlus(x)),
            Err(e) => Err(e),
        },
        Handler::Apfs => match ApfsHandler.open(src) {
            Ok(x) => Ok(Opened::Apfs(x)),
            Err(e) => Err(e),
        },
        Handler::Wpress => match WpressHandler.open(src, opts) {
            Ok(x) => Ok(Opened::Wpress(x)),
            Err(e) => Err(e),
        },
        Handler::Arj => legacy_opened(ArjHandler.open(src, opts)),
        Handler::Lbr => legacy_opened(LbrHandler.open(src, opts)),
        Handler::Crunch => legacy_opened(CrunchHandler.open(src, opts)),
        Handler::Arc => legacy_opened(ArcHandler.open(src, opts)),
        Handler::Squeeze => legacy_opened(SqueezeHandler.open(src, opts)),
        Handler::AppleSingle => legacy_opened(AppleSingleHandler.open(src, opts)),
        Handler::CompactPro => legacy_opened(CompactProHandler.open(src, opts)),
        Handler::PackIt => legacy_opened(PackItHandler.open(src, opts)),
        Handler::StuffIt5 => legacy_opened(StuffIt5Handler.open(src, opts)),
        Handler::StuffIt => legacy_opened(StuffItHandler.open(src, opts)),
        Handler::StuffItX => legacy_opened(StuffItXHandler.open(src, opts)),
        Handler::Alz => legacy_opened(AlzHandler.open(src, opts)),
        Handler::PowerPacker => legacy_opened(PowerPackerHandler.open(src, opts)),
        Handler::Lzx => legacy_opened(LzxHandler.open(src, opts)),
        Handler::Dms => legacy_opened(DmsHandler.open(src, opts)),
        Handler::BinHex => match BinHexHandler.open(src, opts) {
            Ok(x) => Ok(Opened::Envelope(x)),
            Err(e) => Err(e),
        },
        Handler::MacBinary => match MacBinaryHandler.open(src, opts) {
            Ok(x) => Ok(Opened::Envelope(x)),
            Err(e) => Err(e),
        },
        Handler::Ar => {
            if is_seekable(&src) && !check_long_names(bytes_of(&src)) {
                return Ok(Opened::Unreadable);
            }
            match ArHandler.open(src, opts) {
                Ok(x) => Ok(Opened::Ar(x)),
                Err(e) => Err(e),
            }
        },
        Handler::Rpm => {
            if !check_headers(bytes_of(&src)) {
                return Ok(Opened::Unreadable);
            }
            match RpmHandler.open(src, opts) {
                Ok(x) => Ok(Opened::Rpm(x)),
                Err(e) => Err(e),
            }
        },
        Handler::Wim => {
            if !check_chunk_size(bytes_of(&src)) {
                return Ok(Opened::Unreadable);
            }
            match WimHandler.open(src, opts) {
                Ok(x) => Ok(Opened::Wim(x)),
                Err(e) => Err(e),
            }
        },
        Handler::Deb => {
            if is_seekable(&src) && !check_long_names(bytes_of(&src)) {
                return Ok(Opened::Unreadable);
            }
            match DebHandler.open(src, opts) {
                Ok(x) => Ok(Opened::Deb(x)),
                Err(e) => Err(e),
            }
        },
        Handler::Zoo => {
            if !check_zoo_list(bytes_of(&src)) {
                return Ok(Opened::Unreadable);
            }
            legacy_opened(ZooHandler.open(src, opts))
        },
        Handler::Warc => match WarcHandler.open_readable(src) {
            None => Ok(Opened::Unreadable),
            Some(Ok(x)) => Ok(Opened::Warc(x)),
            Some(Err(e)) => Err(e),
        },
        Handler::Dmg => match DmgHandler.open(&src) {
            Ok(x) => Ok(Opened::Image(x)),
            Err(e) => Err(e),
        },
        Handler::Nsis => legacy_opened(NsisHandler.open(src, opts)),
        _ => Ok(Opened::Elsewhere),
    }
}

} // verus!
