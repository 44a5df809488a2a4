//! Single-file compression: whole streams decoded in memory, and the member
//! framing of lzip.
use vstd::prelude::*;
use vstd::arithmetic::power2;
use vstd::string::StringExecFns;

use std::io::Read;
use xz2::stream::Stream;

use crate::bytes;
use crate::error;
use crate::text;
use crate::bytes::{copy_range, le_u64, push_le_u32, starts_with};
use crate::error::{io_error, IoError, IoKind};
use crate::text::decimal_text;

verus! {

/// The compressors that are told apart.
#[derive(Debug, Clone, Copy, PartialEq, Eq, Structural)]
pub enum Compressor {
    Gzip,
    Bzip2,
    Xz,
    Zstd,
    /// Bare LZMA, which has no mark in its content: known by its extension only.
    Lzma,
    /// The LZW of `compress`, `.Z`.
    Lzc,
    Lz4,
    /// Brotli, which has no mark in its content: known by its extension only.
    Brotli,
    /// Framed Snappy.
    Snappy,
    /// LZMA in lzip's own framing, possibly of several members.
    Lzip,
}

/// What `flate2::read::MultiGzDecoder` reads to its end.
pub uninterp spec fn gzip_decoded(bytes: Seq<u8>) -> Result<Seq<u8>, (IoKind, Seq<char>)>;

/// What `bzip2::read::MultiBzDecoder` reads to its end.
pub uninterp spec fn bzip2_decoded(bytes: Seq<u8>) -> Result<Seq<u8>, (IoKind, Seq<char>)>;

/// What `xz2::read::XzDecoder::new_multi_decoder` reads to its end.
pub uninterp spec fn xz_decoded(bytes: Seq<u8>) -> Result<Seq<u8>, (IoKind, Seq<char>)>;

/// What `zstd::stream::read::Decoder` reads to its end.
pub uninterp spec fn zstd_decoded(bytes: Seq<u8>) -> Result<Seq<u8>, (IoKind, Seq<char>)>;

/// What `xz2::read::XzDecoder` over a stream of `Stream::new_lzma_decoder` reads to its end.
pub uninterp spec fn lzma_decoded(bytes: Seq<u8>) -> Result<Seq<u8>, (IoKind, Seq<char>)>;

/// What `lz4_flex::frame::FrameDecoder` reads to its end.
pub uninterp spec fn lz4_decoded(bytes: Seq<u8>) -> Result<Seq<u8>, (IoKind, Seq<char>)>;

/// What `brotli_decompressor::Decompressor` reads to its end.
pub uninterp spec fn brotli_decoded(bytes: Seq<u8>) -> Result<Seq<u8>, (IoKind, Seq<char>)>;

/// What `snap::read::FrameDecoder` reads to its end.
pub uninterp spec fn snappy_decoded(bytes: Seq<u8>) -> Result<Seq<u8>, (IoKind, Seq<char>)>;

/// One decoded content behind another.
pub open spec fn joined(a: Result<Seq<u8>, (IoKind, Seq<char>)>, b: Result<Seq<u8>, (IoKind, Seq<char>)>) -> Result<
    Seq<u8>,
    (IoKind, Seq<char>),
> {
    match (a, b) {
        (Ok(x), Ok(y)) => Ok(x + y),
        (Err(f), _) => Err(f),
        (_, Err(f)) => Err(f),
    }
}

/// The first byte of an xz stream, by which liblzma tells it from bare LZMA.
pub const XZ_FIRST: u8 = 0xFD;

/// `flate2::read::MultiGzDecoder`, every member read to the end: what comes out
/// depends on the bytes alone. Behind a member it reads the next one, until the
/// input ends there: of two inputs that decode, put together, it gives both contents.
#[verifier::external_body]
pub(crate) fn decode_gzip(bytes: &[u8]) -> (r: Result<Vec<u8>, IoError>)
    ensures
        error::io_bytes(r) == gzip_decoded(bytes@),
        forall|k: int|
            0 <= k <= bytes@.len() && gzip_decoded(#[trigger] bytes@.take(k)) is Ok && gzip_decoded(bytes@.skip(k)) is Ok
                ==> error::io_bytes(r) == joined(gzip_decoded(bytes@.take(k)), gzip_decoded(bytes@.skip(k))),
{
    let mut out = Vec::new();
    match flate2::read::MultiGzDecoder::new(bytes).read_to_end(&mut out) {
        Ok(_) => Ok(out),
        Err(e) => Err(io_error(e)),
    }
}

/// `bzip2::read::MultiBzDecoder`, every member read to the end: what comes out
/// depends on the bytes alone. Behind a member it makes a new decoder, until the
/// input ends there: of two inputs that decode, put together, it gives both contents.
#[verifier::external_body]
fn decode_bzip2(bytes: &[u8]) -> (r: Result<Vec<u8>, IoError>)
    ensures
        error::io_bytes(r) == bzip2_decoded(bytes@),
        forall|k: int|
            0 <= k <= bytes@.len() && bzip2_decoded(#[trigger] bytes@.take(k)) is Ok && bzip2_decoded(bytes@.skip(k)) is Ok
                ==> error::io_bytes(r) == joined(bzip2_decoded(bytes@.take(k)), bzip2_decoded(bytes@.skip(k))),
{
    let mut out = Vec::new();
    match bzip2::read::MultiBzDecoder::new(bytes).read_to_end(&mut out) {
        Ok(_) => Ok(out),
        Err(e) => Err(io_error(e)),
    }
}

/// `xz2::read::XzDecoder::new_multi_decoder`, every stream read to the end: what
/// comes out depends on the bytes alone. It asks liblzma to go on behind a stream
/// with the next one: of two inputs of xz streams that decode, put together, it gives
/// both contents. Bare LZMA, which it reads too, ends the input.
#[verifier::external_body]
fn decode_xz(bytes: &[u8]) -> (r: Result<Vec<u8>, IoError>)
    ensures
        error::io_bytes(r) == xz_decoded(bytes@),
        forall|k: int|
            0 < k < bytes@.len() && bytes@[0] == XZ_FIRST && bytes@[k] == XZ_FIRST && xz_decoded(
                #[trigger] bytes@.take(k),
            ) is Ok && xz_decoded(bytes@.skip(k)) is Ok ==> error::io_bytes(r) == joined(
                xz_decoded(bytes@.take(k)),
                xz_decoded(bytes@.skip(k)),
            ),
{
    let mut out = Vec::new();
    match xz2::read::XzDecoder::new_multi_decoder(bytes).read_to_end(&mut out) {
        Ok(_) => Ok(out),
        Err(e) => Err(io_error(e)),
    }
}

/// `zstd::stream::read::Decoder`, every frame read to the end: what comes out
/// depends on the bytes alone. It starts afresh behind a frame, until the input ends
/// there: of two inputs that decode, put together, it gives both contents.
#[verifier::external_body]
fn decode_zstd(bytes: &[u8]) -> (r: Result<Vec<u8>, IoError>)
    ensures
        error::io_bytes(r) == zstd_decoded(bytes@),
        forall|k: int|
            0 <= k <= bytes@.len() && zstd_decoded(#[trigger] bytes@.take(k)) is Ok && zstd_decoded(bytes@.skip(k)) is Ok
                ==> error::io_bytes(r) == joined(zstd_decoded(bytes@.take(k)), zstd_decoded(bytes@.skip(k))),
{
    let mut out = Vec::new();
    match zstd::stream::read::Decoder::new(bytes).and_then(|mut d| d.read_to_end(&mut out)) {
        Ok(_) => Ok(out),
        Err(e) => Err(io_error(e)),
    }
}

/// `xz2::read::XzDecoder` over `Stream::new_lzma_decoder` without a memory
/// limit: what comes out depends on the bytes alone.
#[verifier::external_body]
fn decode_lzma(bytes: &[u8]) -> (r: Result<Vec<u8>, IoError>)
    ensures
        error::io_bytes(r) == lzma_decoded(bytes@),
{
    let mut out = Vec::new();
    let read = Stream::new_lzma_decoder(u64::MAX).map_err(std::io::Error::from).and_then(
        |s| xz2::read::XzDecoder::new_stream(bytes, s).read_to_end(&mut out),
    );
    match read {
        Ok(_) => Ok(out),
        Err(e) => Err(io_error(e)),
    }
}

/// `lz4_flex::frame::FrameDecoder`, read to the end: what comes out depends on
/// the bytes alone.
#[verifier::external_body]
fn decode_lz4(bytes: &[u8]) -> (r: Result<Vec<u8>, IoError>)
    ensures
        error::io_bytes(r) == lz4_decoded(bytes@),
{
    let mut out = Vec::new();
    match lz4_flex::frame::FrameDecoder::new(bytes).read_to_end(&mut out) {
        Ok(_) => Ok(out),
        Err(e) => Err(io_error(e)),
    }
}

/// `brotli_decompressor::Decompressor` with a buffer of 4096 bytes, read to the
/// end: what comes out depends on the bytes alone.
#[verifier::external_body]
fn decode_brotli(bytes: &[u8]) -> (r: Result<Vec<u8>, IoError>)
    ensures
        error::io_bytes(r) == brotli_decoded(bytes@),
{
    let mut out = Vec::new();
    match brotli_decompressor::Decompressor::new(bytes, 4096).read_to_end(&mut out) {
        Ok(_) => Ok(out),
        Err(e) => Err(io_error(e)),
    }
}

/// `snap::read::FrameDecoder`, read to the end: what comes out depends on the
/// bytes alone.
#[verifier::external_body]
fn decode_snappy(bytes: &[u8]) -> (r: Result<Vec<u8>, IoError>)
    ensures
        error::io_bytes(r) == snappy_decoded(bytes@),
{
    let mut out = Vec::new();
    match snap::read::FrameDecoder::new(bytes).read_to_end(&mut out) {
        Ok(_) => Ok(out),
        Err(e) => Err(io_error(e)),
    }
}

/// `LZIP`, at the start of every member.
pub const LZIP_MAGIC: [u8; 4] = [0x4C, 0x5A, 0x49, 0x50];

pub const LZIP_VERSION: u8 = 1;

pub const LZIP_HEADER_LEN: usize = 6;

pub const LZIP_TRAILER_LEN: usize = 20;

/// The LZMA properties that lzip fixes: three literal context bits, no literal
/// position bits, two position bits.
pub const LZIP_LZMA_PROPS: u8 = 93;

/// How a step of the LZMA decoder ended.
#[derive(Debug, Clone, Copy, PartialEq, Eq, Structural)]
pub enum LzmaStatus {
    /// There may be more.
    More,
    /// The end-of-stream marker was read.
    End,
    /// The decoder said something else.
    Other,
}

/// What one step of the LZMA decoder gave: the bytes it put out, how many it
/// took in, and how it ended.
pub struct LzmaStep {
    pub out: Vec<u8>,
    pub used: usize,
    pub status: LzmaStatus,
}

/// An `LzmaStep` with its bytes as a sequence.
pub struct StepView {
    pub out: Seq<u8>,
    pub used: int,
    pub status: LzmaStatus,
}

/// The outcome of a step.
pub open spec fn step_view(r: Result<LzmaStep, IoError>) -> Result<StepView, (IoKind, Seq<char>)> {
    match r {
        Ok(s) => Ok(StepView { out: s.out@, used: s.used as int, status: s.status }),
        Err(e) => Err((e.kind, e.message@)),
    }
}

/// liblzma's decoder, as `xz2` holds it.
#[verifier::external_type_specification]
#[verifier::external_body]
pub struct ExStream(Stream);

/// The calls that a decoder of bare LZMA has been given: the bytes it took, and the
/// room for output.
pub uninterp spec fn lzma_calls(s: Stream) -> Seq<(Seq<u8>, int)>;

/// What a decoder of bare LZMA answers to one more call of `Stream::process`.
pub uninterp spec fn lzma_answer(calls: Seq<(Seq<u8>, int)>, input: Seq<u8>, room: int) -> Result<
    StepView,
    (IoKind, Seq<char>),
>;

/// `Stream::new_lzma_decoder` without a memory limit: a decoder that has been
/// given nothing. It fails only where no memory can be had for it.
#[verifier::external_body]
fn new_lzma() -> (r: Result<Stream, IoError>)
    ensures
        r is Ok,
        lzma_calls(r->Ok_0) == Seq::<(Seq<u8>, int)>::empty(),
{
    Stream::new_lzma_decoder(u64::MAX).map_err(|e| io_error(e.into()))
}

/// `Stream::process` with the action `Run`: what it answers depends on the calls
/// before it and on this one. It takes no more than it is offered, and gives no
/// more than there is room for. The decoder asks for its bytes one by one: where it
/// would leave some of the first few, it does the same when it is offered more.
#[verifier::external_body]
fn lzma_step(s: &mut Stream, input: &[u8], room: usize) -> (r: Result<LzmaStep, IoError>)
    ensures
        step_view(r) == lzma_answer(lzma_calls(*old(s)), input@, room as int),
        r is Ok ==> r->Ok_0.used <= input@.len() && r->Ok_0.out@.len() <= room,
        r is Ok ==> lzma_calls(*final(s)) == lzma_calls(*old(s)).push((input@.take(r->Ok_0.used as int), room as int)),
        forall|k: int|
            0 <= k <= input@.len() ==> (lzma_answer(lzma_calls(*old(s)), #[trigger] input@.take(k), room as int) matches Ok(
                x,
            ) ==> 0 <= x.used <= k && (x.used < k ==> step_view(r) == Ok::<StepView, (IoKind, Seq<char>)>(x))),
{
    let mut out = vec![0u8; room];
    let (before_in, before_out) = (s.total_in(), s.total_out());
    let done = s.process(input, &mut out, xz2::stream::Action::Run);
    let used = (s.total_in() - before_in) as usize;
    out.truncate((s.total_out() - before_out) as usize);
    match done {
        Ok(xz2::stream::Status::StreamEnd) => Ok(LzmaStep { out, used, status: LzmaStatus::End }),
        Ok(xz2::stream::Status::Ok) => Ok(LzmaStep { out, used, status: LzmaStatus::More }),
        Ok(_) => Ok(LzmaStep { out, used, status: LzmaStatus::Other }),
        Err(e) => Err(io_error(e.into())),
    }
}

/// A fault in lzip's framing.
pub open spec fn lzip_fault(message: Seq<char>) -> (IoKind, Seq<char>) {
    (IoKind::InvalidData, "lzip: "@ + message)
}

/// A fault in lzip's framing.
fn corrupt(message: &str) -> (r: IoError)
    ensures
        (r.kind, r.message@) == lzip_fault(message@),
{
    IoError { kind: IoKind::InvalidData, message: "lzip: ".to_owned().concat(message) }
}

/// The exponent of a coded dictionary size.
pub open spec fn dict_exponent(coded: u8) -> int {
    coded as int % 32
}

/// The dictionary size that a member's header codes: a power of two less some
/// sixteenths of it.
pub open spec fn dict_size(coded: u8) -> int {
    let base = power2::pow2(dict_exponent(coded) as nat) as int;
    base - base / 16 * (coded as int / 32)
}

/// The power of two that holds a dictionary of that size, and no smaller one does.
pub open spec fn rounded_dict(coded: u8) -> int {
    power2::pow2(dict_exponent(coded) as nat) as int
}

/// The rounded size is the least power of two that is no less than the size.
pub proof fn rounded_dict_is_least(coded: u8)
    requires
        12 <= dict_exponent(coded) <= 29,
    ensures
        dict_size(coded) <= rounded_dict(coded),
        2 * dict_size(coded) > rounded_dict(coded),
{
    let e = dict_exponent(coded) as nat;
    let base = power2::pow2(e) as int;
    vstd::arithmetic::power2::lemma_pow2_adds(4, (e - 4) as nat);
    vstd::arithmetic::power2::lemma2_to64();
    let unit = power2::pow2((e - 4) as nat) as int;
    let k = coded as int / 32;
    assert(base == 16 * unit);
    assert(base / 16 == unit);
    assert(unit * k <= unit * 7 && unit * k >= 0) by (nonlinear_arith)
        requires
            0 <= k <= 7,
            unit > 0,
    ;
    vstd::arithmetic::power2::lemma_pow2_pos((e - 4) as nat);
}

/// The dictionary size of the member that begins with `left`, rounded up, or
/// the fault of its header.
pub open spec fn member_head(left: Seq<u8>) -> Result<int, (IoKind, Seq<char>)> {
    if left.len() < LZIP_HEADER_LEN {
        Err(lzip_fault("truncated member header"@))
    } else if !bytes::stands_at(left, 0, LZIP_MAGIC@) {
        Err(lzip_fault("member header magic mismatch"@))
    } else if left[4] != LZIP_VERSION {
        Err(lzip_fault("unsupported format version "@ + text::decimal(left[4] as nat)))
    } else if !(12 <= dict_exponent(left[5]) <= 29) {
        Err(
            lzip_fault(
                "dictionary size exponent "@ + text::decimal(dict_exponent(left[5]) as nat) + " outside 12..=29"@,
            ),
        )
    } else {
        Ok(rounded_dict(left[5]))
    }
}

/// The header of bare LZMA for a dictionary size, with no decoded size given.
pub open spec fn alone_header(dict: int) -> Seq<u8> {
    seq![LZIP_LZMA_PROPS] + bytes::le32_bytes(dict) + seq![255u8, 255, 255, 255, 255, 255, 255, 255]
}

/// Read a member's header.
pub fn parse_member_head(left: &[u8]) -> (r: Result<u32, IoError>)
    ensures
        match r {
            Ok(d) => member_head(left@) == Ok::<int, (IoKind, Seq<char>)>(d as int),
            Err(e) => member_head(left@) == Err::<int, (IoKind, Seq<char>)>((e.kind, e.message@)),
        },
{
    if left.len() < LZIP_HEADER_LEN {
        return Err(corrupt("truncated member header"));
    }
    if !starts_with(left, &LZIP_MAGIC) {
        return Err(corrupt("member header magic mismatch"));
    }
    if left[4] != LZIP_VERSION {
        let v = decimal_text(left[4] as u64);
        let m = "unsupported format version ".to_owned().concat(v.as_str());
        return Err(corrupt(m.as_str()));
    }
    let exponent: u8 = left[5] % 32;
    if exponent < 12 || exponent > 29 {
        let v = decimal_text(exponent as u64);
        let m = "dictionary size exponent ".to_owned().concat(v.as_str()).concat(" outside 12..=29");
        return Err(corrupt(m.as_str()));
    }
    let mut dict: u32 = 4096;
    let mut e: u8 = 12;
    proof {
        vstd::arithmetic::power2::lemma2_to64();
    }
    while e < exponent
        invariant
            12 <= e <= exponent <= 29,
            dict == power2::pow2(e as nat),
            dict <= 0x2000_0000,
        decreases exponent - e,
    {
        proof {
            vstd::arithmetic::power2::lemma_pow2_unfold((e + 1) as nat);
            vstd::arithmetic::power2::lemma2_to64();
            if e + 1 < 29 {
                vstd::arithmetic::power2::lemma_pow2_strictly_increases((e + 1) as nat, 29);
            }
        }
        dict = dict * 2;
        e = e + 1;
    }
    Ok(dict)
}

/// The header of bare LZMA for a dictionary size.
pub fn make_alone_header(dict: u32) -> (r: Vec<u8>)
    ensures
        r@ == alone_header(dict as int),
{
    let mut v: Vec<u8> = Vec::new();
    v.push(LZIP_LZMA_PROPS);
    push_le_u32(&mut v, dict);
    let ones: [u8; 8] = [255, 255, 255, 255, 255, 255, 255, 255];
    v.extend_from_slice(&ones);
    assert(v@ =~= alone_header(dict as int));
    v
}

/// Where a reader of lzip stands.
#[derive(Debug, Clone, Copy, PartialEq, Eq, Structural)]
pub enum LzipState {
    /// Between members.
    Header,
    /// In a member's LZMA stream.
    Body,
    /// Before a member's trailer.
    Trailer,
    /// At the end of the input, between members.
    Done,
    /// After a failure.
    Failed,
}

/// Everything that decides what a reader of lzip does next.
pub struct LzipView {
    /// The input that is not read yet.
    pub left: Seq<u8>,
    /// What is left of the header made for the decoder.
    pub pending: Seq<u8>,
    /// The calls that the member's decoder has been given.
    pub calls: Seq<(Seq<u8>, int)>,
    pub state: LzipState,
    /// The bytes that the member has decoded to so far.
    pub member_out: int,
}

/// `s` without its first `n` bytes, where it has that many.
pub open spec fn cut(s: Seq<u8>, n: int) -> Seq<u8> {
    if 0 <= n <= s.len() { s.skip(n) } else { s }
}

pub open spec fn rank(state: LzipState) -> int {
    if state == LzipState::Body { 1 } else { 0 }
}

/// The reader after a failure.
pub open spec fn after_failure(v: LzipView) -> LzipView {
    LzipView { state: LzipState::Failed, ..v }
}

/// The reader that begins a member.
pub open spec fn in_member(v: LzipView, dict: int) -> LzipView {
    LzipView {
        left: v.left.skip(LZIP_HEADER_LEN as int),
        pending: alone_header(dict),
        calls: Seq::empty(),
        state: LzipState::Body,
        member_out: 0,
    }
}

/// The fault of a trailer, or `None` where it fits the member.
pub open spec fn trailer_fault(left: Seq<u8>, member_out: int) -> Option<(IoKind, Seq<char>)> {
    if left.len() < LZIP_TRAILER_LEN {
        Some(lzip_fault("truncated member trailer"@))
    } else if bytes::le64(left, 4) != member_out {
        Some(
            lzip_fault(
                "member declares "@ + text::decimal(bytes::le64(left, 4) as nat) + " uncompressed bytes, decoded "@ + text::decimal(
                    member_out as nat,
                ),
            ),
        )
    } else {
        None
    }
}

/// The bytes that the next step of the decoder is offered.
pub open spec fn offered(v: LzipView) -> Seq<u8> {
    if v.pending.len() > 0 { v.pending } else { v.left }
}

/// The reader after a step of the decoder.
pub open spec fn after_step(v: LzipView, room: int, s: StepView) -> LzipView {
    LzipView {
        left: if v.pending.len() > 0 { v.left } else { cut(v.left, s.used) },
        pending: cut(v.pending, if v.pending.len() > 0 { s.used } else { 0 }),
        calls: v.calls.push((offered(v).take(s.used), room)),
        state: if s.status == LzmaStatus::End { LzipState::Trailer } else { LzipState::Body },
        member_out: v.member_out + s.out.len(),
    }
}

/// A read: the bytes it gives (none at the end of the input) or its failure, and
/// the reader after it.
pub open spec fn lzip_read(v: LzipView, room: int) -> (Result<Seq<u8>, (IoKind, Seq<char>)>, LzipView)
    decreases v.left.len(), v.pending.len(), rank(v.state),
{
    match v.state {
        LzipState::Done => (Ok(Seq::empty()), v),
        LzipState::Failed => (Err(lzip_fault("stream already failed"@)), v),
        LzipState::Header => if v.left.len() == 0 {
            (Ok(Seq::empty()), LzipView { state: LzipState::Done, ..v })
        } else {
            match member_head(v.left) {
                Err(f) => (Err(f), after_failure(v)),
                Ok(dict) => lzip_read(in_member(v, dict), room),
            }
        },
        LzipState::Trailer => match trailer_fault(v.left, v.member_out) {
            Some(f) => (Err(f), after_failure(v)),
            None => lzip_read(
                LzipView { left: v.left.skip(LZIP_TRAILER_LEN as int), state: LzipState::Header, ..v },
                room,
            ),
        },
        LzipState::Body => {
            let input = offered(v);
            if input.len() == 0 {
                (Err(lzip_fault("truncated member: no end-of-stream marker"@)), after_failure(v))
            } else {
                match lzma_answer(v.calls, input, room) {
                    Err(f) => (Err(f), after_failure(v)),
                    Ok(s) => {
                        let w = after_step(v, room, s);
                        if w.member_out > u64::MAX {
                            (Err(lzip_fault("member too long"@)), after_failure(v))
                        } else if s.status == LzmaStatus::Other {
                            (Err(lzip_fault("decoder returned an unknown status"@)), after_failure(v))
                        } else if s.out.len() > 0 {
                            (Ok(s.out), w)
                        } else if w.state == LzipState::Body && w.left.len() == v.left.len() && w.pending.len()
                            == v.pending.len() {
                            (Err(lzip_fault("decoder stalled"@)), after_failure(v))
                        } else {
                            lzip_read(w, room)
                        }
                    },
                }
            }
        },
    }
}

/// The next step of the decoder takes no more than it is offered; and where it would
/// leave some of the first `k` bytes, it does the same with all of them.
pub open spec fn step_is_prompt(v: LzipView, room: int) -> bool {
    forall|k: int|
        0 <= k <= offered(v).len() ==> (lzma_answer(v.calls, #[trigger] offered(v).take(k), room) matches Ok(s) ==> 0 <= s.used
            <= k && (s.used < k ==> lzma_answer(v.calls, offered(v), room) == Ok::<StepView, (IoKind, Seq<char>)>(s)))
}

/// Every step that a read makes is such a one.
pub open spec fn read_is_prompt(v: LzipView, room: int) -> bool
    decreases v.left.len(), v.pending.len(), rank(v.state),
{
    match v.state {
        LzipState::Done => true,
        LzipState::Failed => true,
        LzipState::Header => v.left.len() > 0 ==> (member_head(v.left) matches Ok(dict) ==> read_is_prompt(
            in_member(v, dict),
            room,
        )),
        LzipState::Trailer => trailer_fault(v.left, v.member_out) is None ==> read_is_prompt(
            LzipView { left: v.left.skip(LZIP_TRAILER_LEN as int), state: LzipState::Header, ..v },
            room,
        ),
        LzipState::Body => offered(v).len() > 0 ==> step_is_prompt(v, room) && (lzma_answer(v.calls, offered(v), room) matches Ok(
            s,
        ) ==> {
            let w = after_step(v, room, s);
            w.member_out > u64::MAX || s.status == LzmaStatus::Other || s.out.len() > 0 || (w.state == LzipState::Body
                && w.left.len() == v.left.len() && w.pending.len() == v.pending.len()) || read_is_prompt(w, room)
        }),
    }
}

/// Reads lzip streams, members joined.
pub struct LzipReader {
    inner: Vec<u8>,
    pos: usize,
    pending: Vec<u8>,
    pending_pos: usize,
    stream: Option<Stream>,
    state: LzipState,
    member_out: u64,
}

impl View for LzipReader {
    type V = LzipView;

    closed spec fn view(&self) -> LzipView {
        LzipView {
            left: self.inner@.skip(self.pos as int),
            pending: self.pending@.skip(self.pending_pos as int),
            calls: match self.stream {
                Some(s) => lzma_calls(s),
                None => Seq::empty(),
            },
            state: self.state,
            member_out: self.member_out as int,
        }
    }
}

/// A reader that has read nothing of `bytes`.
pub open spec fn fresh(bytes: Seq<u8>) -> LzipView {
    LzipView {
        left: bytes,
        pending: Seq::empty(),
        calls: Seq::empty(),
        state: LzipState::Header,
        member_out: 0,
    }
}

impl LzipReader {
    /// The places lie within what they count.
    pub closed spec fn wf(&self) -> bool {
        &&& self.pos <= self.inner.len()
        &&& self.pending_pos <= self.pending.len()
        &&& self.state == LzipState::Body ==> self.stream is Some
    }

    pub fn new(inner: Vec<u8>) -> (r: LzipReader)
        ensures
            r.wf(),
            r@ == fresh(inner@),
    {
        let r = LzipReader {
            inner,
            pos: 0,
            pending: Vec::new(),
            pending_pos: 0,
            stream: None,
            state: LzipState::Header,
            member_out: 0,
        };
        proof {
            assert(r@.left =~= inner@);
            assert(r@.pending =~= Seq::<u8>::empty());
        }
        r
    }

    /// Begin the member whose header is next, with the decoder that was made for it.
    fn start_member(&mut self, dict: u32, stream: Stream)
        requires
            old(self).wf(),
            old(self)@.left.len() >= LZIP_HEADER_LEN,
            lzma_calls(stream) == Seq::<(Seq<u8>, int)>::empty(),
        ensures
            final(self).wf(),
            final(self)@ == in_member(old(self)@, dict as int),
    {
        self.pos = self.pos + LZIP_HEADER_LEN;
        self.pending = make_alone_header(dict);
        self.pending_pos = 0;
        self.stream = Some(stream);
        self.state = LzipState::Body;
        self.member_out = 0;
        proof {
            assert(self@.left =~= old(self)@.left.skip(LZIP_HEADER_LEN as int));
            assert(self@.pending =~= alone_header(dict as int));
        }
    }

    /// Take the member's trailer and hold its size against what was decoded.
    fn advance_trailer(&mut self) -> (r: Result<(), IoError>)
        requires
            old(self).wf(),
            old(self)@.state == LzipState::Trailer,
        ensures
            final(self).wf(),
            match trailer_fault(old(self)@.left, old(self)@.member_out) {
                Some(f) => r matches Err(e) && (e.kind, e.message@) == f && final(self)@ == old(self)@,
                None => r is Ok && final(self)@ == (LzipView {
                    left: old(self)@.left.skip(LZIP_TRAILER_LEN as int),
                    state: LzipState::Header,
                    ..old(self)@
                }),
            },
    {
        if self.inner.len() - self.pos < LZIP_TRAILER_LEN {
            return Err(corrupt("truncated member trailer"));
        }
        let declared: u64 = le_u64(self.inner.as_slice(), self.pos + 4);
        proof {
            assert(bytes::le64(self@.left, 4) == bytes::le64(self.inner@, self.pos + 4));
        }
        if declared != self.member_out {
            let a = decimal_text(declared);
            let b = decimal_text(self.member_out);
            let m = "member declares ".to_owned().concat(a.as_str()).concat(" uncompressed bytes, decoded ").concat(
                b.as_str(),
            );
            return Err(corrupt(m.as_str()));
        }
        self.pos = self.pos + LZIP_TRAILER_LEN;
        self.state = LzipState::Header;
        proof {
            assert(self@.left =~= old(self)@.left.skip(LZIP_TRAILER_LEN as int));
        }
        Ok(())
    }
}

impl LzipReader {
    /// The next step of the decoder, and what it makes of the reader.
    fn body_step(&mut self, room: usize) -> (r: Result<LzmaStep, IoError>)
        requires
            old(self).wf(),
            old(self)@.state == LzipState::Body,
            offered(old(self)@).len() > 0,
        ensures
            final(self).wf(),
            step_is_prompt(old(self)@, room as int),
            match lzma_answer(old(self)@.calls, offered(old(self)@), room as int) {
                Err(f) => r matches Err(e) && (e.kind, e.message@) == f && final(self)@.state == LzipState::Body
                    && final(self)@.left == old(self)@.left && final(self)@.pending == old(self)@.pending
                    && final(self)@.member_out == old(self)@.member_out,
                Ok(s) => r matches Ok(step) && step_view(r) == Ok::<StepView, (IoKind, Seq<char>)>(s) && s.used
                    <= offered(old(self)@).len() && ({
                    let w = after_step(old(self)@, room as int, s);
                    &&& final(self)@.left == w.left
                    &&& final(self)@.pending == w.pending
                    &&& final(self)@.calls == w.calls
                    &&& final(self)@.state == LzipState::Body
                    &&& final(self)@.member_out == old(self)@.member_out
                }),
            },
    {
        let from_pending = self.pending_pos < self.pending.len();
        match self.stream.take() {
            None => Err(corrupt("decoder missing")),
            Some(mut stream) => {
                let input: &[u8] = if from_pending {
                    &self.pending.as_slice()[self.pending_pos..self.pending.len()]
                } else {
                    &self.inner.as_slice()[self.pos..self.inner.len()]
                };
                proof {
                    assert(input@ =~= offered(old(self)@));
                }
                let step = lzma_step(&mut stream, input, room);
                self.stream = Some(stream);
                match step {
                    Err(e) => Err(e),
                    Ok(s) => {
                        if from_pending {
                            self.pending_pos = self.pending_pos + s.used;
                        } else {
                            self.pos = self.pos + s.used;
                        }
                        proof {
                            let w = after_step(old(self)@, room as int, step_view(Ok(s))->Ok_0);
                            assert(self@.left =~= w.left);
                            assert(self@.pending =~= w.pending);
                        }
                        Ok(s)
                    },
                }
            },
        }
    }

    /// Read on until there is output, the input ends between members, or
    /// something fails.
    fn read_member_loop(&mut self, room: usize) -> (r: Result<Vec<u8>, IoError>)
        requires
            old(self).wf(),
        ensures
            final(self).wf(),
            ({
                let (x, w) = lzip_read(old(self)@, room as int);
                error::io_bytes(r) == x && (x is Ok ==> final(self)@ == w)
            }),
            read_is_prompt(old(self)@, room as int),
    {
        let ghost first = lzip_read(self@, room as int);
        loop
            invariant
                self.wf(),
                first == lzip_read(old(self)@, room as int),
                read_is_prompt(self@, room as int) ==> read_is_prompt(old(self)@, room as int),
                lzip_read(self@, room as int) == first,
            decreases self@.left.len(), self@.pending.len(), rank(self@.state),
        {
            match self.state {
                LzipState::Done => {
                    let none: Vec<u8> = Vec::new();
                    assert(none@ =~= Seq::<u8>::empty());
                    return Ok(none);
                },
                LzipState::Failed => {
                    return Err(corrupt("stream already failed"));
                },
                LzipState::Header => {
                    if self.pos == self.inner.len() {
                        self.state = LzipState::Done;
                        let none: Vec<u8> = Vec::new();
                        assert(none@ =~= Seq::<u8>::empty());
                        return Ok(none);
                    }
                    let left: &[u8] = &self.inner.as_slice()[self.pos..self.inner.len()];
                    assert(left@ =~= self@.left);
                    match parse_member_head(left) {
                        Err(e) => {
                            return Err(e);
                        },
                        Ok(dict) => {
                            match new_lzma() {
                                Err(e) => {
                                    return Err(e);
                                },
                                Ok(stream) => {
                                    self.start_member(dict, stream);
                                },
                            }
                        },
                    }
                },
                LzipState::Trailer => {
                    match self.advance_trailer() {
                        Err(e) => {
                            return Err(e);
                        },
                        Ok(()) => {},
                    }
                },
                LzipState::Body => {
                    if self.pending_pos == self.pending.len() && self.pos == self.inner.len() {
                        return Err(corrupt("truncated member: no end-of-stream marker"));
                    }
                    let ghost v = self@;
                    match self.body_step(room) {
                        Err(e) => {
                            return Err(e);
                        },
                        Ok(step) => {
                            if step.out.len() as u64 > u64::MAX - self.member_out {
                                return Err(corrupt("member too long"));
                            }
                            self.member_out = self.member_out + step.out.len() as u64;
                            match step.status {
                                LzmaStatus::Other => {
                                    return Err(corrupt("decoder returned an unknown status"));
                                },
                                LzmaStatus::End => {
                                    self.state = LzipState::Trailer;
                                },
                                LzmaStatus::More => {},
                            }
                            if step.out.len() > 0 {
                                return Ok(step.out);
                            }
                            if step.used == 0 && matches!(self.state, LzipState::Body) {
                                return Err(corrupt("decoder stalled"));
                            }
                        },
                    }
                },
            }
        }
    }

    /// Read at most `room` bytes: some of what is left, or none at the end of
    /// the input. Once a read has failed, every read fails.
    pub fn read(&mut self, room: usize) -> (r: Result<Vec<u8>, IoError>)
        requires
            old(self).wf(),
        ensures
            final(self).wf(),
            room == 0 ==> r is Ok && r->Ok_0@.len() == 0 && final(self)@ == old(self)@,
            room > 0 ==> ({
                let (x, w) = lzip_read(old(self)@, room as int);
                error::io_bytes(r) == x && (x is Ok ==> final(self)@ == w)
            }),
            room > 0 ==> read_is_prompt(old(self)@, room as int),
            r is Err ==> final(self)@.state == LzipState::Failed,
    {
        if room == 0 {
            return Ok(Vec::new());
        }
        match self.read_member_loop(room) {
            Ok(v) => Ok(v),
            Err(e) => {
                self.state = LzipState::Failed;
                Err(e)
            },
        }
    }
}

/// A reader that has failed stays failed.
pub proof fn failed_reader_stays_failed(v: LzipView, room: int)
    requires
        v.state == LzipState::Failed,
    ensures
        lzip_read(v, room).0 is Err,
        lzip_read(v, room).1 == v,
{
}

/// A read that gives output leaves less to do: less input, or room in the count
/// of the member's bytes.
proof fn read_leaves_less(v: LzipView, room: int)
    requires
        0 <= v.member_out <= u64::MAX,
    ensures
        ({
            let (x, w) = lzip_read(v, room);
            x is Ok ==> 0 <= w.member_out <= u64::MAX && (x->Ok_0.len() > 0 ==> {
                ||| w.left.len() < v.left.len()
                ||| w.left.len() == v.left.len() && w.pending.len() < v.pending.len()
                ||| w.left.len() == v.left.len() && w.pending.len() == v.pending.len() && rank(w.state) < rank(v.state)
                ||| w.left.len() == v.left.len() && w.pending.len() == v.pending.len() && rank(w.state) == rank(v.state)
                    && w.member_out > v.member_out
            })
        }),
    decreases v.left.len(), v.pending.len(), rank(v.state),
{
    match v.state {
        LzipState::Header => {
            if v.left.len() > 0 && member_head(v.left) is Ok {
                read_leaves_less(in_member(v, member_head(v.left)->Ok_0), room);
            }
        },
        LzipState::Trailer => {
            if trailer_fault(v.left, v.member_out) is None {
                read_leaves_less(
                    LzipView { left: v.left.skip(LZIP_TRAILER_LEN as int), state: LzipState::Header, ..v },
                    room,
                );
            }
        },
        LzipState::Body => {
            let input = offered(v);
            if input.len() > 0 && lzma_answer(v.calls, input, room) is Ok {
                let s = lzma_answer(v.calls, input, room)->Ok_0;
                let w = after_step(v, room, s);
                if w.member_out <= u64::MAX && s.status != LzmaStatus::Other && s.out.len() == 0 && !(w.state
                    == LzipState::Body && w.left.len() == v.left.len() && w.pending.len() == v.pending.len()) {
                    read_leaves_less(w, room);
                }
            }
        },
        _ => {},
    }
}

/// What a reader gives, read by read of `room` bytes, until its input ends.
pub open spec fn lzip_all(v: LzipView, room: int) -> Result<Seq<u8>, (IoKind, Seq<char>)>
    decreases v.left.len(), v.pending.len(), rank(v.state), u64::MAX - v.member_out,
    when 0 <= v.member_out <= u64::MAX
    via lzip_all_ends
{
    let (x, w) = lzip_read(v, room);
    match x {
        Err(f) => Err(f),
        Ok(b) => if b.len() == 0 {
            Ok(Seq::empty())
        } else {
            match lzip_all(w, room) {
                Ok(rest) => Ok(b + rest),
                Err(f) => Err(f),
            }
        },
    }
}

#[via_fn]
proof fn lzip_all_ends(v: LzipView, room: int) {
    read_leaves_less(v, room);
}

/// Every read of them is made of such steps.
pub open spec fn all_is_prompt(v: LzipView, room: int) -> bool
    decreases v.left.len(), v.pending.len(), rank(v.state), u64::MAX - v.member_out,
    when 0 <= v.member_out <= u64::MAX
    via all_is_prompt_ends
{
    let (x, w) = lzip_read(v, room);
    read_is_prompt(v, room) && (x is Ok && x->Ok_0.len() > 0 ==> all_is_prompt(w, room))
}

#[via_fn]
proof fn all_is_prompt_ends(v: LzipView, room: int) {
    read_leaves_less(v, room);
}

/// The same reader, with more behind its input.
pub open spec fn with_more(v: LzipView, more: Seq<u8>) -> LzipView {
    LzipView { left: v.left + more, ..v }
}

/// Between members a reader does what a new one does with the rest of its input.
proof fn header_starts_afresh(v: LzipView, room: int)
    requires
        0 <= v.member_out <= u64::MAX,
        v.state == LzipState::Header,
    ensures
        lzip_all(v, room) == lzip_all(fresh(v.left), room),
{
    let f = fresh(v.left);
    if v.left.len() > 0 && member_head(v.left) is Ok {
        let dict = member_head(v.left)->Ok_0;
        assert(in_member(v, dict) == in_member(f, dict));
        assert(lzip_read(v, room) == lzip_read(f, room));
    }
}

/// A header that can be read can be with more behind it.
proof fn header_is_read_alike(v: LzipView, more: Seq<u8>, room: int)
    requires
        0 <= v.member_out <= u64::MAX,
        v.state == LzipState::Header,
        v.left.len() > 0,
        lzip_all(v, room) is Ok,
        all_is_prompt(with_more(v, more), room),
    ensures
        ({
            let w = in_member(v, member_head(v.left)->Ok_0);
            &&& v.left.len() >= LZIP_HEADER_LEN
            &&& lzip_all(v, room) == lzip_all(w, room)
            &&& lzip_all(with_more(v, more), room) == lzip_all(with_more(w, more), room)
            &&& all_is_prompt(with_more(w, more), room)
        }),
{
    let e = with_more(v, more);
    let dict = member_head(v.left)->Ok_0;
    assert(member_head(v.left) is Ok);
    assert(bytes::stands_at(e.left, 0, LZIP_MAGIC@)) by {
        assert(e.left.subrange(0, 4) =~= v.left.subrange(0, 4));
    }
    assert(e.left[4] == v.left[4] && e.left[5] == v.left[5]);
    assert(member_head(e.left) == member_head(v.left));
    let w = in_member(v, dict);
    let x = in_member(e, dict);
    assert(x.left =~= with_more(w, more).left);
    assert(x == with_more(w, more));
    assert(lzip_read(v, room) == lzip_read(w, room));
    assert(lzip_read(e, room) == lzip_read(x, room));
}

/// So can a trailer.
proof fn trailer_is_read_alike(v: LzipView, more: Seq<u8>, room: int)
    requires
        0 <= v.member_out <= u64::MAX,
        v.state == LzipState::Trailer,
        lzip_all(v, room) is Ok,
        all_is_prompt(with_more(v, more), room),
    ensures
        ({
            let w = LzipView { left: v.left.skip(LZIP_TRAILER_LEN as int), state: LzipState::Header, ..v };
            &&& v.left.len() >= LZIP_TRAILER_LEN
            &&& lzip_all(v, room) == lzip_all(w, room)
            &&& lzip_all(with_more(v, more), room) == lzip_all(with_more(w, more), room)
            &&& all_is_prompt(with_more(w, more), room)
        }),
{
    let e = with_more(v, more);
    assert(trailer_fault(v.left, v.member_out) is None);
    assert(bytes::le64(e.left, 4) == bytes::le64(v.left, 4));
    assert(trailer_fault(e.left, e.member_out) is None);
    let w = LzipView { left: v.left.skip(LZIP_TRAILER_LEN as int), state: LzipState::Header, ..v };
    let x = LzipView { left: e.left.skip(LZIP_TRAILER_LEN as int), state: LzipState::Header, ..e };
    assert(x.left =~= with_more(w, more).left);
    assert(x == with_more(w, more));
    assert(lzip_read(v, room) == lzip_read(w, room));
    assert(lzip_read(e, room) == lzip_read(x, room));
}

/// A reader whose input decodes does so too with more behind it, and goes on with that.
proof fn more_is_read_on(v: LzipView, more: Seq<u8>, room: int)
    requires
        0 <= v.member_out <= u64::MAX,
        v.state != LzipState::Done,
        lzip_all(v, room) is Ok,
        all_is_prompt(with_more(v, more), room),
    ensures
        lzip_all(with_more(v, more), room) == joined(lzip_all(v, room), lzip_all(fresh(more), room)),
    decreases v.left.len(), v.pending.len(), rank(v.state), u64::MAX - v.member_out, 1int,
{
    match v.state {
        LzipState::Done => {},
        LzipState::Failed => {},
        LzipState::Header => {
            if v.left.len() == 0 {
                let e = with_more(v, more);
                assert(e.left =~= more);
                header_starts_afresh(e, room);
                match lzip_all(fresh(more), room) {
                    Ok(b) => assert(Seq::<u8>::empty() + b =~= b),
                    Err(_) => {},
                }
            } else {
                header_is_read_alike(v, more, room);
                more_is_read_on(in_member(v, member_head(v.left)->Ok_0), more, room);
            }
        },
        LzipState::Trailer => {
            trailer_is_read_alike(v, more, room);
            more_is_read_on(
                LzipView { left: v.left.skip(LZIP_TRAILER_LEN as int), state: LzipState::Header, ..v },
                more,
                room,
            );
        },
        LzipState::Body => {
            more_is_read_on_in_member(v, more, room);
        },
    }
}

proof fn more_is_read_on_in_member(v: LzipView, more: Seq<u8>, room: int)
    requires
        0 <= v.member_out <= u64::MAX,
        v.state == LzipState::Body,
        lzip_all(v, room) is Ok,
        all_is_prompt(with_more(v, more), room),
    ensures
        lzip_all(with_more(v, more), room) == joined(lzip_all(v, room), lzip_all(fresh(more), room)),
    decreases v.left.len(), v.pending.len(), 1int, u64::MAX - v.member_out, 0int,
{
    let e = with_more(v, more);
    read_leaves_less(v, room);
    let input = offered(v);
    assert(input.len() > 0);
    let s = lzma_answer(v.calls, input, room)->Ok_0;
    let w = after_step(v, room, s);
    if v.pending.len() == 0 {
        assert(offered(e).take(input.len() as int) =~= input);
        assert(step_is_prompt(e, room));
        if s.used == input.len() {
            assert(w.left.len() == 0 && w.pending.len() == 0);
            assert(lzip_read(w, room).0 is Err);
            assert(false);
        }
        assert(cut(e.left, s.used) =~= cut(v.left, s.used) + more);
        assert(offered(e).take(s.used) =~= input.take(s.used));
    } else {
        assert(offered(e) == input);
    }
    let x = after_step(e, room, s);
    assert(x.left =~= with_more(w, more).left);
    assert(x == with_more(w, more));
    if s.out.len() > 0 {
        more_is_read_on(w, more, room);
        match (lzip_all(w, room), lzip_all(fresh(more), room)) {
            (Ok(a), Ok(b)) => assert(s.out + (a + b) =~= (s.out + a) + b),
            _ => {},
        }
    } else {
        assert(lzip_all(v, room) == lzip_all(w, room));
        assert(lzip_all(e, room) == lzip_all(x, room));
        more_is_read_on(w, more, room);
    }
}

/// The room of one read.
pub const LZIP_ROOM: usize = 65536;

/// What an lzip file decodes to: its members, joined.
pub open spec fn lzip_decoded(bytes: Seq<u8>) -> Result<Seq<u8>, (IoKind, Seq<char>)> {
    lzip_all(fresh(bytes), LZIP_ROOM as int)
}

/// Decode an lzip file.
pub fn decode_lzip(bytes: &[u8]) -> (r: Result<Vec<u8>, IoError>)
    ensures
        error::io_bytes(r) == lzip_decoded(bytes@),
        forall|k: int|
            0 <= k <= bytes@.len() && lzip_decoded(#[trigger] bytes@.take(k)) is Ok && lzip_decoded(bytes@.skip(k)) is Ok
                ==> error::io_bytes(r) == joined(lzip_decoded(bytes@.take(k)), lzip_decoded(bytes@.skip(k))),
{
    let r = decode_all(bytes);
    proof {
        assert forall|k: int|
            0 <= k <= bytes@.len() && lzip_decoded(#[trigger] bytes@.take(k)) is Ok && lzip_decoded(
                bytes@.skip(k),
            ) is Ok implies lzip_decoded(bytes@) == joined(lzip_decoded(bytes@.take(k)), lzip_decoded(bytes@.skip(k))) by {
            assert(bytes@.take(k) + bytes@.skip(k) =~= bytes@);
            assert(with_more(fresh(bytes@.take(k)), bytes@.skip(k)) == fresh(bytes@));
            more_is_read_on(fresh(bytes@.take(k)), bytes@.skip(k), LZIP_ROOM as int);
        }
    }
    r
}

/// Read an lzip file to its end.
fn decode_all(bytes: &[u8]) -> (r: Result<Vec<u8>, IoError>)
    ensures
        error::io_bytes(r) == lzip_decoded(bytes@),
        all_is_prompt(fresh(bytes@), LZIP_ROOM as int),
{
    let mut reader = LzipReader::new(copy_range(bytes, 0, bytes.len()));
    let mut out: Vec<u8> = Vec::new();
    let ghost room = LZIP_ROOM as int;
    let ghost whole = lzip_decoded(bytes@);
    proof {
        assert(reader@.left =~= bytes@);
        match whole {
            Ok(b) => assert(out@ + b =~= b),
            Err(f) => {},
        }
    }
    loop
        invariant
            reader.wf(),
            0 <= reader@.member_out <= u64::MAX,
            room == LZIP_ROOM,
            whole == lzip_decoded(bytes@),
            all_is_prompt(reader@, room) ==> all_is_prompt(fresh(bytes@), room),
            whole == (match lzip_all(reader@, room) {
                Ok(rest) => Ok(out@ + rest),
                Err(f) => Err(f),
            }),
        decreases reader@.left.len(), reader@.pending.len(), rank(reader@.state), u64::MAX - reader@.member_out,
    {
        let ghost v = reader@;
        proof {
            read_leaves_less(v, room);
        }
        match reader.read(LZIP_ROOM) {
            Err(e) => {
                return Err(e);
            },
            Ok(piece) => {
                if piece.len() == 0 {
                    proof {
                        assert(out@ + Seq::<u8>::empty() =~= out@);
                    }
                    return Ok(out);
                }
                let ghost before = out@;
                out.extend_from_slice(piece.as_slice());
                proof {
                    assert(out@ =~= before + piece@);
                    match lzip_all(reader@, room) {
                        Ok(rest) => assert(before + (piece@ + rest) =~= out@ + rest),
                        Err(f) => {},
                    }
                }
            },
        }
    }
}

/// What a compressed file decodes to.
pub open spec fn decompressed(kind: Compressor, bytes: Seq<u8>) -> Result<Seq<u8>, (IoKind, Seq<char>)> {
    match kind {
        Compressor::Gzip => gzip_decoded(bytes),
        Compressor::Bzip2 => bzip2_decoded(bytes),
        Compressor::Xz => xz_decoded(bytes),
        Compressor::Zstd => zstd_decoded(bytes),
        Compressor::Lzma => lzma_decoded(bytes),
        Compressor::Lz4 => lz4_decoded(bytes),
        Compressor::Brotli => brotli_decoded(bytes),
        Compressor::Snappy => snappy_decoded(bytes),
        Compressor::Lzip => lzip_decoded(bytes),
        Compressor::Lzc => Err((IoKind::Other, Seq::empty())),
    }
}

/// Two files of that kind can be put together: gzip, bzip2, zstd and lzip are made of
/// members that follow one another, and so is xz where neither is bare LZMA.
pub open spec fn can_follow(kind: Compressor, a: Seq<u8>, b: Seq<u8>) -> bool {
    match kind {
        Compressor::Gzip | Compressor::Bzip2 | Compressor::Zstd | Compressor::Lzip => true,
        Compressor::Xz => a.len() > 0 && b.len() > 0 && a[0] == XZ_FIRST && b[0] == XZ_FIRST,
        _ => false,
    }
}

/// Of files put together, the contents one behind the other.
pub open spec fn joins(kind: Compressor, bytes: Seq<u8>, r: Result<Seq<u8>, (IoKind, Seq<char>)>) -> bool {
    forall|k: int|
        0 <= k <= bytes.len() && can_follow(kind, #[trigger] bytes.take(k), bytes.skip(k)) && decompressed(
            kind,
            bytes.take(k),
        ) is Ok && decompressed(kind, bytes.skip(k)) is Ok ==> r == joined(
            decompressed(kind, bytes.take(k)),
            decompressed(kind, bytes.skip(k)),
        )
}

/// Decode a compressed file; of files put together, the contents one behind the
/// other. The LZW of `compress` is decoded elsewhere.
pub fn decompressor(kind: Compressor, bytes: &[u8]) -> (r: Result<Vec<u8>, IoError>)
    requires
        kind != Compressor::Lzc,
    ensures
        error::io_bytes(r) == decompressed(kind, bytes@),
        joins(kind, bytes@, error::io_bytes(r)),
{
    match kind {
        Compressor::Gzip => decode_gzip(bytes),
        Compressor::Bzip2 => decode_bzip2(bytes),
        Compressor::Xz => decode_xz(bytes),
        Compressor::Zstd => decode_zstd(bytes),
        Compressor::Lzma => decode_lzma(bytes),
        Compressor::Lz4 => decode_lz4(bytes),
        Compressor::Snappy => decode_snappy(bytes),
        Compressor::Brotli => decode_brotli(bytes),
        Compressor::Lzip => decode_lzip(bytes),
        Compressor::Lzc => Err(IoError { kind: IoKind::Other, message: String::new() }),
    }
}

/// A member begins with `LZIP`, the version 1 and a byte whose lower five bits are the
/// exponent of the dictionary's size: from 12 to 29, nothing else. The decoder gets the
/// size as a power of two.
#[verifier::rlimit(40)]
pub proof fn member_heads_read_back(head: Seq<u8>, exponent: int, fraction: int, rest: Seq<u8>)
    requires
        0 <= exponent < 32,
        0 <= fraction < 8,
        head == seq![0x4Cu8, 0x5A, 0x49, 0x50, 1, (fraction * 32 + exponent) as u8],
    ensures
        match member_head(head + rest) {
            Ok(dict) => 12 <= exponent <= 29 && dict == power2::pow2(exponent as nat),
            Err(_) => exponent < 12 || exponent > 29,
        },
        12 <= exponent <= 29 ==> 16 * dict_size((fraction * 32 + exponent) as u8) == (16 - fraction) * power2::pow2(
            exponent as nat,
        ),
{
    let left = head + rest;
    let coded = (fraction * 32 + exponent) as u8;
    assert(left.subrange(0, 4) =~= LZIP_MAGIC@);
    assert(left[4] == 1 && left[5] == coded);
    assert(coded as int % 32 == exponent && coded as int / 32 == fraction);
    if 12 <= exponent <= 29 {
        let base = power2::pow2(exponent as nat) as int;
        power2::lemma_pow2_adds(4, (exponent - 4) as nat);
        power2::lemma2_to64();
        let unit = power2::pow2((exponent - 4) as nat) as int;
        assert(base == 16 * unit);
        assert(base / 16 == unit);
        assert(16 * (base - unit * fraction) == (16 - fraction) * base) by (nonlinear_arith)
            requires
                base == 16 * unit,
        ;
    }
}

/// Any other start of a member, and one of another version, is refused.
pub proof fn other_heads_are_refused(left: Seq<u8>)
    requires
        left.len() < 6 || left.take(5) != seq![0x4Cu8, 0x5A, 0x49, 0x50, 1],
    ensures
        member_head(left) is Err,
{
    if left.len() >= 6 && bytes::stands_at(left, 0, LZIP_MAGIC@) && left[4] == 1 {
        let m = left.subrange(0, 4);
        assert(m =~= LZIP_MAGIC@);
        assert(left[0] == m[0] && left[1] == m[1] && left[2] == m[2] && left[3] == m[3]);
        assert(left.take(5) =~= seq![0x4Cu8, 0x5A, 0x49, 0x50, 1]);
    }
}

/// A member ends with twenty bytes, of which eight, behind the first four, say how many
/// bytes it decodes to. It is in order where that is so.
pub proof fn trailers_tell_the_length(left: Seq<u8>, told: int, member_out: int)
    requires
        left.len() >= 20,
        0 <= told <= u64::MAX,
        bytes::stands_at(left, 4, bytes::low_first(told, 8)),
    ensures
        (trailer_fault(left, member_out) is None) == (told == member_out),
        trailer_fault(left.take(19), member_out) is Some,
{
    bytes::standing_numbers_are_read(left, 4, told);
}

/// The decoder of a member is given a header of its own: three literal context bits, no
/// literal position bits and two position bits, the size of the dictionary, and a length
/// that is not known.
pub proof fn decoder_is_told_the_dictionary(dict: int)
    requires
        0 <= dict <= u32::MAX,
    ensures
        ({
            let h = alone_header(dict);
            &&& h.len() == 13
            &&& h[0] == (2 * 5 + 0) * 9 + 3
            &&& bytes::le32(h, 1) == dict
            &&& forall|k: int| 5 <= k < 13 ==> #[trigger] h[k] == 0xFF
        }),
{
    let h = alone_header(dict);
    let four = bytes::le32_bytes(dict);
    bytes::le32_reads_back(dict);
    assert(h[1] == four[0] && h[2] == four[1] && h[3] == four[2] && h[4] == four[3]);
}

/// Each kind of compression has a decoder of its own.
pub proof fn each_compressor_has_its_decoder(bytes: Seq<u8>)
    ensures
        decompressed(Compressor::Gzip, bytes) == gzip_decoded(bytes),
        decompressed(Compressor::Bzip2, bytes) == bzip2_decoded(bytes),
        decompressed(Compressor::Xz, bytes) == xz_decoded(bytes),
        decompressed(Compressor::Zstd, bytes) == zstd_decoded(bytes),
        decompressed(Compressor::Lzma, bytes) == lzma_decoded(bytes),
        decompressed(Compressor::Lz4, bytes) == lz4_decoded(bytes),
        decompressed(Compressor::Brotli, bytes) == brotli_decoded(bytes),
        decompressed(Compressor::Snappy, bytes) == snappy_decoded(bytes),
        decompressed(Compressor::Lzip, bytes) == lzip_decoded(bytes),
        decompressed(Compressor::Lzc, bytes) is Err,
{
}

} // verus!
