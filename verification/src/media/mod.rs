//! Reading a video container's headers — enough to say what it holds, never a decoded pixel.
//!
//! The `video.*` checks need exactly four facts about a media file: how many frames it holds, at what
//! resolution, in which codec, at what rate. All four live in an MP4's `moov` box, which is metadata —
//! so this module walks the ISO base media file format (ISO/IEC 14496-12) box tree and stops there. No
//! decoder, no `mdat`.
//!
//! The file is untrusted, so the walk is bounded: box sizes are validated against what is actually
//! left in the file rather than believed (so every box advances the cursor and no declared size
//! reaches past the end), the walk is iterative rather than recursive, and only the `moov` box is
//! read into memory — under a ceiling, because its declared size is a number the file chose.

use vstd::prelude::*;
use vstd::slice::*;
use vstd::string::*;

use crate::cat::{cat3, cat5, cat7};
use crate::decimal;
use crate::double;
use crate::number;
use crate::json;
use crate::media::bytes::{fourcc, read_number, read_word};
use crate::text;
use crate::text::dec_u64;

pub mod bytes;
pub mod matroska;

verus! {

/// Ceiling on the `moov` box that is read into memory. Even an hour-long recording's sample tables are
/// a few megabytes, so a file claiming more than this is refused as unreadable rather than allocated
/// for.
pub const MAX_MOOV_BYTES: u64 = 67_108_864;

/// The type `moov`.
pub const MOOV: u32 = 0x6d6f_6f76;

/// The type `mvex`.
pub const MVEX: u32 = 0x6d76_6578;

/// The type `trak`.
pub const TRAK: u32 = 0x7472_616b;

/// The type `mdia`.
pub const MDIA: u32 = 0x6d64_6961;

/// The type `hdlr`.
pub const HDLR: u32 = 0x6864_6c72;

/// The handler type `vide`.
pub const VIDE: u32 = 0x7669_6465;

/// The type `mdhd`.
pub const MDHD: u32 = 0x6d64_6864;

/// The type `minf`.
pub const MINF: u32 = 0x6d69_6e66;

/// The type `stbl`.
pub const STBL: u32 = 0x7374_626c;

/// The type `stsz`.
pub const STSZ: u32 = 0x7374_737a;

/// The type `stz2`.
pub const STZ2: u32 = 0x7374_7a32;

/// The type `stsd`.
pub const STSD: u32 = 0x7374_7364;

/// A frame rate as the container states it: `frames` frames in `duration` units of time, of which
/// there are `scale` in a second.
#[derive(Debug, Clone, Copy, PartialEq, Eq, Structural)]
pub struct FrameRate {
    /// How many frames there are.
    pub frames: u64,
    /// How many units of time there are in a second.
    pub scale: u64,
    /// How many units of time the frames take.
    pub duration: u64,
}

impl FrameRate {
    /// The frames per second, as a double.
    pub open spec fn spec_per_second(self) -> u64 {
        decimal::bits_of(
            double::over(
                double::times(double::whole(self.frames as int), double::whole(self.scale as int)),
                double::whole(self.duration as int),
            ),
        )
    }

    /// The frames per second, as the bits of a double.
    pub fn per_second(self) -> (r: u64)
        requires
            self.duration > 0,
        ensures
            r == self.spec_per_second(),
            r <= number::INFINITY,
    {
        let ticks: i128 = double::product(
            double::to_whole(self.frames as i128),
            double::to_whole(self.scale as i128),
        );
        let rate: i128 = double::quotient(ticks, double::to_whole(self.duration as i128));
        assert(rate >= 0);
        rate as u64
    }
}

/// The encoding parameters of a track, as far as the container states them.
#[derive(Debug)]
pub struct TrackParams {
    /// The codec.
    pub codec: Option<String>,
    /// The width in pixels.
    pub width: Option<u64>,
    /// The height in pixels.
    pub height: Option<u64>,
    /// The frame rate.
    pub rate: Option<FrameRate>,
}

/// What a container's headers say about its video track.
#[derive(Debug)]
pub struct Mp4Probe {
    /// The track's encoding parameters, as far as the container states them.
    pub params: TrackParams,
    /// The video track's sample count — the frames the file holds.
    pub frame_count: Option<u64>,
}

/// What a container's headers say about its video track, whichever the container.
pub type MediaProbe = Mp4Probe;

/// What a probe found.
#[verifier::ext_equal]
pub struct ProbeView {
    /// The codec.
    pub codec: Option<Seq<char>>,
    /// The width in pixels.
    pub width: Option<u64>,
    /// The height in pixels.
    pub height: Option<u64>,
    /// The frame rate.
    pub rate: Option<FrameRate>,
    /// How many frames the file holds.
    pub frame_count: Option<u64>,
}

impl View for Mp4Probe {
    type V = ProbeView;

    open spec fn view(&self) -> ProbeView {
        ProbeView {
            codec: json::opt_view(self.params.codec),
            width: self.params.width,
            height: self.params.height,
            rate: self.params.rate,
            frame_count: self.frame_count,
        }
    }
}

// ---- the top level of the file ---------------------------------------------------------------

/// One box header, as read from the file.
#[derive(Debug, Clone, Copy, PartialEq, Eq, Structural)]
pub struct BoxHeader {
    /// Offset of the box's payload within the file.
    pub payload_offset: u64,
    /// Length of that payload.
    pub payload_len: u64,
    /// The box's four-character type.
    pub kind: u32,
    /// The box declared size 0 — "I run to the end of the file" — so nothing after it is reachable.
    pub open_ended: bool,
}

/// How many bytes of a box header there are to read at an offset: at most sixteen.
pub open spec fn header_bytes(offset: int, file_len: int) -> int {
    if file_len - offset < 16 { file_len - offset } else { 16 }
}

/// The box header at an offset, or why there is none. Every size is validated against the bytes that
/// actually remain.
pub open spec fn header_of(head: Seq<u8>, offset: int, file_len: int) -> Result<BoxHeader, Seq<char>> {
    let left = file_len - offset;
    if left < 8 {
        Err(
            "truncated box header at offset "@ + text::int_text(offset) + ": "@ + text::int_text(left)
                + " bytes left, 8 needed"@,
        )
    } else {
        let size32 = bytes::number_at(head, 0, 4) as int;
        let kind = bytes::word_at(head, 4);
        if size32 == 1 && left < 16 {
            Err(
                "truncated 64-bit box header at offset "@ + text::int_text(offset) + ": "@ + text::int_text(left)
                    + " bytes left, 16 needed"@,
            )
        } else {
            let header_len: int = if size32 == 1 { 16 } else { 8 };
            let total: int = if size32 == 0 {
                left
            } else if size32 == 1 {
                bytes::number_at(head, 8, 8) as int
            } else {
                size32
            };
            if total < header_len {
                Err(
                    "box '"@ + bytes::fourcc_text(kind) + "' at offset "@ + text::int_text(offset) + " declares "@
                        + text::int_text(total) + " bytes, smaller than its own header"@,
                )
            } else if total > left {
                Err(
                    "box '"@ + bytes::fourcc_text(kind) + "' at offset "@ + text::int_text(offset) + " declares "@
                        + text::int_text(total) + " bytes but only "@ + text::int_text(left) + " remain"@,
                )
            } else {
                Ok(
                    (BoxHeader {
                        payload_offset: (offset + header_len) as u64,
                        payload_len: (total - header_len) as u64,
                        kind,
                        open_ended: size32 == 0,
                    }),
                )
            }
        }
    }
}

/// Read one box header at `offset`, from the bytes there.
///
/// Every size is validated against the bytes actually remaining, so a declared size never sends the
/// walk past the end of the file or backwards into a loop.
pub fn read_box_header(head: &[u8], offset: u64, file_len: u64) -> (r: Result<BoxHeader, String>)
    requires
        offset <= file_len,
        head@.len() == header_bytes(offset as int, file_len as int),
    ensures
        match r {
            Ok(h) => header_of(head@, offset as int, file_len as int) == Ok::<BoxHeader, Seq<char>>(h),
            Err(m) => header_of(head@, offset as int, file_len as int) == Err::<BoxHeader, Seq<char>>(m@),
        },
{
    let left: u64 = file_len - offset;
    if left < 8 {
        return Err(
            cat5(
                "truncated box header at offset ",
                dec_u64(offset).as_str(),
                ": ",
                dec_u64(left).as_str(),
                " bytes left, 8 needed",
            ),
        );
    }
    let size32: u64 = read_number(head, 0, 4);
    let kind: u32 = read_word(head, 4);
    if size32 == 1 && left < 16 {
        return Err(
            cat5(
                "truncated 64-bit box header at offset ",
                dec_u64(offset).as_str(),
                ": ",
                dec_u64(left).as_str(),
                " bytes left, 16 needed",
            ),
        );
    }
    let header_len: u64 = if size32 == 1 { 16 } else { 8 };
    let total: u64 = if size32 == 0 {
        left
    } else if size32 == 1 {
        read_number(head, 8, 8)
    } else {
        size32
    };
    if total < header_len {
        return Err(
            cat7(
                "box '",
                fourcc(kind).as_str(),
                "' at offset ",
                dec_u64(offset).as_str(),
                " declares ",
                dec_u64(total).as_str(),
                " bytes, smaller than its own header",
            ),
        );
    }
    if total > left {
        let head: String = cat7(
            "box '",
            fourcc(kind).as_str(),
            "' at offset ",
            dec_u64(offset).as_str(),
            " declares ",
            dec_u64(total).as_str(),
            " bytes but only ",
        );
        return Err(cat3(head.as_str(), dec_u64(left).as_str(), " remain"));
    }
    Ok(
        BoxHeader {
            payload_offset: offset + header_len,
            payload_len: total - header_len,
            kind,
            open_ended: size32 == 0,
        },
    )
}

/// Every box advances the walk, and none reaches past the end of the file.
pub proof fn law_boxes_advance(head: Seq<u8>, offset: int, file_len: int)
    requires
        0 <= offset <= file_len <= u64::MAX,
    ensures
        header_of(head, offset, file_len) matches Ok(h) ==> offset < h.payload_offset && h.payload_offset + h.payload_len
            <= file_len,
{
}

/// Where the walk over a file's top-level boxes stands.
#[derive(Debug, Clone, Copy, PartialEq, Eq, Structural)]
pub struct Scan {
    /// The offset of the next box.
    pub offset: u64,
    /// Whether there was a box.
    pub saw_any_box: bool,
    /// The last box that declared that it runs to the end of the file. Anything written after it is
    /// unreachable by definition, so if the walk ends without a `moov`, the reason is that box.
    pub open_ended: Option<u32>,
}

/// What the walk does next.
#[derive(Debug)]
pub enum Step {
    /// Look at the next box.
    Next,
    /// Read the movie metadata: its offset and its length.
    Moov(u64, u64),
    /// Give up, for a reason.
    Refuse(String),
}

/// What the walk does next.
pub enum StepView {
    /// Look at the next box.
    Next,
    /// Read the movie metadata: its offset and its length.
    Moov(u64, u64),
    /// Give up, for a reason.
    Refuse(Seq<char>),
}

impl View for Step {
    type V = StepView;

    open spec fn view(&self) -> StepView {
        match self {
            Step::Next => StepView::Next,
            Step::Moov(offset, len) => StepView::Moov(*offset, *len),
            Step::Refuse(m) => StepView::Refuse(m@),
        }
    }
}

impl Scan {
    /// A walk at the start of a file.
    pub fn new() -> (r: Self)
        ensures
            r == Self::start(),
    {
        Scan { offset: 0, saw_any_box: false, open_ended: None }
    }

    /// A walk at the start of a file.
    pub open spec fn start() -> Self {
        Scan { offset: 0, saw_any_box: false, open_ended: None }
    }

    /// The walk after the box at its offset, and what it does next.
    pub open spec fn after(self, head: Seq<u8>, file_len: int) -> (Self, StepView) {
        match header_of(head, self.offset as int, file_len) {
            Err(m) => (self, StepView::Refuse(m)),
            Ok(h) => if h.kind == MOOV {
                if h.payload_len > MAX_MOOV_BYTES {
                    (
                        self,
                        StepView::Refuse(
                            "moov box declares "@ + text::dec(h.payload_len as nat) + " bytes, over the "@ + text::dec(
                                MAX_MOOV_BYTES as nat,
                            ) + "-byte ceiling"@,
                        ),
                    )
                } else {
                    (self, StepView::Moov(h.payload_offset, h.payload_len))
                }
            } else {
                (
                    Scan {
                        offset: (h.payload_offset + h.payload_len) as u64,
                        saw_any_box: true,
                        open_ended: if h.open_ended { Some(h.kind) } else { self.open_ended },
                    },
                    StepView::Next,
                )
            },
        }
    }

    /// Looks at the box at the offset, given the bytes there. Top level only — `moov` is always a
    /// top-level box — so this never descends into `mdat`.
    pub fn step(&mut self, head: &[u8], file_len: u64) -> (r: Step)
        requires
            old(self).offset <= file_len,
            head@.len() == header_bytes(old(self).offset as int, file_len as int),
        ensures
            (*final(self), r@) == old(self).after(head@, file_len as int),
            final(self).offset <= file_len,
            r is Next ==> old(self).offset < final(self).offset,
            r matches Step::Moov(offset, len) ==> offset + len <= file_len,
    {
        match read_box_header(head, self.offset, file_len) {
            Err(m) => Step::Refuse(m),
            Ok(h) => {
                proof {
                    law_boxes_advance(head@, self.offset as int, file_len as int);
                }
                if h.kind == MOOV {
                    if h.payload_len > MAX_MOOV_BYTES {
                        return Step::Refuse(
                            cat5(
                                "moov box declares ",
                                dec_u64(h.payload_len).as_str(),
                                " bytes, over the ",
                                dec_u64(MAX_MOOV_BYTES).as_str(),
                                "-byte ceiling",
                            ),
                        );
                    }
                    return Step::Moov(h.payload_offset, h.payload_len);
                }
                self.saw_any_box = true;
                if h.open_ended {
                    self.open_ended = Some(h.kind);
                }
                self.offset = h.payload_offset + h.payload_len;
                Step::Next
            },
        }
    }

    /// Why a walk that reached the end of the file found no movie metadata.
    pub open spec fn absence(self) -> Seq<char> {
        match self.open_ended {
            Some(kind) => "no moov box: the '"@ + bytes::fourcc_text(kind)
                + "' box declares that it runs to the end of the file, so any movie metadata written after it is unreachable"@,
            None => if self.saw_any_box {
                "no moov box: the file's top-level boxes carry no movie metadata"@
            } else {
                "not an MP4 container: the file has no ISO base media boxes"@
            },
        }
    }

    /// Why a walk that reached the end of the file found no movie metadata.
    pub fn absent(&self) -> (r: String)
        ensures
            r@ == self.absence(),
    {
        match self.open_ended {
            Some(kind) => cat3(
                "no moov box: the '",
                fourcc(kind).as_str(),
                "' box declares that it runs to the end of the file, so any movie metadata written after it is unreachable",
            ),
            None => if self.saw_any_box {
                String::from_str("no moov box: the file's top-level boxes carry no movie metadata")
            } else {
                String::from_str("not an MP4 container: the file has no ISO base media boxes")
            },
        }
    }
}

/// The movie metadata of a file, or why there is none.
pub open spec fn moov_of(file: Seq<u8>, scan: Scan) -> Result<Seq<u8>, Seq<char>>
    decreases file.len() - scan.offset,
{
    if scan.offset >= file.len() {
        Err(scan.absence())
    } else {
        let n = header_bytes(scan.offset as int, file.len() as int);
        let (next, step) = scan.after(file.subrange(scan.offset as int, scan.offset + n), file.len() as int);
        match step {
            StepView::Refuse(m) => Err(m),
            StepView::Moov(offset, len) => Ok(file.subrange(offset as int, offset + len)),
            StepView::Next => if scan.offset < next.offset {
                moov_of(file, next)
            } else {
                Err(next.absence())
            },
        }
    }
}

/// Locate the top-level `moov` box of a file.
fn read_moov(file: &[u8]) -> (r: Result<&[u8], String>)
    ensures
        match r {
            Ok(b) => moov_of(file@, Scan::start()) == Ok::<Seq<u8>, Seq<char>>(b@),
            Err(m) => moov_of(file@, Scan::start()) == Err::<Seq<u8>, Seq<char>>(m@),
        },
{
    let len: usize = file.len();
    let mut scan: Scan = Scan::new();
    while scan.offset < len as u64
        invariant
            len == file@.len(),
            scan.offset <= len,
            moov_of(file@, scan) == moov_of(file@, Scan::start()),
        decreases len - scan.offset,
    {
        let at: usize = scan.offset as usize;
        let n: usize = if len - at < 16 { len - at } else { 16 };
        match scan.step(slice_subrange(file, at, at + n), len as u64) {
            Step::Next => {},
            Step::Moov(offset, size) => {
                return Ok(slice_subrange(file, offset as usize, (offset + size) as usize));
            },
            Step::Refuse(m) => {
                return Err(m);
            },
        }
    }
    Err(scan.absent())
}

// ---- boxes in memory -------------------------------------------------------------------------

/// The first box of a buffer: its type, and where its payload starts and ends.
pub open spec fn first_box(s: Seq<u8>) -> Option<(u32, int, int)> {
    if s.len() < 8 {
        None
    } else {
        let size32 = bytes::number_at(s, 0, 4) as int;
        let kind = bytes::word_at(s, 4);
        if size32 == 1 && s.len() < 16 {
            None
        } else {
            let header_len: int = if size32 == 1 { 16 } else { 8 };
            let total: int = if size32 == 0 {
                s.len() as int
            } else if size32 == 1 {
                bytes::number_at(s, 8, 8) as int
            } else {
                size32
            };
            if total < header_len || total > s.len() {
                None
            } else {
                Some((kind, header_len, total))
            }
        }
    }
}

/// The first box of a buffer. A malformed size ends a walk rather than failing the whole probe: a
/// container can carry a box that is not modelled here, and what was already read is still true.
fn read_box(buf: &[u8]) -> (r: Option<(u32, usize, usize)>)
    ensures
        match r {
            Some((kind, start, end)) => first_box(buf@) == Some((kind, start as int, end as int)) && 8 <= start <= end
                <= buf@.len(),
            None => first_box(buf@) is None,
        },
{
    if buf.len() < 8 {
        return None;
    }
    let size32: u64 = read_number(buf, 0, 4);
    let kind: u32 = read_word(buf, 4);
    if size32 == 1 && buf.len() < 16 {
        return None;
    }
    let header_len: u64 = if size32 == 1 { 16 } else { 8 };
    let total: u64 = if size32 == 0 {
        buf.len() as u64
    } else if size32 == 1 {
        read_number(buf, 8, 8)
    } else {
        size32
    };
    if total < header_len || total > buf.len() as u64 {
        return None;
    }
    Some((kind, header_len as usize, total as usize))
}

/// The payload of the first box of a type among those that a buffer holds.
pub open spec fn find_box(s: Seq<u8>, kind: u32) -> Option<Seq<u8>>
    decreases s.len(),
{
    match first_box(s) {
        None => None,
        Some((k, start, end)) => if k == kind {
            Some(s.subrange(start, end))
        } else {
            find_box(s.skip(end), kind)
        },
    }
}

/// What an optional buffer holds.
pub open spec fn held(b: Option<&[u8]>) -> Option<Seq<u8>> {
    match b {
        Some(b) => Some(b@),
        None => None,
    }
}

/// The first child of `buf` with type `kind`.
fn find<'a>(buf: &'a [u8], kind: u32) -> (r: Option<&'a [u8]>)
    ensures
        held(r) == find_box(buf@, kind),
{
    let mut rest: &'a [u8] = buf;
    loop
        invariant
            find_box(buf@, kind) == find_box(rest@, kind),
        decreases rest@.len(),
    {
        match read_box(rest) {
            None => {
                return None;
            },
            Some((k, start, end)) => {
                if k == kind {
                    return Some(slice_subrange(rest, start, end));
                }
                let n: usize = rest.len();
                assert(rest@.subrange(end as int, n as int) =~= rest@.skip(end as int));
                rest = slice_subrange(rest, end, n);
            },
        }
    }
}

/// The payload of a box within a buffer that may be missing.
pub open spec fn find_in(s: Option<Seq<u8>>, kind: u32) -> Option<Seq<u8>> {
    match s {
        Some(s) => find_box(s, kind),
        None => None,
    }
}

/// The payload of a box within a buffer that may be missing.
fn find_inside<'a>(buf: Option<&'a [u8]>, kind: u32) -> (r: Option<&'a [u8]>)
    ensures
        held(r) == find_in(held(buf), kind),
{
    match buf {
        Some(b) => find(b, kind),
        None => None,
    }
}

/// The handler type of a track.
pub open spec fn handler_of(mdia: Seq<u8>) -> Option<u32> {
    match find_box(mdia, HDLR) {
        Some(b) => if b.len() >= 12 { Some(bytes::word_at(b, 8)) } else { None },
        None => None,
    }
}

/// The `hdlr` box's handler type (`vide`, `soun`, …).
fn handler_type(mdia: &[u8]) -> (r: Option<u32>)
    ensures
        r == handler_of(mdia@),
{
    match find(mdia, HDLR) {
        Some(b) => if b.len() >= 12 {
            Some(read_word(b, 8))
        } else {
            None
        },
        None => None,
    }
}

/// The time base of a track and its length in that base. An all-ones duration means that it is not
/// known; taken at face value, the rate derived from it would be a fabrication.
pub open spec fn time_of(mdhd: Seq<u8>) -> Option<(u64, u64)> {
    if mdhd.len() >= 20 && mdhd[0] == 0 {
        let duration = bytes::number_at(mdhd, 16, 4) as u64;
        if duration == 0xffff_ffff {
            None
        } else {
            Some((bytes::number_at(mdhd, 12, 4) as u64, duration))
        }
    } else if mdhd.len() >= 32 && mdhd[0] == 1 {
        let duration = bytes::number_at(mdhd, 24, 8) as u64;
        if duration == 0xffff_ffff_ffff_ffff {
            None
        } else {
            Some((bytes::number_at(mdhd, 20, 4) as u64, duration))
        }
    } else {
        None
    }
}

/// The `mdhd` box's `(timescale, duration)`.
fn media_header(mdhd: &[u8]) -> (r: Option<(u64, u64)>)
    ensures
        r == time_of(mdhd@),
{
    if mdhd.len() >= 20 && mdhd[0] == 0 {
        let duration: u64 = read_number(mdhd, 16, 4);
        if duration == 0xffff_ffff {
            None
        } else {
            Some((read_number(mdhd, 12, 4), duration))
        }
    } else if mdhd.len() >= 32 && mdhd[0] == 1 {
        let duration: u64 = read_number(mdhd, 24, 8);
        if duration == 0xffff_ffff_ffff_ffff {
            None
        } else {
            Some((read_number(mdhd, 20, 4), duration))
        }
    } else {
        None
    }
}

/// The time base of a track and its length.
pub open spec fn media_time(mdia: Seq<u8>) -> Option<(u64, u64)> {
    match find_box(mdia, MDHD) {
        Some(b) => time_of(b),
        None => None,
    }
}

/// How many samples a table of sample sizes, or a compact one, counts.
pub open spec fn count_of(stbl: Option<Seq<u8>>) -> Option<u64> {
    let table = match find_in(stbl, STSZ) {
        Some(b) => Some(b),
        None => find_in(stbl, STZ2),
    };
    match table {
        Some(b) => if b.len() >= 12 { Some(bytes::number_at(b, 8, 4) as u64) } else { None },
        None => None,
    }
}

/// A sample-size box's sample count — the frames the track holds. An encoder's choice between the two
/// tables must not decide whether the count is read.
fn sample_count(stbl: Option<&[u8]>) -> (r: Option<u64>)
    ensures
        r == count_of(held(stbl)),
{
    let table: Option<&[u8]> = match find_inside(stbl, STSZ) {
        Some(b) => Some(b),
        None => find_inside(stbl, STZ2),
    };
    match table {
        Some(b) => if b.len() >= 12 {
            Some(read_number(b, 8, 4))
        } else {
            None
        },
        None => None,
    }
}

/// The codec, width and height of the first entry of a sample description.
pub open spec fn entry_of(stsd: Option<Seq<u8>>) -> Option<(Seq<char>, u64, u64)> {
    match stsd {
        None => None,
        Some(b) => if b.len() < 8 {
            None
        } else {
            match first_box(b.skip(8)) {
                None => None,
                Some((kind, start, end)) => {
                    let payload = b.skip(8).subrange(start, end);
                    if payload.len() < 28 {
                        None
                    } else {
                        Some(
                            (
                                bytes::fourcc_text(kind),
                                bytes::number_at(payload, 24, 2) as u64,
                                bytes::number_at(payload, 26, 2) as u64,
                            ),
                        )
                    }
                },
            }
        },
    }
}

/// What an entry of a sample description says.
pub open spec fn entry_view(e: Option<(String, u64, u64)>) -> Option<(Seq<char>, u64, u64)> {
    match e {
        Some((codec, width, height)) => Some((codec@, width, height)),
        None => None,
    }
}

/// The first `stsd` entry's `(codec fourcc, width, height)`.
fn sample_entry(stsd: Option<&[u8]>) -> (r: Option<(String, u64, u64)>)
    ensures
        entry_view(r) == entry_of(held(stsd)),
{
    match stsd {
        None => None,
        Some(b) => {
            let n: usize = b.len();
            if n < 8 {
                return None;
            }
            let entries: &[u8] = slice_subrange(b, 8, n);
            assert(entries@ =~= b@.skip(8));
            match read_box(entries) {
                None => None,
                Some((kind, start, end)) => {
                    let payload: &[u8] = slice_subrange(entries, start, end);
                    if payload.len() < 28 {
                        None
                    } else {
                        Some((fourcc(kind), read_number(payload, 24, 2), read_number(payload, 26, 2)))
                    }
                },
            }
        },
    }
}

/// What a video track's media box says; a fragmented file keeps its sample tables elsewhere, so that
/// an empty table there is no count. A zero or absent time base or duration yields no rate rather than
/// a division that fabricates one.
pub open spec fn track_of(mdia: Seq<u8>, fragmented: bool) -> ProbeView {
    let stbl = find_in(find_box(mdia, MINF), STBL);
    let frame_count = if fragmented { None } else { count_of(stbl) };
    let entry = entry_of(find_in(stbl, STSD));
    ProbeView {
        codec: match entry {
            Some(e) => Some(e.0),
            None => None,
        },
        width: match entry {
            Some(e) => Some(e.1),
            None => None,
        },
        height: match entry {
            Some(e) => Some(e.2),
            None => None,
        },
        rate: match (frame_count, media_time(mdia)) {
            (Some(frames), Some((scale, duration))) => if scale > 0 && duration > 0 {
                Some(FrameRate { frames, scale, duration })
            } else {
                None
            },
            _ => None,
        },
        frame_count,
    }
}

/// What the first video track among some boxes says. A track that cannot be walked is skipped: a good
/// video track may follow it.
pub open spec fn video_of(s: Seq<u8>, fragmented: bool) -> Option<ProbeView>
    decreases s.len(),
{
    match first_box(s) {
        None => None,
        Some((kind, start, end)) => {
            let mdia = find_box(s.subrange(start, end), MDIA);
            if kind == TRAK && mdia is Some && handler_of(mdia->0) == Some(VIDE) {
                Some(track_of(mdia->0, fragmented))
            } else {
                video_of(s.skip(end), fragmented)
            }
        },
    }
}

/// What a video track's media box says.
fn read_track(mdia: &[u8], fragmented: bool) -> (r: Mp4Probe)
    ensures
        r@ == track_of(mdia@, fragmented),
{
    let stbl: Option<&[u8]> = find_inside(find(mdia, MINF), STBL);
    let frame_count: Option<u64> = if fragmented { None } else { sample_count(stbl) };
    let time: Option<(u64, u64)> = match find(mdia, MDHD) {
        Some(b) => media_header(b),
        None => None,
    };
    let rate: Option<FrameRate> = match (frame_count, time) {
        (Some(frames), Some((scale, duration))) => if scale > 0 && duration > 0 {
            Some(FrameRate { frames, scale, duration })
        } else {
            None
        },
        _ => None,
    };
    let (codec, width, height): (Option<String>, Option<u64>, Option<u64>) = match sample_entry(
        find_inside(stbl, STSD),
    ) {
        Some((c, w, h)) => (Some(c), Some(w), Some(h)),
        None => (None, None, None),
    };
    Mp4Probe { params: TrackParams { codec, width, height, rate }, frame_count }
}

/// The video track's parameters, from the first `trak` whose handler is `vide`: picking by position
/// keeps the probe a pure function of the bytes, so the same file always probes identically.
pub fn video_track(moov: &[u8]) -> (r: Option<Mp4Probe>)
    ensures
        match r {
            Some(p) => video_of(moov@, find_box(moov@, MVEX) is Some) == Some(p@),
            None => video_of(moov@, find_box(moov@, MVEX) is Some) is None,
        },
{
    let fragmented: bool = find(moov, MVEX).is_some();
    let mut rest: &[u8] = moov;
    loop
        invariant
            fragmented == (find_box(moov@, MVEX) is Some),
            video_of(moov@, fragmented) == video_of(rest@, fragmented),
        decreases rest@.len(),
    {
        match read_box(rest) {
            None => {
                return None;
            },
            Some((kind, start, end)) => {
                if kind == TRAK {
                    if let Some(mdia) = find(slice_subrange(rest, start, end), MDIA) {
                        if handler_type(mdia) == Some(VIDE) {
                            return Some(read_track(mdia, fragmented));
                        }
                    }
                }
                let n: usize = rest.len();
                assert(rest@.subrange(end as int, n as int) =~= rest@.skip(end as int));
                rest = slice_subrange(rest, end, n);
            },
        }
    }
}

/// What the metadata of a movie says about its video track, or why nothing.
pub open spec fn probed(moov: Result<Seq<u8>, Seq<char>>) -> Result<ProbeView, Seq<char>> {
    match moov {
        Err(m) => Err(m),
        Ok(b) => match video_of(b, find_box(b, MVEX) is Some) {
            Some(p) => Ok(p),
            None => Err(
                "no video track: the container's moov box declares no track with a 'vide' handler"@,
            ),
        },
    }
}

/// Report what the video track holds whose metadata is in a `moov` box.
pub fn probe_moov(moov: &[u8]) -> (r: Result<Mp4Probe, String>)
    ensures
        match r {
            Ok(p) => probed(Ok(moov@)) == Ok::<ProbeView, Seq<char>>(p@),
            Err(m) => probed(Ok(moov@)) == Err::<ProbeView, Seq<char>>(m@),
        },
{
    match video_track(moov) {
        Some(p) => Ok(p),
        None => Err(
            String::from_str(
                "no video track: the container's moov box declares no track with a 'vide' handler",
            ),
        ),
    }
}

/// Read an MP4 file's headers and report what its video track holds.
///
/// Returns `Err` with a human-readable reason when the file is not a readable MP4: that reason is what
/// `VIDEO.MEDIA_UNREADABLE` reports, so it names the specific structure that was wrong rather than
/// "parse error".
pub fn probe_mp4(file: &[u8]) -> (r: Result<Mp4Probe, String>)
    ensures
        match r {
            Ok(p) => probed(moov_of(file@, Scan::start())) == Ok::<ProbeView, Seq<char>>(p@),
            Err(m) => probed(moov_of(file@, Scan::start())) == Err::<ProbeView, Seq<char>>(m@),
        },
{
    match read_moov(file) {
        Ok(moov) => probe_moov(moov),
        Err(m) => Err(m),
    }
}

} // verus!
