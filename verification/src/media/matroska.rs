//! Reading a Matroska (`.mkv`) or WebM container's headers — the same four facts, none of the pixels.
//!
//! Matroska keeps what the `video.*` checks need in three places: the `Tracks` element states the
//! codec and the encoded resolution, `DefaultDuration` states the nominal frame interval, and the
//! frames themselves are `SimpleBlock`/`Block` elements inside the `Cluster`s. Unlike an MP4, a
//! Matroska file carries **no sample table** — nothing anywhere states how many frames it holds — so
//! the count is obtained the only way the format allows: by walking the cluster tree and reading each
//! block's *header*. The block payloads are passed over, never read, so this stays a metadata walk.
//!
//! The file is untrusted, so every declared size is validated against the bytes that actually remain
//! rather than believed, the walk is iterative rather than recursive, and the two elements read into
//! memory (the EBML header and a `Tracks` element) are read under ceilings, because their sizes are
//! numbers the file chose. The walk itself reads nothing: it says which bytes it wants, and goes on
//! when it is given them.

use vstd::prelude::*;
use vstd::slice::*;
use vstd::string::*;

use crate::cat::{cat2, cat3, cat6, cat9};
use crate::json;
use crate::media::bytes;
use crate::media::bytes::{printable, read_string, to_hex_number, to_number};
use crate::media::{FrameRate, MediaProbe, Mp4Probe, ProbeView, TrackParams};
use crate::text;
use crate::text::{dec_u64, same};

verus! {

// Ids are compared as their encoded bytes, marker bit included.

/// The id of an EBML header.
pub const ID_EBML: u64 = 0x1A45_DFA3;

/// The id of a document type.
pub const ID_DOC_TYPE: u64 = 0x4282;

/// The id of a segment.
pub const ID_SEGMENT: u64 = 0x1853_8067;

/// The id of the tracks.
pub const ID_TRACKS: u64 = 0x1654_AE6B;

/// The id of a track.
pub const ID_TRACK_ENTRY: u64 = 0xAE;

/// The id of a track's number.
pub const ID_TRACK_NUMBER: u64 = 0xD7;

/// The id of a track's type.
pub const ID_TRACK_TYPE: u64 = 0x83;

/// The id of a track's codec.
pub const ID_CODEC_ID: u64 = 0x86;

/// The id of a track's frame interval.
pub const ID_DEFAULT_DURATION: u64 = 0x0023_E383;

/// The id of what is particular to a video track.
pub const ID_VIDEO: u64 = 0xE0;

/// The id of the width.
pub const ID_PIXEL_WIDTH: u64 = 0xB0;

/// The id of the height.
pub const ID_PIXEL_HEIGHT: u64 = 0xBA;

/// The id of a cluster.
pub const ID_CLUSTER: u64 = 0x1F43_B675;

/// The id of a block that stands alone.
pub const ID_SIMPLE_BLOCK: u64 = 0xA3;

/// The id of a group of blocks.
pub const ID_BLOCK_GROUP: u64 = 0xA0;

/// The id of a block in a group.
pub const ID_BLOCK: u64 = 0xA1;

/// `TrackType` for a video track.
pub const TRACK_TYPE_VIDEO: u64 = 1;

/// Ceiling on the EBML header and on a `Tracks` element read into memory. Both are metadata a writer
/// emits once; a file declaring more than this is refused rather than allocated for.
pub const MAX_ELEMENT_BYTES: u64 = 16_777_216;

/// Ceiling on the blocks counted before the walk gives up and reports no count. Reaching it yields
/// *no* count rather than the partial one, because a count that stopped early is a mismatch against
/// every honest episode.
pub const MAX_BLOCKS: u64 = 20_000_000;

/// Distinct track numbers whose blocks are counted. A recording carries a handful; a file naming more
/// than this is not counted at all rather than allocated against.
pub const MAX_TRACKS: u64 = 256;

/// Whether bytes open with the EBML magic.
pub open spec fn opens_ebml(s: Seq<u8>) -> bool {
    s.len() >= 4 && s[0] == 0x1A && s[1] == 0x45 && s[2] == 0xDF && s[3] == 0xA3
}

/// True when `bytes` opens with the EBML magic — how this container is told apart from an MP4 before
/// either parser is asked to explain why it is not the other one.
pub fn is_ebml(bytes: &[u8]) -> (r: bool)
    ensures
        r == opens_ebml(bytes@),
{
    bytes.len() >= 4 && bytes[0] == 0x1A && bytes[1] == 0x45 && bytes[2] == 0xDF && bytes[3] == 0xA3
}

// ---- variable-length integers ----------------------------------------------------------------

/// How many bytes a variable-length integer takes, by its first byte: one for each leading zero bit,
/// and one.
pub open spec fn vint_len(first: u8) -> int {
    if first >= 128 {
        1
    } else if first >= 64 {
        2
    } else if first >= 32 {
        3
    } else if first >= 16 {
        4
    } else if first >= 8 {
        5
    } else if first >= 4 {
        6
    } else if first >= 2 {
        7
    } else {
        8
    }
}

/// The bit that marks a length, in the first byte.
pub open spec fn vint_marker(len: int) -> u8 {
    if len == 1 {
        128
    } else if len == 2 {
        64
    } else if len == 3 {
        32
    } else if len == 4 {
        16
    } else if len == 5 {
        8
    } else if len == 6 {
        4
    } else if len == 7 {
        2
    } else {
        1
    }
}

/// A variable-length integer: its value and the bytes it takes. With `keep_marker` the length marker
/// stays in the value, which is how an element **id** is written and compared; without it the marker
/// is masked off, which is how a **size** and a block's track number are read.
pub open spec fn vint_of(s: Seq<u8>, keep_marker: bool) -> Option<(u64, int)> {
    if s.len() == 0 || s[0] == 0 || s.len() < vint_len(s[0]) {
        None
    } else {
        let len = vint_len(s[0]);
        let b = s.take(len);
        if keep_marker {
            Some((bytes::number(b) as u64, len))
        } else {
            Some((bytes::number(b.update(0, (b[0] - vint_marker(len)) as u8)) as u64, len))
        }
    }
}

/// Whether every data bit of an encoded variable-length integer is set — the size the format reserves
/// for "unknown".
pub open spec fn is_unknown(s: Seq<u8>) -> bool {
    s.len() > 0 && s[0] == 2 * vint_marker(s.len() as int) - 1 && (forall|i: int| 1 <= i < s.len() ==> s[i] == 0xFF)
}

/// How many bytes a variable-length integer takes, and its marker.
fn vint_shape(first: u8) -> (r: (usize, u8))
    requires
        first > 0,
    ensures
        r.0 as int == vint_len(first),
        r.1 == vint_marker(r.0 as int),
        1 <= r.0 <= 8,
        r.1 <= first,
        first < 2 * r.1,
{
    if first >= 128 {
        (1, 128)
    } else if first >= 64 {
        (2, 64)
    } else if first >= 32 {
        (3, 32)
    } else if first >= 16 {
        (4, 16)
    } else if first >= 8 {
        (5, 8)
    } else if first >= 4 {
        (6, 4)
    } else if first >= 2 {
        (7, 2)
    } else {
        (8, 1)
    }
}

/// Read a variable-length integer: `(value, bytes consumed)`.
fn vint(buf: &[u8], keep_marker: bool) -> (r: Option<(u64, usize)>)
    ensures
        match r {
            Some((v, n)) => vint_of(buf@, keep_marker) == Some((v, n as int)) && 1 <= n <= 8 && n <= buf@.len(),
            None => vint_of(buf@, keep_marker) is None,
        },
{
    if buf.len() == 0 || buf[0] == 0 {
        return None;
    }
    let (len, marker): (usize, u8) = vint_shape(buf[0]);
    if buf.len() < len {
        return None;
    }
    let head: &[u8] = slice_subrange(buf, 0, len);
    assert(head@ =~= buf@.take(len as int));
    if keep_marker {
        Some((to_number(head), len))
    } else {
        let mut data: Vec<u8> = slice_to_vec(head);
        data.set(0, buf[0] - marker);
        assert(data@ =~= head@.update(0, (head@[0] - marker) as u8));
        Some((to_number(data.as_slice()), len))
    }
}

/// True when every data bit of an encoded variable-length integer is set.
fn all_ones(buf: &[u8]) -> (r: bool)
    requires
        0 < buf@.len() <= 8,
        buf@[0] > 0,
        buf@.len() == vint_len(buf@[0]),
    ensures
        r == is_unknown(buf@),
{
    let (len, marker): (usize, u8) = vint_shape(buf[0]);
    if buf[0] as u16 != 2 * (marker as u16) - 1 {
        return false;
    }
    let mut i: usize = 1;
    while i < buf.len()
        invariant
            1 <= i <= buf@.len(),
            forall|k: int| 1 <= k < i ==> buf@[k] == 0xFF,
        decreases buf@.len() - i,
    {
        if buf[i] != 0xFF {
            return false;
        }
        i = i + 1;
    }
    assert(buf@[0] == 2 * vint_marker(len as int) - 1);
    true
}

/// An EBML unsigned integer: big-endian, of any length up to eight bytes.
pub open spec fn uint_of(s: Seq<u8>) -> Option<u64> {
    if s.len() == 0 || s.len() > 8 { None } else { Some(bytes::number(s) as u64) }
}

/// An EBML unsigned integer.
fn uint(buf: &[u8]) -> (r: Option<u64>)
    ensures
        r == uint_of(buf@),
{
    if buf.len() == 0 || buf.len() > 8 {
        None
    } else {
        Some(to_number(buf))
    }
}

/// A number, where it is positive.
pub open spec fn positive(n: Option<u64>) -> Option<u64> {
    match n {
        Some(n) => if n > 0 { Some(n) } else { None },
        None => None,
    }
}

/// A number, where it is positive.
fn if_positive(n: Option<u64>) -> (r: Option<u64>)
    ensures
        r == positive(n),
{
    match n {
        Some(n) => if n > 0 {
            Some(n)
        } else {
            None
        },
        None => None,
    }
}

// ---- elements in memory ----------------------------------------------------------------------

/// The first child element of a payload: its id, and where its own payload starts and ends.
pub open spec fn first_child(s: Seq<u8>) -> Option<(u64, int, int)> {
    match vint_of(s, true) {
        None => None,
        Some((id, id_len)) => match vint_of(s.skip(id_len), false) {
            None => None,
            Some((size, size_len)) => if id_len + size_len + size > s.len() {
                None
            } else {
                Some((id, id_len + size_len, id_len + size_len + size))
            },
        },
    }
}

/// The first child element of a payload. A malformed child ends a walk rather than failing the probe:
/// what has already been read is still true.
fn read_child(buf: &[u8]) -> (r: Option<(u64, usize, usize)>)
    ensures
        match r {
            Some((id, start, end)) => first_child(buf@) == Some((id, start as int, end as int)) && 2 <= start <= end
                <= buf@.len(),
            None => first_child(buf@) is None,
        },
{
    let n: usize = buf.len();
    match vint(buf, true) {
        None => None,
        Some((id, id_len)) => {
            let rest: &[u8] = slice_subrange(buf, id_len, n);
            assert(rest@ =~= buf@.skip(id_len as int));
            match vint(rest, false) {
                None => None,
                Some((size, size_len)) => {
                    let start: usize = id_len + size_len;
                    if size > (n - start) as u64 {
                        None
                    } else {
                        Some((id, start, start + size as usize))
                    }
                },
            }
        },
    }
}

/// What follows a position in a buffer.
fn from<'a>(buf: &'a [u8], at: usize) -> (r: &'a [u8])
    requires
        at <= buf@.len(),
    ensures
        r@ == buf@.skip(at as int),
{
    let n: usize = buf.len();
    assert(buf@.subrange(at as int, n as int) =~= buf@.skip(at as int));
    slice_subrange(buf, at, n)
}

/// The first child of an id.
pub open spec fn child_of(s: Seq<u8>, id: u64) -> Option<Seq<u8>>
    decreases s.len(),
{
    match first_child(s) {
        None => None,
        Some((i, start, end)) => if i == id {
            Some(s.subrange(start, end))
        } else if 0 < end <= s.len() {
            child_of(s.skip(end), id)
        } else {
            None
        },
    }
}

/// The document type that an EBML header declares.
pub open spec fn doc_type_of(header: Seq<u8>) -> Option<Seq<char>> {
    match child_of(header, ID_DOC_TYPE) {
        Some(b) => bytes::string_of(b),
        None => None,
    }
}

/// The EBML header's `DocType`.
fn doc_type(header: &[u8]) -> (r: Option<String>)
    ensures
        json::opt_view(r) == doc_type_of(header@),
{
    let mut rest: &[u8] = header;
    loop
        invariant
            child_of(header@, ID_DOC_TYPE) == child_of(rest@, ID_DOC_TYPE),
        decreases rest@.len(),
    {
        match read_child(rest) {
            None => {
                return None;
            },
            Some((id, start, end)) => {
                if id == ID_DOC_TYPE {
                    return read_string(slice_subrange(rest, start, end));
                }
                rest = from(rest, end);
            },
        }
    }
}

// ---- tracks ----------------------------------------------------------------------------------

/// The facts a track states about itself.
#[derive(Debug)]
pub struct Track {
    /// Its number.
    pub number: Option<u64>,
    /// Its type.
    pub kind: Option<u64>,
    /// Its codec.
    pub codec: Option<String>,
    /// Its width in pixels.
    pub width: Option<u64>,
    /// Its height in pixels.
    pub height: Option<u64>,
    /// How long a frame lasts, in nanoseconds.
    pub default_duration_ns: Option<u64>,
}

/// What a track states.
#[verifier::ext_equal]
pub struct TrackView {
    /// Its number.
    pub number: Option<u64>,
    /// Its type.
    pub kind: Option<u64>,
    /// Its codec.
    pub codec: Option<Seq<char>>,
    /// Its width in pixels.
    pub width: Option<u64>,
    /// Its height in pixels.
    pub height: Option<u64>,
    /// How long a frame lasts, in nanoseconds.
    pub default_duration_ns: Option<u64>,
}

impl View for Track {
    type V = TrackView;

    open spec fn view(&self) -> TrackView {
        TrackView {
            number: self.number,
            kind: self.kind,
            codec: json::opt_view(self.codec),
            width: self.width,
            height: self.height,
            default_duration_ns: self.default_duration_ns,
        }
    }
}

/// A track that states nothing.
pub open spec fn no_track() -> TrackView {
    TrackView { number: None, kind: None, codec: None, width: None, height: None, default_duration_ns: None }
}

/// A track with what the fields particular to video state.
pub open spec fn with_video(t: TrackView, s: Seq<u8>) -> TrackView
    decreases s.len(),
{
    match first_child(s) {
        None => t,
        Some((id, start, end)) => if 0 < end <= s.len() {
            let p = s.subrange(start, end);
            with_video(
                if id == ID_PIXEL_WIDTH {
                    TrackView { width: positive(uint_of(p)), ..t }
                } else if id == ID_PIXEL_HEIGHT {
                    TrackView { height: positive(uint_of(p)), ..t }
                } else {
                    t
                },
                s.skip(end),
            )
        } else {
            t
        },
    }
}

/// A track with what a field states.
pub open spec fn with_field(t: TrackView, id: u64, p: Seq<u8>) -> TrackView {
    if id == ID_TRACK_NUMBER {
        TrackView { number: uint_of(p), ..t }
    } else if id == ID_TRACK_TYPE {
        TrackView { kind: uint_of(p), ..t }
    } else if id == ID_CODEC_ID {
        TrackView { codec: bytes::string_of(p), ..t }
    } else if id == ID_DEFAULT_DURATION {
        TrackView { default_duration_ns: uint_of(p), ..t }
    } else if id == ID_VIDEO {
        with_video(t, p)
    } else {
        t
    }
}

/// A track with what some fields state.
pub open spec fn with_fields(t: TrackView, s: Seq<u8>) -> TrackView
    decreases s.len(),
{
    match first_child(s) {
        None => t,
        Some((id, start, end)) => if 0 < end <= s.len() {
            with_fields(with_field(t, id, s.subrange(start, end)), s.skip(end))
        } else {
            t
        },
    }
}

/// Whether a track is a video track with a number.
pub open spec fn is_video(t: TrackView) -> bool {
    t.kind == Some(TRACK_TYPE_VIDEO) && t.number is Some
}

/// The first video track of a `Tracks` element.
pub open spec fn video_in(s: Seq<u8>) -> Option<TrackView>
    decreases s.len(),
{
    match first_child(s) {
        None => None,
        Some((id, start, end)) => if 0 < end <= s.len() {
            let t = with_fields(no_track(), s.subrange(start, end));
            if id == ID_TRACK_ENTRY && is_video(t) {
                Some(t)
            } else {
                video_in(s.skip(end))
            }
        } else {
            None
        },
    }
}

impl Track {
    /// A track that states nothing.
    fn none() -> (r: Self)
        ensures
            r@ == no_track(),
    {
        Track { number: None, kind: None, codec: None, width: None, height: None, default_duration_ns: None }
    }

    /// Takes what the fields particular to video state.
    fn read_video(&mut self, payload: &[u8])
        ensures
            final(self)@ == with_video(old(self)@, payload@),
    {
        let mut rest: &[u8] = payload;
        loop
            invariant
                with_video(old(self)@, payload@) == with_video(self@, rest@),
            ensures
                self@ == with_video(old(self)@, payload@),
            decreases rest@.len(),
        {
            match read_child(rest) {
                None => {
                    break;
                },
                Some((id, start, end)) => {
                    let p: &[u8] = slice_subrange(rest, start, end);
                    if id == ID_PIXEL_WIDTH {
                        self.width = if_positive(uint(p));
                    } else if id == ID_PIXEL_HEIGHT {
                        self.height = if_positive(uint(p));
                    }
                    rest = from(rest, end);
                },
            }
        }
    }

    /// Takes what some fields state.
    fn read_fields(&mut self, payload: &[u8])
        ensures
            final(self)@ == with_fields(old(self)@, payload@),
    {
        let mut rest: &[u8] = payload;
        loop
            invariant
                with_fields(old(self)@, payload@) == with_fields(self@, rest@),
            ensures
                self@ == with_fields(old(self)@, payload@),
            decreases rest@.len(),
        {
            match read_child(rest) {
                None => {
                    break;
                },
                Some((id, start, end)) => {
                    let p: &[u8] = slice_subrange(rest, start, end);
                    if id == ID_TRACK_NUMBER {
                        self.number = uint(p);
                    } else if id == ID_TRACK_TYPE {
                        self.kind = uint(p);
                    } else if id == ID_CODEC_ID {
                        self.codec = read_string(p);
                    } else if id == ID_DEFAULT_DURATION {
                        self.default_duration_ns = uint(p);
                    } else if id == ID_VIDEO {
                        self.read_video(p);
                    }
                    rest = from(rest, end);
                },
            }
        }
    }
}

/// What an optional track states.
pub open spec fn track_view(t: Option<Track>) -> Option<TrackView> {
    match t {
        Some(t) => Some(t@),
        None => None,
    }
}

/// The first video track of a `Tracks` element.
fn find_video(payload: &[u8]) -> (r: Option<Track>)
    ensures
        track_view(r) == video_in(payload@),
{
    let mut rest: &[u8] = payload;
    loop
        invariant
            video_in(payload@) == video_in(rest@),
        decreases rest@.len(),
    {
        match read_child(rest) {
            None => {
                return None;
            },
            Some((id, start, end)) => {
                if id == ID_TRACK_ENTRY {
                    let mut t: Track = Track::none();
                    t.read_fields(slice_subrange(rest, start, end));
                    if t.kind == Some(TRACK_TYPE_VIDEO) && t.number.is_some() {
                        return Some(t);
                    }
                }
                rest = from(rest, end);
            },
        }
    }
}

// ---- blocks ----------------------------------------------------------------------------------

/// Where a track stands among the counts.
pub open spec fn slot(s: Seq<(u64, u64)>, track: u64) -> Option<int>
    decreases s.len(),
{
    if s.len() == 0 {
        None
    } else if s.last().0 == track {
        Some(s.len() - 1)
    } else {
        slot(s.drop_last(), track)
    }
}

/// How many frames were counted of a track.
pub open spec fn frames_of(s: Seq<(u64, u64)>, track: u64) -> u64 {
    match slot(s, track) {
        Some(i) => s[i].1,
        None => 0,
    }
}

/// The track and the frames that a block's header states: the track number, two bytes of relative
/// timestamp, then the flags byte whose lacing bits say whether a byte after it states how many frames
/// the block holds, less one.
pub open spec fn block_of(head: Seq<u8>) -> Option<(u64, u64)> {
    match vint_of(head, false) {
        None => None,
        Some((track, used)) => if head.len() <= used + 2 {
            None
        } else if (head[used + 2] / 2) % 4 == 0 {
            Some((track, 1))
        } else if head.len() <= used + 3 {
            None
        } else {
            Some((track, (head[used + 3] + 1) as u64))
        },
    }
}

/// The track and the frames that a block's header states.
fn read_block(head: &[u8]) -> (r: Option<(u64, u64)>)
    ensures
        r == block_of(head@),
        r matches Some((_, frames)) ==> 1 <= frames <= 256,
{
    let n: usize = head.len();
    match vint(head, false) {
        None => None,
        Some((track, used)) => if n - used <= 2 {
            None
        } else if (head[used + 2] / 2) % 4 == 0 {
            Some((track, 1))
        } else if n - used <= 3 {
            None
        } else {
            Some((track, head[used + 3] as u64 + 1))
        },
    }
}

/// What the walk has learned so far.
#[derive(Debug)]
pub struct Walk {
    /// The first video track the `Tracks` element declares.
    pub video: Option<Track>,
    /// Frames seen per track number.
    pub blocks: Vec<(u64, u64)>,
    /// The count is trustworthy — no cluster was skipped, no block header was malformed, and no
    /// ceiling was reached. False means this walk reports no count at all.
    pub counted: bool,
}

/// What the walk has learned so far.
#[verifier::ext_equal]
pub struct WalkView {
    /// The first video track.
    pub video: Option<TrackView>,
    /// Frames seen per track number.
    pub blocks: Seq<(u64, u64)>,
    /// Whether the count is trustworthy.
    pub counted: bool,
}

impl View for Walk {
    type V = WalkView;

    open spec fn view(&self) -> WalkView {
        WalkView { video: track_view(self.video), blocks: self.blocks@, counted: self.counted }
    }
}

impl WalkView {
    /// No count is over its ceiling while the counts are trusted.
    pub open spec fn wf(self) -> bool {
        self.counted ==> forall|i: int| 0 <= i < self.blocks.len() ==> (#[trigger] self.blocks[i]).1 <= MAX_BLOCKS
    }

    /// The walk with a block counted.
    pub open spec fn with_block(self, head: Seq<u8>) -> Self {
        if !self.counted {
            self
        } else {
            match block_of(head) {
                None => WalkView { counted: false, ..self },
                Some((track, frames)) => match slot(self.blocks, track) {
                    None => if self.blocks.len() >= MAX_TRACKS {
                        WalkView { counted: false, ..self }
                    } else {
                        WalkView { blocks: self.blocks.push((track, frames)), ..self }
                    },
                    Some(i) => {
                        let n = (self.blocks[i].1 + frames) as u64;
                        WalkView { blocks: self.blocks.update(i, (track, n)), counted: n <= MAX_BLOCKS, ..self }
                    },
                },
            }
        }
    }

    /// The walk with the tracks read; a file's first video track counts.
    pub open spec fn with_tracks(self, payload: Seq<u8>) -> Self {
        if self.video is Some {
            self
        } else {
            WalkView { video: video_in(payload), ..self }
        }
    }

    /// What the walk found, at the end of the file. Counted per track number and resolved here, so a
    /// file whose clusters precede its tracks is counted the same as one that states them first. The
    /// rate is what the file *declares* a frame lasts, and nothing else.
    pub open spec fn found(self) -> Result<ProbeView, Seq<char>> {
        match self.video {
            None => Err(
                "no video track: the container's Tracks element declares no track of type video"@,
            ),
            Some(t) => Ok(
                (ProbeView {
                    codec: t.codec,
                    width: t.width,
                    height: t.height,
                    rate: match t.default_duration_ns {
                        Some(ns) => if ns > 0 {
                            Some(FrameRate { frames: 1, scale: 1_000_000_000, duration: ns })
                        } else {
                            None
                        },
                        None => None,
                    },
                    frame_count: if self.counted {
                        Some(
                            match t.number {
                                Some(number) => frames_of(self.blocks, number),
                                None => 0,
                            },
                        )
                    } else {
                        None
                    },
                }),
            ),
        }
    }
}

/// A slot is within the counts, under its track.
proof fn lemma_slot(s: Seq<(u64, u64)>, track: u64)
    ensures
        slot(s, track) matches Some(i) ==> 0 <= i < s.len() && s[i].0 == track,
    decreases s.len(),
{
    if s.len() > 0 && s.last().0 != track {
        lemma_slot(s.drop_last(), track);
    }
}

/// Where a track stands among the counts.
fn find_slot(s: &Vec<(u64, u64)>, track: u64) -> (r: Option<usize>)
    ensures
        match r {
            Some(i) => i < s@.len() && slot(s@, track) == Some(i as int),
            None => slot(s@, track) is None,
        },
{
    let mut i: usize = s.len();
    assert(s@.take(i as int) =~= s@);
    while i > 0
        invariant
            i <= s@.len(),
            slot(s@, track) == slot(s@.take(i as int), track),
        decreases i,
    {
        assert(s@.take(i as int).drop_last() =~= s@.take(i - 1));
        assert(s@.take(i as int).last() == s@[i - 1]);
        if s[i - 1].0 == track {
            return Some(i - 1);
        }
        i = i - 1;
    }
    None
}

impl Walk {
    /// Counts a block by its header.
    fn count_block(&mut self, head: &[u8])
        requires
            old(self)@.wf(),
        ensures
            final(self)@ == old(self)@.with_block(head@),
            final(self)@.wf(),
    {
        if !self.counted {
            return;
        }
        match read_block(head) {
            None => {
                self.counted = false;
            },
            Some((track, frames)) => match find_slot(&self.blocks, track) {
                None => {
                    if self.blocks.len() >= 256 {
                        self.counted = false;
                    } else {
                        self.blocks.push((track, frames));
                    }
                },
                Some(i) => {
                    proof {
                        lemma_slot(self.blocks@, track);
                    }
                    let n: u64 = self.blocks[i].1 + frames;
                    self.blocks.set(i, (track, n));
                    if n > MAX_BLOCKS {
                        self.counted = false;
                    }
                },
            },
        }
    }

    /// Reads the tracks.
    fn read_tracks(&mut self, payload: &[u8])
        requires
            old(self)@.wf(),
        ensures
            final(self)@ == old(self)@.with_tracks(payload@),
            final(self)@.wf(),
    {
        if self.video.is_none() {
            self.video = find_video(payload);
        }
    }

    /// What the walk found, at the end of the file.
    pub fn finish(self) -> (r: Result<MediaProbe, String>)
        ensures
            match r {
                Ok(p) => self@.found() == Ok::<ProbeView, Seq<char>>(p@),
                Err(m) => self@.found() == Err::<ProbeView, Seq<char>>(m@),
            },
    {
        match self.video {
            None => Err(
                String::from_str(
                    "no video track: the container's Tracks element declares no track of type video",
                ),
            ),
            Some(t) => {
                let frame_count: Option<u64> = if self.counted {
                    Some(
                        match t.number {
                            Some(number) => match find_slot(&self.blocks, number) {
                                Some(i) => self.blocks[i].1,
                                None => 0,
                            },
                            None => 0,
                        },
                    )
                } else {
                    None
                };
                let rate: Option<FrameRate> = match t.default_duration_ns {
                    Some(ns) => if ns > 0 {
                        Some(FrameRate { frames: 1, scale: 1_000_000_000, duration: ns })
                    } else {
                        None
                    },
                    None => None,
                };
                Ok(
                    Mp4Probe {
                        params: TrackParams { codec: t.codec, width: t.width, height: t.height, rate },
                        frame_count,
                    },
                )
            },
        }
    }
}

// ---- elements of the file --------------------------------------------------------------------

/// One element header, as read from the file.
#[derive(Debug, Clone, Copy, PartialEq, Eq, Structural)]
pub struct Header {
    /// The element's id.
    pub id: u64,
    /// The payload's length. For an unknown-size element this is what remains of the file, so every
    /// bound derived from it still holds.
    pub size: u64,
    /// Offset of the payload within the file.
    pub offset: u64,
    /// The element declared the all-ones size the format reserves for "unknown".
    pub unknown_size: bool,
}

/// The element header at a position of the file, given the bytes there, or why there is none.
pub open spec fn element_of(head: Seq<u8>, pos: int, len: int) -> Result<Header, Seq<char>> {
    match vint_of(head, true) {
        None => Err("malformed element id at offset "@ + text::int_text(pos)),
        Some((id, id_len)) => match vint_of(head.skip(id_len), false) {
            None => Err("malformed element size at offset "@ + text::int_text(pos)),
            Some((size, size_len)) => {
                let unknown = is_unknown(head.subrange(id_len, id_len + size_len));
                let remaining = len - (pos + id_len + size_len);
                if !unknown && size > remaining {
                    Err(
                        "element 0x"@ + bytes::hex_number(id as nat) + " at offset "@ + text::int_text(pos)
                            + " declares "@ + text::int_text(size as int) + " bytes but only "@ + text::int_text(
                            remaining,
                        ) + " remain"@,
                    )
                } else {
                    Ok(
                        (Header {
                            id,
                            size: if unknown { remaining as u64 } else { size },
                            offset: (pos + id_len + size_len) as u64,
                            unknown_size: unknown,
                        }),
                    )
                }
            },
        },
    }
}

/// Read the element header at a position, from the bytes there.
fn read_element(head: &[u8], pos: u64, len: u64) -> (r: Result<Header, String>)
    requires
        pos + head@.len() <= len,
    ensures
        match r {
            Ok(h) => element_of(head@, pos as int, len as int) == Ok::<Header, Seq<char>>(h) && pos + 2 <= h.offset
                && h.offset + h.size <= len,
            Err(m) => element_of(head@, pos as int, len as int) == Err::<Header, Seq<char>>(m@),
        },
{
    let (id, id_len): (u64, usize) = match vint(head, true) {
        None => {
            return Err(cat2("malformed element id at offset ", dec_u64(pos).as_str()));
        },
        Some(x) => x,
    };
    let rest: &[u8] = from(head, id_len);
    let (size, size_len): (u64, usize) = match vint(rest, false) {
        None => {
            return Err(cat2("malformed element size at offset ", dec_u64(pos).as_str()));
        },
        Some(x) => x,
    };
    let code: &[u8] = slice_subrange(rest, 0, size_len);
    assert(code@ =~= head@.subrange(id_len as int, id_len + size_len));
    let unknown: bool = all_ones(code);
    let offset: u64 = pos + (id_len + size_len) as u64;
    let remaining: u64 = len - offset;
    if !unknown && size > remaining {
        return Err(
            cat9(
                "element 0x",
                to_hex_number(id).as_str(),
                " at offset ",
                dec_u64(pos).as_str(),
                " declares ",
                dec_u64(size).as_str(),
                " bytes but only ",
                dec_u64(remaining).as_str(),
                " remain",
            ),
        );
    }
    Ok(Header { id, size: if unknown { remaining } else { size }, offset, unknown_size: unknown })
}

// ---- the walk --------------------------------------------------------------------------------

/// What the walk looks at next.
#[derive(Debug, Clone, Copy, PartialEq, Eq, Structural)]
pub enum Place {
    /// The header of the first element, which is the EBML header.
    Opening,
    /// The payload of the EBML header.
    DocType(Header),
    /// The header of an element before the segment.
    Searching,
    /// The header of an element within the segment, a cluster or a group of blocks.
    Elements,
    /// The payload of a `Tracks` element.
    Tracks(Header),
    /// The head of a block.
    Block(Header),
    /// Nothing: the walk is done.
    Finished,
}

/// A walk over the elements of a file.
#[derive(Debug)]
pub struct Reader {
    /// The length of the file.
    pub len: u64,
    /// The position of the walk.
    pub pos: u64,
    /// What the walk looks at next.
    pub place: Place,
    /// Where the segment, the cluster and the group of blocks that the walk is in end.
    pub ends: Vec<u64>,
    /// What the walk has learned.
    pub walk: Walk,
}

/// Where a walk stands.
#[verifier::ext_equal]
pub struct ReaderView {
    /// The length of the file.
    pub len: u64,
    /// The position of the walk.
    pub pos: u64,
    /// What the walk looks at next.
    pub place: Place,
    /// Where the segment, the cluster and the group of blocks that the walk is in end.
    pub ends: Seq<u64>,
    /// What the walk has learned.
    pub walk: WalkView,
}

impl View for Reader {
    type V = ReaderView;

    open spec fn view(&self) -> ReaderView {
        ReaderView { len: self.len, pos: self.pos, place: self.place, ends: self.ends@, walk: self.walk@ }
    }
}

/// Why a file has no segment.
pub open spec fn no_segment() -> Seq<char> {
    "no segment: the file's EBML tree carries no Segment element"@
}

/// Why an element is not read into memory.
pub open spec fn over_ceiling(name: Seq<char>, size: u64) -> Seq<char> {
    name + " declares "@ + text::dec(size as nat) + " bytes, over the "@ + text::dec(MAX_ELEMENT_BYTES as nat)
        + "-byte ceiling"@
}

/// Whether an element's payload is within a file and behind a position.
pub open spec fn is_within(h: Header, pos: u64, len: u64) -> bool {
    h.offset == pos && h.offset + h.size <= len
}

impl ReaderView {
    /// The walk is within the file, and so is everything it looks at.
    pub open spec fn wf(self) -> bool {
        &&& self.pos <= self.len
        &&& self.ends.len() <= 3
        &&& self.walk.wf()
        &&& match self.place {
            Place::Opening => true,
            Place::DocType(h) => is_within(h, self.pos, self.len) && h.size <= MAX_ELEMENT_BYTES,
            Place::Searching => self.pos < self.len,
            Place::Elements => self.pos < self.len && self.ends.len() > 0,
            Place::Tracks(h) => is_within(h, self.pos, self.len) && h.size <= MAX_ELEMENT_BYTES && self.ends.len() > 0,
            Place::Block(h) => is_within(h, self.pos, self.len) && self.ends.len() > 0,
            Place::Finished => true,
        }
        &&& forall|i: int| 0 <= i < self.ends.len() ==> #[trigger] self.ends[i] <= self.len
    }

    /// The bytes that the walk wants: where they start, and how many they are.
    pub open spec fn request(self) -> (u64, int) {
        match self.place {
            Place::Opening | Place::Searching | Place::Elements => (
                self.pos,
                if self.len - self.pos < 16 { self.len - self.pos } else { 16 },
            ),
            Place::DocType(h) | Place::Tracks(h) => (h.offset, h.size as int),
            Place::Block(h) => (h.offset, if h.size < 12 { h.size as int } else { 12 }),
            Place::Finished => (self.pos, 0),
        }
    }

    /// The walk without the levels that end at or before its position; done where none is left.
    pub open spec fn settled(self) -> Self
        decreases self.ends.len(),
    {
        if self.ends.len() == 0 {
            ReaderView { place: Place::Finished, ..self }
        } else if self.pos >= self.ends.last() {
            ReaderView { ends: self.ends.drop_last(), ..self }.settled()
        } else {
            ReaderView { place: Place::Elements, ..self }
        }
    }

    /// The walk at a position before the segment.
    pub open spec fn searching(self, pos: u64) -> Result<Self, Seq<char>> {
        if pos >= self.len {
            Err(no_segment())
        } else {
            Ok(ReaderView { pos, place: Place::Searching, ..self })
        }
    }

    /// The walk past an element.
    pub open spec fn past(self, h: Header) -> Self {
        ReaderView { pos: (h.offset + h.size) as u64, ..self }.settled()
    }

    /// The walk within an element.
    pub open spec fn into(self, h: Header) -> Self {
        ReaderView { pos: h.offset, ends: self.ends.push((h.offset + h.size) as u64), ..self }.settled()
    }

    /// The walk at the payload of an element.
    pub open spec fn onto(self, h: Header, place: Place) -> Self {
        ReaderView { pos: h.offset, place, ..self }
    }

    /// The walk after the header of an element within the segment. A cluster of unknown size ends
    /// wherever the next top-level element begins, which cannot be found without guessing at ids
    /// inside compressed payloads: there the count is given up, and everything the tracks stated
    /// stays reported.
    pub open spec fn at_element(self, h: Header) -> Result<Self, Seq<char>> {
        if self.ends.len() == 1 {
            if h.id == ID_TRACKS {
                if h.size > MAX_ELEMENT_BYTES {
                    Err(over_ceiling("Tracks"@, h.size))
                } else {
                    Ok(self.onto(h, Place::Tracks(h)))
                }
            } else if h.id == ID_CLUSTER {
                if h.unknown_size {
                    Ok(
                        ReaderView {
                            pos: self.len,
                            walk: WalkView { counted: false, ..self.walk },
                            ..self
                        }.settled(),
                    )
                } else {
                    Ok(self.into(h))
                }
            } else {
                Ok(self.past(h))
            }
        } else if self.ends.len() == 2 {
            if h.id == ID_SIMPLE_BLOCK {
                Ok(self.onto(h, Place::Block(h)))
            } else if h.id == ID_BLOCK_GROUP {
                Ok(self.into(h))
            } else {
                Ok(self.past(h))
            }
        } else {
            if h.id == ID_BLOCK {
                Ok(self.onto(h, Place::Block(h)))
            } else {
                Ok(self.past(h))
            }
        }
    }

    /// The walk after the bytes that it wanted, or why it gives up.
    pub open spec fn after(self, b: Seq<u8>) -> Result<Self, Seq<char>> {
        match self.place {
            Place::Opening => match element_of(b, self.pos as int, self.len as int) {
                Err(m) => Err(m),
                Ok(h) => if h.id != ID_EBML {
                    Err("not a Matroska container: the file does not open with an EBML header"@)
                } else if h.size > MAX_ELEMENT_BYTES {
                    Err(over_ceiling("EBML header"@, h.size))
                } else {
                    Ok(self.onto(h, Place::DocType(h)))
                },
            },
            Place::DocType(h) => match doc_type_of(b) {
                Some(t) => if t == "matroska"@ || t == "webm"@ {
                    self.searching((h.offset + h.size) as u64)
                } else {
                    Err(
                        "not a Matroska container: its EBML header declares doc type `"@ + bytes::printable_text(t)
                            + "`"@,
                    )
                },
                None => self.searching((h.offset + h.size) as u64),
            },
            Place::Searching => match element_of(b, self.pos as int, self.len as int) {
                Err(m) => Err(m),
                Ok(h) => if h.id == ID_SEGMENT {
                    Ok(ReaderView { ends: Seq::empty(), ..self }.into(h))
                } else {
                    self.searching((h.offset + h.size) as u64)
                },
            },
            Place::Elements => match element_of(b, self.pos as int, self.len as int) {
                Err(m) => Err(m),
                Ok(h) => self.at_element(h),
            },
            Place::Tracks(h) => Ok(ReaderView { walk: self.walk.with_tracks(b), ..self }.past(h)),
            Place::Block(h) => Ok(ReaderView { walk: self.walk.with_block(b), ..self }.past(h)),
            Place::Finished => Ok(self),
        }
    }

    /// How far the walk can still go.
    pub open spec fn distance(self) -> int {
        2 * (self.len - self.pos) + (match self.place {
            Place::Finished => 0int,
            Place::DocType(_) | Place::Tracks(_) | Place::Block(_) => 2int,
            _ => 1int,
        })
    }

    /// A settled walk is within the file, and no further from its start than before.
    proof fn lemma_settled(self)
        requires
            self.pos <= self.len,
            self.ends.len() <= 3,
            self.walk.wf(),
            forall|i: int| 0 <= i < self.ends.len() ==> #[trigger] self.ends[i] <= self.len,
        ensures
            self.settled().wf(),
            self.settled().pos == self.pos,
            self.settled().len == self.len,
            self.settled().walk == self.walk,
            self.settled().ends.len() <= self.ends.len(),
            self.settled().place is Elements || self.settled().place is Finished,
        decreases self.ends.len(),
    {
        if self.ends.len() > 0 && self.pos >= self.ends.last() {
            ReaderView { ends: self.ends.drop_last(), ..self }.lemma_settled();
        }
    }
}

/// A walk at the start of a file.
pub open spec fn opening(len: u64) -> ReaderView {
    ReaderView {
        len,
        pos: 0,
        place: Place::Opening,
        ends: Seq::empty(),
        walk: WalkView { video: None, blocks: Seq::empty(), counted: true },
    }
}

impl Reader {
    /// A walk at the start of a file of a length.
    pub fn new(len: u64) -> (r: Self)
        ensures
            r@ == opening(len),
            r@.wf(),
    {
        let r: Reader = Reader {
            len,
            pos: 0,
            place: Place::Opening,
            ends: Vec::new(),
            walk: Walk { video: None, blocks: Vec::new(), counted: true },
        };
        assert(r@ =~= opening(len));
        r
    }

    /// The bytes that the walk wants next: where they start, and how many they are; nothing where the
    /// walk is done. They are always bytes that the file has.
    pub fn wants(&self) -> (r: Option<(u64, u64)>)
        requires
            self@.wf(),
        ensures
            match r {
                Some((offset, n)) => !(self@.place is Finished) && (offset, n as int) == self@.request() && offset + n
                    <= self.len,
                None => self@.place is Finished,
            },
    {
        match self.place {
            Place::Opening | Place::Searching | Place::Elements => Some(
                (self.pos, if self.len - self.pos < 16 { self.len - self.pos } else { 16 }),
            ),
            Place::DocType(h) | Place::Tracks(h) => Some((h.offset, h.size)),
            Place::Block(h) => Some((h.offset, if h.size < 12 { h.size } else { 12 })),
            Place::Finished => None,
        }
    }

    /// Leaves the levels that end at or before the position.
    fn settle(&mut self)
        requires
            old(self)@.pos <= old(self)@.len,
            old(self)@.ends.len() <= 3,
            old(self)@.walk.wf(),
            forall|i: int| 0 <= i < old(self)@.ends.len() ==> #[trigger] old(self)@.ends[i] <= old(self)@.len,
        ensures
            final(self)@ == old(self)@.settled(),
            final(self)@.wf(),
            final(self)@.pos == old(self)@.pos,
            final(self)@.len == old(self)@.len,
            final(self)@.place is Elements || final(self)@.place is Finished,
    {
        proof {
            old(self)@.lemma_settled();
        }
        loop
            invariant
                old(self)@.settled() == self@.settled(),
                self@.pos == old(self)@.pos,
                self@.len == old(self)@.len,
            ensures
                self@ == old(self)@.settled(),
            decreases self.ends@.len(),
        {
            let n: usize = self.ends.len();
            if n == 0 {
                self.place = Place::Finished;
                assert(self@ =~= old(self)@.settled());
                break;
            }
            if self.pos >= self.ends[n - 1] {
                let _end: Option<u64> = self.ends.pop();
            } else {
                self.place = Place::Elements;
                assert(self@ =~= old(self)@.settled());
                break;
            }
        }
    }

    /// Goes past an element.
    fn pass(&mut self, h: Header)
        requires
            old(self)@.wf(),
            h.offset + h.size <= old(self)@.len,
        ensures
            final(self)@ == old(self)@.past(h),
            final(self)@.wf(),
            final(self)@.pos == h.offset + h.size,
            final(self)@.len == old(self)@.len,
            final(self)@.place is Elements || final(self)@.place is Finished,
    {
        self.pos = h.offset + h.size;
        self.settle();
    }

    /// Goes into an element.
    fn enter(&mut self, h: Header)
        requires
            old(self)@.wf(),
            old(self)@.ends.len() < 3,
            h.offset + h.size <= old(self)@.len,
        ensures
            final(self)@ == old(self)@.into(h),
            final(self)@.wf(),
            final(self)@.pos == h.offset,
            final(self)@.len == old(self)@.len,
            final(self)@.place is Elements || final(self)@.place is Finished,
    {
        self.pos = h.offset;
        self.ends.push(h.offset + h.size);
        self.settle();
    }

    /// Goes on before the segment.
    fn search(&mut self, pos: u64) -> (r: Result<(), String>)
        requires
            old(self)@.wf(),
            pos <= old(self)@.len,
        ensures
            match r {
                Ok(_) => old(self)@.searching(pos) == Ok::<ReaderView, Seq<char>>(final(self)@) && final(self)@.wf()
                    && final(self)@.pos == pos && final(self)@.len == old(self)@.len && final(self)@.place is Searching,
                Err(m) => old(self)@.searching(pos) == Err::<ReaderView, Seq<char>>(m@),
            },
    {
        if pos >= self.len {
            return Err(String::from_str("no segment: the file's EBML tree carries no Segment element"));
        }
        self.pos = pos;
        self.place = Place::Searching;
        Ok(())
    }

    /// Goes on after the header of an element within the segment.
    fn step_element(&mut self, h: Header) -> (r: Result<(), String>)
        requires
            old(self)@.wf(),
            old(self)@.place is Elements,
            old(self)@.pos + 2 <= h.offset,
            h.offset + h.size <= old(self)@.len,
        ensures
            match r {
                Ok(_) => old(self)@.at_element(h) == Ok::<ReaderView, Seq<char>>(final(self)@) && final(self)@.wf()
                    && final(self)@.distance() < old(self)@.distance() && final(self)@.len == old(self)@.len,
                Err(m) => old(self)@.at_element(h) == Err::<ReaderView, Seq<char>>(m@),
            },
    {
        let depth: usize = self.ends.len();
        if depth == 1 {
            if h.id == ID_TRACKS {
                if h.size > MAX_ELEMENT_BYTES {
                    return Err(refuse("Tracks", h.size));
                }
                self.pos = h.offset;
                self.place = Place::Tracks(h);
            } else if h.id == ID_CLUSTER {
                if h.unknown_size {
                    self.walk.counted = false;
                    self.pos = self.len;
                    self.settle();
                } else {
                    self.enter(h);
                }
            } else {
                self.pass(h);
            }
        } else if depth == 2 {
            if h.id == ID_SIMPLE_BLOCK {
                self.pos = h.offset;
                self.place = Place::Block(h);
            } else if h.id == ID_BLOCK_GROUP {
                self.enter(h);
            } else {
                self.pass(h);
            }
        } else {
            if h.id == ID_BLOCK {
                self.pos = h.offset;
                self.place = Place::Block(h);
            } else {
                self.pass(h);
            }
        }
        Ok(())
    }

    /// Goes on with the bytes that the walk wanted.
    pub fn step(&mut self, head: &[u8]) -> (r: Result<(), String>)
        requires
            old(self)@.wf(),
            head@.len() == old(self)@.request().1,
        ensures
            match r {
                Ok(_) => old(self)@.after(head@) == Ok::<ReaderView, Seq<char>>(final(self)@) && final(self)@.wf()
                    && final(self)@.len == old(self)@.len && (!(old(self)@.place is Finished) ==> final(self)@.distance()
                    < old(self)@.distance()),
                Err(m) => old(self)@.after(head@) == Err::<ReaderView, Seq<char>>(m@),
            },
    {
        match self.place {
            Place::Opening => {
                let h: Header = match read_element(head, self.pos, self.len) {
                    Err(m) => {
                        return Err(m);
                    },
                    Ok(h) => h,
                };
                if h.id != ID_EBML {
                    return Err(
                        String::from_str(
                            "not a Matroska container: the file does not open with an EBML header",
                        ),
                    );
                }
                if h.size > MAX_ELEMENT_BYTES {
                    return Err(refuse("EBML header", h.size));
                }
                self.pos = h.offset;
                self.place = Place::DocType(h);
                Ok(())
            },
            Place::DocType(h) => {
                if let Some(t) = doc_type(head) {
                    if !same(t.as_str(), "matroska") && !same(t.as_str(), "webm") {
                        return Err(
                            cat3(
                                "not a Matroska container: its EBML header declares doc type `",
                                printable(t.as_str()).as_str(),
                                "`",
                            ),
                        );
                    }
                }
                self.search(h.offset + h.size)
            },
            Place::Searching => {
                let h: Header = match read_element(head, self.pos, self.len) {
                    Err(m) => {
                        return Err(m);
                    },
                    Ok(h) => h,
                };
                if h.id == ID_SEGMENT {
                    self.ends = Vec::new();
                    self.enter(h);
                    Ok(())
                } else {
                    self.search(h.offset + h.size)
                }
            },
            Place::Elements => match read_element(head, self.pos, self.len) {
                Err(m) => Err(m),
                Ok(h) => self.step_element(h),
            },
            Place::Tracks(h) => {
                self.walk.read_tracks(head);
                self.pass(h);
                Ok(())
            },
            Place::Block(h) => {
                self.walk.count_block(head);
                self.pass(h);
                Ok(())
            },
            Place::Finished => Ok(()),
        }
    }
}

/// Why an element is not read into memory.
fn refuse(name: &str, size: u64) -> (r: String)
    ensures
        r@ == over_ceiling(name@, size),
{
    cat6(
        name,
        " declares ",
        dec_u64(size).as_str(),
        " bytes, over the ",
        dec_u64(MAX_ELEMENT_BYTES).as_str(),
        "-byte ceiling",
    )
}

/// What a walk over a file finds, from where it stands.
pub open spec fn walked(file: Seq<u8>, s: ReaderView) -> Result<ProbeView, Seq<char>>
    decreases s.distance(),
{
    if s.place is Finished {
        s.walk.found()
    } else {
        let (offset, n) = s.request();
        match s.after(file.subrange(offset as int, offset + n)) {
            Err(m) => Err(m),
            Ok(t) => if 0 <= t.distance() < s.distance() {
                walked(file, t)
            } else {
                t.walk.found()
            },
        }
    }
}

/// Read a Matroska file's headers and report what its video track holds.
///
/// Returns `Err` with a human-readable reason when the file is not a readable Matroska: the reason
/// names the structure that was wrong.
pub fn probe(file: &[u8]) -> (r: Result<MediaProbe, String>)
    ensures
        match r {
            Ok(p) => walked(file@, opening(file@.len() as u64)) == Ok::<ProbeView, Seq<char>>(p@),
            Err(m) => walked(file@, opening(file@.len() as u64)) == Err::<ProbeView, Seq<char>>(m@),
        },
{
    let len: usize = file.len();
    let mut reader: Reader = Reader::new(len as u64);
    loop
        invariant
            len == file@.len(),
            reader@.wf(),
            reader@.len == len,
            walked(file@, reader@) == walked(file@, opening(len as u64)),
        decreases reader@.distance(),
    {
        match reader.wants() {
            None => {
                return reader.walk.finish();
            },
            Some((offset, n)) => {
                if let Err(m) = reader.step(slice_subrange(file, offset as usize, (offset + n) as usize)) {
                    return Err(m);
                }
            },
        }
    }
}

} // verus!
