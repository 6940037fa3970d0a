//! The signature of an episode's content: what makes two episodes exact duplicates.
//!
//! Every field is written with an explicit length or a terminator, so that no two different
//! contents can produce the same bytes by running one field into the next.

use vstd::prelude::*;
use vstd::string::*;
use vstd::bytes;
use vstd::bytes::u64_to_le_bytes;

use crate::cdm::{Episode, Frame, Label, Stream};
use crate::checks::structural;
use crate::digest;
use crate::digest::hash_bytes;
use crate::seqs;
use crate::text;
use crate::text::{before, same};

verus! {

// ---- what is compared ------------------------------------------------------------------------

/// What an exact duplicate of a stream shares with it.
pub struct StreamContent {
    /// The name.
    pub name: Seq<u8>,
    /// What it records.
    pub modality: Seq<u8>,
    /// The bits of the declared rate.
    pub rate: Option<u64>,
    /// The clock.
    pub clock: Seq<u8>,
    /// The declared element type.
    pub dtype: Option<Seq<u8>>,
    /// The declared shape.
    pub shape: Option<Seq<u64>>,
    /// Each frame's timestamp, as 64 bits, and fingerprint.
    pub frames: Seq<(u64, Seq<u8>)>,
    /// The bits of the stored least, greatest and mean value and of the standard deviation.
    pub stats: Option<(u64, u64, u64, u64)>,
}

/// What an exact duplicate of an episode shares with it: not its index.
pub struct EpisodeContent {
    /// The task.
    pub task: Option<Seq<u8>>,
    /// The labels' keys and values, in order.
    pub labels: Seq<(Seq<u8>, Seq<u8>)>,
    /// The streams, ordered by name.
    pub streams: Seq<StreamContent>,
}

/// A signed number's 64 bits.
pub open spec fn as_bits(n: i64) -> u64 {
    if n >= 0 { n as u64 } else { (n + 0x1_0000_0000_0000_0000) as u64 }
}

/// The encoding of a text.
pub open spec fn utf8(s: Seq<char>) -> Seq<u8> {
    vstd::utf8::encode_utf8(s)
}

/// What a duplicate of a frame shares with it.
pub open spec fn frame_content(f: Frame) -> (u64, Seq<u8>) {
    (as_bits(f.ts), structural::fingerprint(f)->0)
}

/// What duplicates of frames share with them.
pub open spec fn frames_content(s: Seq<Frame>) -> Seq<(u64, Seq<u8>)> {
    s.map_values(|f: Frame| frame_content(f))
}

/// What a duplicate of a stream shares with it.
pub open spec fn stream_content(s: Stream) -> StreamContent {
    StreamContent {
        name: utf8(s.name@),
        modality: utf8(s.modality.spec_name()),
        rate: s.declared_rate_hz,
        clock: utf8(s.clock_id@),
        dtype: match s.dtype {
            Some(d) => Some(utf8(d@)),
            None => None,
        },
        shape: match s.shape {
            Some(d) => Some(d@),
            None => None,
        },
        frames: frames_content(s.frames@),
        stats: match s.stats {
            Some(t) => Some((t.min, t.max, t.mean, t.std)),
            None => None,
        },
    }
}

/// What duplicates of streams share with them.
pub open spec fn streams_content(s: Seq<Stream>) -> Seq<StreamContent> {
    s.map_values(|x: Stream| stream_content(x))
}

/// What duplicates of labels share with them.
pub open spec fn labels_content(s: Seq<Label>) -> Seq<(Seq<u8>, Seq<u8>)> {
    s.map_values(|l: Label| (utf8(l.key@), utf8(l.value@)))
}

/// The order of labels: by key, then by value.
pub open spec fn label_lt(a: Label, b: Label) -> bool {
    text::str_lt(a.key@, b.key@) || (a.key@ == b.key@ && text::str_lt(a.value@, b.value@))
}

/// The order of labels, as a function.
pub open spec fn label_order() -> spec_fn(Label, Label) -> bool {
    |a: Label, b: Label| label_lt(a, b)
}

/// The order of streams by name, as a function.
pub open spec fn stream_order() -> spec_fn(Stream, Stream) -> bool {
    |a: Stream, b: Stream| text::str_lt(a.name@, b.name@)
}

/// What a duplicate of an episode shares with it.
pub open spec fn content_of(e: Episode) -> EpisodeContent {
    EpisodeContent {
        task: match e.task {
            Some(t) => Some(utf8(t@)),
            None => None,
        },
        labels: labels_content(seqs::sorted(e.labels@, label_order())),
        streams: streams_content(seqs::sorted(e.streams@, stream_order())),
    }
}

/// Whether an episode's content is proven: it has streams, every stream has frames, and every frame
/// carries a fingerprint.
pub open spec fn is_fingerprintable(e: Episode) -> bool {
    &&& e.streams@.len() > 0
    &&& forall|j: int|
        0 <= j < e.streams@.len() ==> (#[trigger] e.streams@[j]).frames@.len() > 0
            && !structural::lacks_fingerprint(e.streams@[j].frames@)
}

// ---- how it is written -----------------------------------------------------------------------

/// A number in eight bytes, the lowest first.
pub open spec fn le(n: u64) -> Seq<u8> {
    bytes::spec_u64_to_le_bytes(n)
}

/// A field: its tag, its length, its bytes.
pub open spec fn field(tag: u8, data: Seq<u8>) -> Seq<u8> {
    seq![tag] + le(data.len() as u64) + data
}

/// Labels.
pub open spec fn encode_labels(s: Seq<(Seq<u8>, Seq<u8>)>) -> Seq<u8>
    decreases s.len(),
{
    if s.len() == 0 {
        Seq::empty()
    } else {
        encode_labels(s.drop_last()) + (field(2, s.last().0) + field(3, s.last().1))
    }
}

/// Dimensions.
pub open spec fn encode_dims(s: Seq<u64>) -> Seq<u8>
    decreases s.len(),
{
    if s.len() == 0 {
        Seq::empty()
    } else {
        encode_dims(s.drop_last()) + le(s.last())
    }
}

/// Frames.
pub open spec fn encode_frames(s: Seq<(u64, Seq<u8>)>) -> Seq<u8>
    decreases s.len(),
{
    if s.len() == 0 {
        Seq::empty()
    } else {
        encode_frames(s.drop_last()) + (le(s.last().0) + s.last().1)
    }
}

/// A declared rate.
pub open spec fn encode_rate(rate: Option<u64>) -> Seq<u8> {
    match rate {
        Some(bits) => seq![6u8] + le(bits),
        None => seq![7u8],
    }
}

/// A declared element type.
pub open spec fn encode_dtype(dtype: Option<Seq<u8>>) -> Seq<u8> {
    match dtype {
        Some(d) => field(9, d),
        None => seq![10u8],
    }
}

/// A declared shape.
pub open spec fn encode_shape(shape: Option<Seq<u64>>) -> Seq<u8> {
    match shape {
        Some(s) => seq![11u8] + le(s.len() as u64) + encode_dims(s),
        None => seq![12u8],
    }
}

/// Stored statistics.
pub open spec fn encode_stats(stats: Option<(u64, u64, u64, u64)>) -> Seq<u8> {
    match stats {
        Some((a, b, m, d)) => seq![13u8] + le(a) + le(b) + le(m) + le(d),
        None => seq![14u8],
    }
}

/// A stream.
pub open spec fn encode_stream(c: StreamContent) -> Seq<u8> {
    field(4, c.name) + field(5, c.modality) + encode_rate(c.rate) + field(8, c.clock) + encode_dtype(c.dtype)
        + encode_shape(c.shape) + le(c.frames.len() as u64) + encode_frames(c.frames) + encode_stats(c.stats)
}

/// Streams.
pub open spec fn encode_streams(s: Seq<StreamContent>) -> Seq<u8>
    decreases s.len(),
{
    if s.len() == 0 {
        Seq::empty()
    } else {
        encode_streams(s.drop_last()) + encode_stream(s.last())
    }
}

/// A task.
pub open spec fn encode_task(task: Option<Seq<u8>>) -> Seq<u8> {
    match task {
        Some(t) => field(1, t),
        None => seq![0u8],
    }
}

/// An episode.
pub open spec fn encode(c: EpisodeContent) -> Seq<u8> {
    encode_task(c.task) + le(c.labels.len() as u64) + encode_labels(c.labels) + le(c.streams.len() as u64) + encode_streams(c.streams)
}

// ---- writing it ------------------------------------------------------------------------------

/// Appends bytes.
fn put(out: &mut Vec<u8>, data: &[u8])
    ensures
        final(out)@ == old(out)@ + data@,
{
    let mut i: usize = 0;
    while i < data.len()
        invariant
            i <= data@.len(),
            out@ == old(out)@ + data@.take(i as int),
        decreases data@.len() - i,
    {
        out.push(data[i]);
        assert(data@.take(i + 1) =~= data@.take(i as int).push(data@[i as int]));
        assert(out@ =~= old(out)@ + data@.take(i + 1));
        i = i + 1;
    }
    assert(data@.take(i as int) =~= data@);
}

/// Appends a number in eight bytes.
fn put_le(out: &mut Vec<u8>, n: u64)
    ensures
        final(out)@ == old(out)@ + le(n),
{
    let mut b: Vec<u8> = u64_to_le_bytes(n);
    out.append(&mut b);
}

/// Appends one byte.
fn put_tag(out: &mut Vec<u8>, tag: u8)
    ensures
        final(out)@ == old(out)@ + seq![tag],
{
    out.push(tag);
    assert(final(out)@ =~= old(out)@ + seq![tag]);
}

/// Appends a field.
fn put_field(out: &mut Vec<u8>, tag: u8, s: &str)
    ensures
        final(out)@ == old(out)@ + field(tag, utf8(s@)),
{
    let data: &[u8] = s.as_bytes();
    put_tag(out, tag);
    put_le(out, data.len() as u64);
    put(out, data);
    assert(final(out)@ =~= old(out)@ + field(tag, utf8(s@)));
}

/// Appends a declared rate.
fn put_rate(out: &mut Vec<u8>, s: &Stream)
    ensures
        final(out)@ == old(out)@ + encode_rate(stream_content(*s).rate),
{
    match &s.declared_rate_hz {
        Some(r) => {
            put_tag(out, 6);
            put_le(out, *r);
            assert(final(out)@ =~= old(out)@ + (seq![6u8] + le(*r)));
        },
        None => put_tag(out, 7),
    }
}

/// Appends a declared element type.
fn put_dtype(out: &mut Vec<u8>, s: &Stream)
    ensures
        final(out)@ == old(out)@ + encode_dtype(stream_content(*s).dtype),
{
    match &s.dtype {
        Some(d) => put_field(out, 9, d.as_str()),
        None => put_tag(out, 10),
    }
}

/// Appends a declared shape.
fn put_shape(out: &mut Vec<u8>, s: &Stream)
    ensures
        final(out)@ == old(out)@ + encode_shape(stream_content(*s).shape),
{
    match &s.shape {
        Some(shape) => {
            put_tag(out, 11);
            put_le(out, shape.len() as u64);
            put_dims(out, shape);
            assert(final(out)@ =~= old(out)@ + (seq![11u8] + le(shape@.len() as u64) + encode_dims(shape@)));
        },
        None => put_tag(out, 12),
    }
}

/// Appends stored statistics.
fn put_stats(out: &mut Vec<u8>, s: &Stream)
    ensures
        final(out)@ == old(out)@ + encode_stats(stream_content(*s).stats),
{
    match &s.stats {
        Some(t) => {
            put_tag(out, 13);
            put_le(out, t.min);
            put_le(out, t.max);
            put_le(out, t.mean);
            put_le(out, t.std);
            assert(final(out)@ =~= old(out)@ + (seq![13u8] + le(t.min) + le(t.max) + le(t.mean) + le(
                t.std,
            )));
        },
        None => put_tag(out, 14),
    }
}

/// Appends a stream; `false` where it does not prove its content.
fn put_stream(out: &mut Vec<u8>, s: &Stream) -> (r: bool)
    ensures
        r == (s.frames@.len() > 0 && !structural::lacks_fingerprint(s.frames@)),
        r ==> final(out)@ == old(out)@ + encode_stream(stream_content(*s)),
{
    if s.frames.len() == 0 {
        return false;
    }
    let mut data: Vec<u8> = Vec::new();
    put_field(&mut data, 4, s.name.as_str());
    assert(data@ =~= field(4, utf8(s.name@)));
    put_field(&mut data, 5, s.modality.name());
    put_rate(&mut data, s);
    put_field(&mut data, 8, s.clock_id.as_str());
    put_dtype(&mut data, s);
    put_shape(&mut data, s);
    put_le(&mut data, s.frames.len() as u64);
    if !put_frames(&mut data, &s.frames) {
        return false;
    }
    put_stats(&mut data, s);
    out.append(&mut data);
    true
}

/// Appends dimensions.
fn put_dims(out: &mut Vec<u8>, shape: &Vec<u64>)
    ensures
        final(out)@ == old(out)@ + encode_dims(shape@),
{
    let mut i: usize = 0;
    assert(out@ + encode_dims(shape@.take(0)) =~= out@);
    while i < shape.len()
        invariant
            i <= shape@.len(),
            out@ == old(out)@ + encode_dims(shape@.take(i as int)),
        decreases shape@.len() - i,
    {
        assert(shape@.take(i + 1).drop_last() =~= shape@.take(i as int));
        put_le(out, shape[i]);
        assert(out@ =~= old(out)@ + encode_dims(shape@.take(i + 1)));
        i = i + 1;
    }
    assert(shape@.take(i as int) =~= shape@);
}

/// Appends frames; `false` where one carries no fingerprint.
fn put_frames(out: &mut Vec<u8>, frames: &Vec<Frame>) -> (r: bool)
    ensures
        r == !structural::lacks_fingerprint(frames@),
        r ==> final(out)@ == old(out)@ + encode_frames(frames_content(frames@)),
{
    let ghost all = frames_content(frames@);
    let mut i: usize = 0;
    assert(out@ + encode_frames(all.take(0)) =~= out@);
    while i < frames.len()
        invariant
            i <= frames@.len(),
            all == frames_content(frames@),
            forall|k: int| 0 <= k < i ==> structural::fingerprint(#[trigger] frames@[k]) is Some,
            out@ == old(out)@ + encode_frames(all.take(i as int)),
        decreases frames@.len() - i,
    {
        match &frames[i].value_ref.content_hash {
            Some(h) => {
                let ts: i64 = frames[i].ts;
                let b: u64 = if ts >= 0 { ts as u64 } else { (ts + 0x7fff_ffff_ffff_ffff + 1) as u64 + 0x8000_0000_0000_0000 };
                assert(b == as_bits(ts));
                assert(all.take(i + 1).drop_last() =~= all.take(i as int));
                put_le(out, b);
                put(out, h.as_slice());
                assert(out@ =~= old(out)@ + encode_frames(all.take(i + 1)));
            },
            None => {
                assert(structural::fingerprint(frames@[i as int]) is None);
                return false;
            },
        }
        i = i + 1;
    }
    assert(all.take(i as int) =~= all);
    true
}

/// The places of streams, ordered by name.
fn stream_places(streams: &Vec<Stream>) -> (r: Vec<usize>)
    ensures
        r@.len() == streams@.len(),
        forall|k: int| 0 <= k < r@.len() ==> (#[trigger] r@[k]) < streams@.len(),
        forall|k: int| 0 <= k < r@.len() ==> streams@[(#[trigger] r@[k]) as int] == seqs::sorted(streams@, stream_order())[k],
        seqs::sorted(streams@, stream_order()).len() == streams@.len(),
{
    let ghost lt = stream_order();
    let mut out: Vec<usize> = Vec::new();
    let mut i: usize = 0;
    while i < streams.len()
        invariant
            i <= streams@.len(),
            lt == stream_order(),
            out@.len() == i,
            forall|k: int| 0 <= k < i ==> (#[trigger] out@[k]) < i,
            seqs::sorted(streams@.take(i as int), lt).len() == i,
            forall|k: int| 0 <= k < i ==> streams@[(#[trigger] out@[k]) as int] == seqs::sorted(streams@.take(i as int), lt)[k],
        decreases streams@.len() - i,
    {
        let ghost was = seqs::sorted(streams@.take(i as int), lt);
        let ghost prev = out@;
        let mut k: usize = 0;
        while k < out.len() && !before(streams[i].name.as_str(), streams[out[k]].name.as_str())
            invariant
                k <= out@.len(),
                out@ == prev,
                i < streams@.len(),
                out@.len() == i,
                lt == stream_order(),
                was.len() == i,
                forall|j: int| 0 <= j < i ==> (#[trigger] out@[j]) < i,
                forall|j: int| 0 <= j < i ==> streams@[(#[trigger] out@[j]) as int] == was[j],
                forall|j: int| 0 <= j < k ==> !lt(streams@[i as int], #[trigger] was[j]),
            decreases out@.len() - k,
        {
            assert(streams@[out@[k as int] as int] == was[k as int]);
            k = k + 1;
        }
        proof {
            if k < out@.len() {
                assert(streams@[out@[k as int] as int] == was[k as int]);
            }
            seqs::lemma_placed_at(was, streams@[i as int], lt, k as int);
            seqs::lemma_sorted_step(streams@, lt, i as int);
        }
        out.insert(k, i);
        proof {
            let now = seqs::sorted(streams@.take(i + 1), lt);
            assert(now == was.insert(k as int, streams@[i as int]));
            assert forall|j: int| 0 <= j < i + 1 implies streams@[(#[trigger] out@[j]) as int] == now[j] by {
                if j < k {
                    assert(out@[j] == prev[j]);
                } else if j > k {
                    assert(out@[j] == prev[j - 1]);
                }
            }
            assert forall|j: int| 0 <= j < i + 1 implies (#[trigger] out@[j]) < i + 1 by {
                if j < k {
                    assert(out@[j] == prev[j]);
                } else if j > k {
                    assert(out@[j] == prev[j - 1]);
                }
            }
        }
        i = i + 1;
    }
    assert(streams@.take(i as int) =~= streams@);
    out
}

/// Whether label `a` comes before label `b`.
fn label_before(a: &Label, b: &Label) -> (r: bool)
    ensures
        r == label_lt(*a, *b),
{
    before(a.key.as_str(), b.key.as_str()) || (same(a.key.as_str(), b.key.as_str()) && before(
        a.value.as_str(),
        b.value.as_str(),
    ))
}

/// The places of labels, in order.
fn label_places(labels: &Vec<Label>) -> (r: Vec<usize>)
    ensures
        r@.len() == labels@.len(),
        forall|k: int| 0 <= k < r@.len() ==> (#[trigger] r@[k]) < labels@.len(),
        forall|k: int| 0 <= k < r@.len() ==> labels@[(#[trigger] r@[k]) as int] == seqs::sorted(labels@, label_order())[k],
        seqs::sorted(labels@, label_order()).len() == labels@.len(),
{
    let ghost lt = label_order();
    let mut out: Vec<usize> = Vec::new();
    let mut i: usize = 0;
    while i < labels.len()
        invariant
            i <= labels@.len(),
            lt == label_order(),
            out@.len() == i,
            forall|k: int| 0 <= k < i ==> (#[trigger] out@[k]) < i,
            seqs::sorted(labels@.take(i as int), lt).len() == i,
            forall|k: int| 0 <= k < i ==> labels@[(#[trigger] out@[k]) as int] == seqs::sorted(labels@.take(i as int), lt)[k],
        decreases labels@.len() - i,
    {
        let ghost was = seqs::sorted(labels@.take(i as int), lt);
        let ghost prev = out@;
        let mut k: usize = 0;
        while k < out.len() && !label_before(&labels[i], &labels[out[k]])
            invariant
                k <= out@.len(),
                out@ == prev,
                i < labels@.len(),
                out@.len() == i,
                lt == label_order(),
                was.len() == i,
                forall|j: int| 0 <= j < i ==> (#[trigger] out@[j]) < i,
                forall|j: int| 0 <= j < i ==> labels@[(#[trigger] out@[j]) as int] == was[j],
                forall|j: int| 0 <= j < k ==> !lt(labels@[i as int], #[trigger] was[j]),
            decreases out@.len() - k,
        {
            assert(labels@[out@[k as int] as int] == was[k as int]);
            k = k + 1;
        }
        proof {
            if k < out@.len() {
                assert(labels@[out@[k as int] as int] == was[k as int]);
            }
            seqs::lemma_placed_at(was, labels@[i as int], lt, k as int);
            seqs::lemma_sorted_step(labels@, lt, i as int);
        }
        out.insert(k, i);
        proof {
            let now = seqs::sorted(labels@.take(i + 1), lt);
            assert(now == was.insert(k as int, labels@[i as int]));
            assert forall|j: int| 0 <= j < i + 1 implies labels@[(#[trigger] out@[j]) as int] == now[j] by {
                if j < k {
                    assert(out@[j] == prev[j]);
                } else if j > k {
                    assert(out@[j] == prev[j - 1]);
                }
            }
            assert forall|j: int| 0 <= j < i + 1 implies (#[trigger] out@[j]) < i + 1 by {
                if j < k {
                    assert(out@[j] == prev[j]);
                } else if j > k {
                    assert(out@[j] == prev[j - 1]);
                }
            }
        }
        i = i + 1;
    }
    assert(labels@.take(i as int) =~= labels@);
    out
}

/// The bytes that stand for an episode's content, where that is proven.
pub fn episode_bytes(e: &Episode) -> (r: Option<Vec<u8>>)
    ensures
        r is Some <==> is_fingerprintable(*e),
        r is Some ==> r->0@ == encode(content_of(*e)),
{
    if e.streams.len() == 0 {
        return None;
    }
    let ghost c = content_of(*e);
    let mut out: Vec<u8> = Vec::new();
    match &e.task {
        Some(t) => put_field(&mut out, 1, t.as_str()),
        None => put_tag(&mut out, 0),
    }
    put_le(&mut out, e.labels.len() as u64);
    let order: Vec<usize> = label_places(&e.labels);
    let ghost head = out@;
    let mut i: usize = 0;
    assert(head + encode_labels(c.labels.take(0)) =~= head);
    while i < order.len()
        invariant
            i <= order@.len(),
            order@.len() == e.labels@.len(),
            forall|k: int| 0 <= k < order@.len() ==> (#[trigger] order@[k]) < e.labels@.len(),
            forall|k: int| 0 <= k < order@.len() ==> e.labels@[(#[trigger] order@[k]) as int] == seqs::sorted(e.labels@, label_order())[k],
            seqs::sorted(e.labels@, label_order()).len() == e.labels@.len(),
            c == content_of(*e),
            out@ == head + encode_labels(c.labels.take(i as int)),
        decreases order@.len() - i,
    {
        let l: &Label = &e.labels[order[i]];
        assert(c.labels[i as int] == (utf8(l.key@), utf8(l.value@)));
        assert(c.labels.take(i + 1).drop_last() =~= c.labels.take(i as int));
        put_field(&mut out, 2, l.key.as_str());
        put_field(&mut out, 3, l.value.as_str());
        assert(out@ =~= head + encode_labels(c.labels.take(i + 1)));
        i = i + 1;
    }
    assert(c.labels.take(i as int) =~= c.labels);
    put_le(&mut out, e.streams.len() as u64);
    let order: Vec<usize> = stream_places(&e.streams);
    let ghost head = out@;
    let mut i: usize = 0;
    assert(head + encode_streams(c.streams.take(0)) =~= head);
    while i < order.len()
        invariant
            i <= order@.len(),
            order@.len() == e.streams@.len(),
            e.streams@.len() > 0,
            forall|k: int| 0 <= k < order@.len() ==> (#[trigger] order@[k]) < e.streams@.len(),
            forall|k: int| 0 <= k < order@.len() ==> e.streams@[(#[trigger] order@[k]) as int] == seqs::sorted(e.streams@, stream_order())[k],
            seqs::sorted(e.streams@, stream_order()).len() == e.streams@.len(),
            c == content_of(*e),
            forall|k: int| 0 <= k < i ==> {
                let s = e.streams@[(#[trigger] order@[k]) as int];
                s.frames@.len() > 0 && !structural::lacks_fingerprint(s.frames@)
            },
            out@ == head + encode_streams(c.streams.take(i as int)),
        decreases order@.len() - i,
    {
        let s: &Stream = &e.streams[order[i]];
        assert(c.streams[i as int] == stream_content(*s));
        assert(c.streams.take(i + 1).drop_last() =~= c.streams.take(i as int));
        if !put_stream(&mut out, s) {
            assert(e.streams@[order@[i as int] as int] == *s);
            return None;
        }
        assert(out@ =~= head + encode_streams(c.streams.take(i + 1)));
        i = i + 1;
    }
    assert(c.streams.take(i as int) =~= c.streams);
    proof {
        let sorted = seqs::sorted(e.streams@, stream_order());
        seqs::lemma_sorted_multiset(e.streams@, stream_order());
        assert forall|j: int| 0 <= j < e.streams@.len() implies (#[trigger] e.streams@[j]).frames@.len() > 0
            && !structural::lacks_fingerprint(e.streams@[j].frames@) by {
            let x = e.streams@[j];
            assert(e.streams@.contains(x));
            broadcast use vstd::seq_lib::group_to_multiset_ensures;
            assert(e.streams@.to_multiset().contains(x));
            assert(sorted.to_multiset().contains(x));
            assert(sorted.contains(x));
            let k = choose|k: int| 0 <= k < sorted.len() && sorted[k] == x;
            assert(e.streams@[order@[k] as int] == x);
        }
    }
    Some(out)
}

/// A deterministic, exact signature of an episode's content, excluding its index; none where the
/// episode is not fingerprintable, because without proven-identical content a duplicate cannot be
/// claimed. Doubles are captured by their bits, so equality is exact.
pub fn signature(e: &Episode) -> (r: Option<[u8; 32]>)
    ensures
        r is Some <==> is_fingerprintable(*e),
        r is Some ==> r->0@ == digest::sha256(encode(content_of(*e))),
{
    match episode_bytes(e) {
        Some(data) => Some(hash_bytes(data.as_slice())),
        None => None,
    }
}

// ---- different contents are written differently ----------------------------------------------

/// Whether a content can be written: its lengths fit in 64 bits, and its fingerprints are 32 bytes.
pub open spec fn stream_fits(c: StreamContent) -> bool {
    &&& c.name.len() <= u64::MAX
    &&& c.modality.len() <= u64::MAX
    &&& c.clock.len() <= u64::MAX
    &&& c.dtype is Some ==> c.dtype->0.len() <= u64::MAX
    &&& c.shape is Some ==> c.shape->0.len() <= u64::MAX
    &&& c.frames.len() <= u64::MAX
    &&& forall|k: int| 0 <= k < c.frames.len() ==> (#[trigger] c.frames[k]).1.len() == 32
}

/// Whether a content can be written.
pub open spec fn fits(c: EpisodeContent) -> bool {
    &&& c.task is Some ==> c.task->0.len() <= u64::MAX
    &&& c.labels.len() <= u64::MAX
    &&& forall|k: int|
        0 <= k < c.labels.len() ==> (#[trigger] c.labels[k]).0.len() <= u64::MAX && c.labels[k].1.len() <= u64::MAX
    &&& c.streams.len() <= u64::MAX
    &&& forall|k: int| 0 <= k < c.streams.len() ==> stream_fits(#[trigger] c.streams[k])
}

/// Equal wholes with equally long heads have equal heads and equal tails.
proof fn lemma_split(a: Seq<u8>, r: Seq<u8>, b: Seq<u8>, q: Seq<u8>)
    requires
        a + r == b + q,
        a.len() == b.len(),
    ensures
        a == b,
        r == q,
{
    assert(a =~= (a + r).take(a.len() as int));
    assert(b =~= (b + q).take(b.len() as int));
    assert(r =~= (a + r).skip(a.len() as int));
    assert(q =~= (b + q).skip(b.len() as int));
}

/// A number is read off the front.
proof fn lemma_le_split(a: u64, r: Seq<u8>, b: u64, q: Seq<u8>)
    requires
        le(a) + r == le(b) + q,
    ensures
        a == b,
        r == q,
{
    bytes::lemma_auto_spec_u64_to_from_le_bytes();
    lemma_split(le(a), r, le(b), q);
    assert(bytes::spec_u64_from_le_bytes(le(a)) == a);
    assert(bytes::spec_u64_from_le_bytes(le(b)) == b);
}

/// A field is read off the front.
proof fn lemma_field_split(tag: u8, x: Seq<u8>, r: Seq<u8>, y: Seq<u8>, q: Seq<u8>)
    requires
        field(tag, x) + r == field(tag, y) + q,
        x.len() <= u64::MAX,
        y.len() <= u64::MAX,
    ensures
        x == y,
        r == q,
{
    let t = seq![tag];
    assert(field(tag, x) + r =~= t + (le(x.len() as u64) + (x + r)));
    assert(field(tag, y) + q =~= t + (le(y.len() as u64) + (y + q)));
    lemma_split(t, le(x.len() as u64) + (x + r), t, le(y.len() as u64) + (y + q));
    lemma_le_split(x.len() as u64, x + r, y.len() as u64, y + q);
    lemma_split(x, r, y, q);
}

/// Two alternatives that start with different tags differ.
proof fn lemma_tags_differ(t: u8, r: Seq<u8>, u: u8, q: Seq<u8>)
    requires
        t != u,
    ensures
        seq![t] + r != seq![u] + q,
{
    assert((seq![t] + r)[0] == t);
    assert((seq![u] + q)[0] == u);
}

/// As many labels are read off the front.
proof fn lemma_labels_split(s: Seq<(Seq<u8>, Seq<u8>)>, r: Seq<u8>, t: Seq<(Seq<u8>, Seq<u8>)>, q: Seq<u8>)
    requires
        s.len() == t.len(),
        encode_labels(s) + r == encode_labels(t) + q,
        forall|k: int| 0 <= k < s.len() ==> (#[trigger] s[k]).0.len() <= u64::MAX && s[k].1.len() <= u64::MAX,
        forall|k: int| 0 <= k < t.len() ==> (#[trigger] t[k]).0.len() <= u64::MAX && t[k].1.len() <= u64::MAX,
    ensures
        s == t,
        r == q,
    decreases s.len(),
{
    if s.len() == 0 {
        assert(s =~= t);
        assert(encode_labels(s) + r =~= r);
        assert(encode_labels(t) + q =~= q);
    } else {
        let (a, b) = (s.last(), t.last());
        assert(a == s[s.len() - 1]);
        assert(b == t[t.len() - 1]);
        let r1 = field(2, a.0) + (field(3, a.1) + r);
        let q1 = field(2, b.0) + (field(3, b.1) + q);
        assert(encode_labels(s) + r =~= encode_labels(s.drop_last()) + r1);
        assert(encode_labels(t) + q =~= encode_labels(t.drop_last()) + q1);
        lemma_labels_split(s.drop_last(), r1, t.drop_last(), q1);
        lemma_field_split(2, a.0, field(3, a.1) + r, b.0, field(3, b.1) + q);
        lemma_field_split(3, a.1, r, b.1, q);
        assert(s =~= s.drop_last().push(a));
        assert(t =~= t.drop_last().push(b));
    }
}

/// As many dimensions are read off the front.
proof fn lemma_dims_split(s: Seq<u64>, r: Seq<u8>, t: Seq<u64>, q: Seq<u8>)
    requires
        s.len() == t.len(),
        encode_dims(s) + r == encode_dims(t) + q,
    ensures
        s == t,
        r == q,
    decreases s.len(),
{
    if s.len() == 0 {
        assert(s =~= t);
        assert(encode_dims(s) + r =~= r);
        assert(encode_dims(t) + q =~= q);
    } else {
        let r1 = le(s.last()) + r;
        let q1 = le(t.last()) + q;
        assert(encode_dims(s) + r =~= encode_dims(s.drop_last()) + r1);
        assert(encode_dims(t) + q =~= encode_dims(t.drop_last()) + q1);
        lemma_dims_split(s.drop_last(), r1, t.drop_last(), q1);
        lemma_le_split(s.last(), r, t.last(), q);
        assert(s =~= s.drop_last().push(s.last()));
        assert(t =~= t.drop_last().push(t.last()));
    }
}

/// As many frames are read off the front.
proof fn lemma_frames_split(s: Seq<(u64, Seq<u8>)>, r: Seq<u8>, t: Seq<(u64, Seq<u8>)>, q: Seq<u8>)
    requires
        s.len() == t.len(),
        encode_frames(s) + r == encode_frames(t) + q,
        forall|k: int| 0 <= k < s.len() ==> (#[trigger] s[k]).1.len() == 32,
        forall|k: int| 0 <= k < t.len() ==> (#[trigger] t[k]).1.len() == 32,
    ensures
        s == t,
        r == q,
    decreases s.len(),
{
    if s.len() == 0 {
        assert(s =~= t);
        assert(encode_frames(s) + r =~= r);
        assert(encode_frames(t) + q =~= q);
    } else {
        let (a, b) = (s.last(), t.last());
        assert(a == s[s.len() - 1]);
        assert(b == t[t.len() - 1]);
        let r1 = le(a.0) + (a.1 + r);
        let q1 = le(b.0) + (b.1 + q);
        assert(encode_frames(s) + r =~= encode_frames(s.drop_last()) + r1);
        assert(encode_frames(t) + q =~= encode_frames(t.drop_last()) + q1);
        lemma_frames_split(s.drop_last(), r1, t.drop_last(), q1);
        lemma_le_split(a.0, a.1 + r, b.0, b.1 + q);
        lemma_split(a.1, r, b.1, q);
        assert(s =~= s.drop_last().push(a));
        assert(t =~= t.drop_last().push(b));
    }
}

/// A rate is read off the front.
proof fn lemma_rate_split(x: Option<u64>, r: Seq<u8>, y: Option<u64>, q: Seq<u8>)
    requires
        encode_rate(x) + r == encode_rate(y) + q,
    ensures
        x == y,
        r == q,
{
    match (x, y) {
        (Some(a), Some(b)) => {
            assert(encode_rate(x) + r =~= seq![6u8] + (le(a) + r));
            assert(encode_rate(y) + q =~= seq![6u8] + (le(b) + q));
            lemma_split(seq![6u8], le(a) + r, seq![6u8], le(b) + q);
            lemma_le_split(a, r, b, q);
        },
        (None, None) => {
            lemma_split(seq![7u8], r, seq![7u8], q);
        },
        (Some(a), None) => {
            assert(encode_rate(x) + r =~= seq![6u8] + (le(a) + r));
            lemma_tags_differ(6, le(a) + r, 7, q);
        },
        (None, Some(b)) => {
            assert(encode_rate(y) + q =~= seq![6u8] + (le(b) + q));
            lemma_tags_differ(7, r, 6, le(b) + q);
        },
    }
}

/// An element type is read off the front.
proof fn lemma_dtype_split(x: Option<Seq<u8>>, r: Seq<u8>, y: Option<Seq<u8>>, q: Seq<u8>)
    requires
        encode_dtype(x) + r == encode_dtype(y) + q,
        x is Some ==> x->0.len() <= u64::MAX,
        y is Some ==> y->0.len() <= u64::MAX,
    ensures
        x == y,
        r == q,
{
    match (x, y) {
        (Some(a), Some(b)) => {
            lemma_field_split(9, a, r, b, q);
        },
        (None, None) => {
            lemma_split(seq![10u8], r, seq![10u8], q);
        },
        (Some(a), None) => {
            assert(encode_dtype(x) + r =~= seq![9u8] + (le(a.len() as u64) + a + r));
            lemma_tags_differ(9, le(a.len() as u64) + a + r, 10, q);
        },
        (None, Some(b)) => {
            assert(encode_dtype(y) + q =~= seq![9u8] + (le(b.len() as u64) + b + q));
            lemma_tags_differ(10, r, 9, le(b.len() as u64) + b + q);
        },
    }
}

/// A shape is read off the front.
proof fn lemma_shape_split(x: Option<Seq<u64>>, r: Seq<u8>, y: Option<Seq<u64>>, q: Seq<u8>)
    requires
        encode_shape(x) + r == encode_shape(y) + q,
        x is Some ==> x->0.len() <= u64::MAX,
        y is Some ==> y->0.len() <= u64::MAX,
    ensures
        x == y,
        r == q,
{
    match (x, y) {
        (Some(a), Some(b)) => {
            let r1 = le(a.len() as u64) + (encode_dims(a) + r);
            let q1 = le(b.len() as u64) + (encode_dims(b) + q);
            assert(encode_shape(x) + r =~= seq![11u8] + r1);
            assert(encode_shape(y) + q =~= seq![11u8] + q1);
            lemma_split(seq![11u8], r1, seq![11u8], q1);
            lemma_le_split(a.len() as u64, encode_dims(a) + r, b.len() as u64, encode_dims(b) + q);
            lemma_dims_split(a, r, b, q);
        },
        (None, None) => {
            lemma_split(seq![12u8], r, seq![12u8], q);
        },
        (Some(a), None) => {
            let r1 = le(a.len() as u64) + (encode_dims(a) + r);
            assert(encode_shape(x) + r =~= seq![11u8] + r1);
            lemma_tags_differ(11, r1, 12, q);
        },
        (None, Some(b)) => {
            let q1 = le(b.len() as u64) + (encode_dims(b) + q);
            assert(encode_shape(y) + q =~= seq![11u8] + q1);
            lemma_tags_differ(12, r, 11, q1);
        },
    }
}

/// Statistics are read off the front.
proof fn lemma_stats_split(x: Option<(u64, u64, u64, u64)>, r: Seq<u8>, y: Option<(u64, u64, u64, u64)>, q: Seq<u8>)
    requires
        encode_stats(x) + r == encode_stats(y) + q,
    ensures
        x == y,
        r == q,
{
    match (x, y) {
        (Some(a), Some(b)) => {
            let r1 = le(a.0) + (le(a.1) + (le(a.2) + (le(a.3) + r)));
            let q1 = le(b.0) + (le(b.1) + (le(b.2) + (le(b.3) + q)));
            assert(encode_stats(x) + r =~= seq![13u8] + r1);
            assert(encode_stats(y) + q =~= seq![13u8] + q1);
            lemma_split(seq![13u8], r1, seq![13u8], q1);
            lemma_le_split(a.0, le(a.1) + (le(a.2) + (le(a.3) + r)), b.0, le(b.1) + (le(b.2) + (le(b.3) + q)));
            lemma_le_split(a.1, le(a.2) + (le(a.3) + r), b.1, le(b.2) + (le(b.3) + q));
            lemma_le_split(a.2, le(a.3) + r, b.2, le(b.3) + q);
            lemma_le_split(a.3, r, b.3, q);
        },
        (None, None) => {
            lemma_split(seq![14u8], r, seq![14u8], q);
        },
        (Some(a), None) => {
            let r1 = le(a.0) + (le(a.1) + (le(a.2) + (le(a.3) + r)));
            assert(encode_stats(x) + r =~= seq![13u8] + r1);
            lemma_tags_differ(13, r1, 14, q);
        },
        (None, Some(b)) => {
            let q1 = le(b.0) + (le(b.1) + (le(b.2) + (le(b.3) + q)));
            assert(encode_stats(y) + q =~= seq![13u8] + q1);
            lemma_tags_differ(14, r, 13, q1);
        },
    }
}

/// Concatenation regroups to the right.
proof fn lemma_regroup(a: Seq<u8>, b: Seq<u8>, c: Seq<u8>, d: Seq<u8>, e: Seq<u8>, r: Seq<u8>)
    ensures
        a + b + c + d + e + r == a + (b + (c + (d + (e + r)))),
{
    assert(a + b + c + d + e + r =~= a + (b + (c + (d + (e + r)))));
}

/// A stream's fields, one by one from the front.
proof fn lemma_stream_regroup(c: StreamContent, r: Seq<u8>)
    ensures
        encode_stream(c) + r == field(4, c.name) + (field(5, c.modality) + (encode_rate(c.rate) + (field(8, c.clock) + (
        encode_dtype(c.dtype) + (encode_shape(c.shape) + (le(c.frames.len() as u64) + (encode_frames(c.frames) + (
        encode_stats(c.stats) + r)))))))),
{
    let (a, b, d, e, f) = (
        field(4, c.name),
        field(5, c.modality),
        encode_rate(c.rate),
        field(8, c.clock),
        encode_dtype(c.dtype),
    );
    let (g, h, i, j) = (encode_shape(c.shape), le(c.frames.len() as u64), encode_frames(c.frames), encode_stats(c.stats));
    lemma_regroup(a + b + d + e + f, g, h, i, j, r);
    lemma_regroup(a, b, d, e, f, g + (h + (i + (j + r))));
}

/// A stream is read off the front.
proof fn lemma_stream_split(x: StreamContent, r: Seq<u8>, y: StreamContent, q: Seq<u8>)
    requires
        encode_stream(x) + r == encode_stream(y) + q,
        stream_fits(x),
        stream_fits(y),
    ensures
        x == y,
        r == q,
{
    let r8 = encode_stats(x.stats) + r;
    let q8 = encode_stats(y.stats) + q;
    let r7 = encode_frames(x.frames) + r8;
    let q7 = encode_frames(y.frames) + q8;
    let r6 = le(x.frames.len() as u64) + r7;
    let q6 = le(y.frames.len() as u64) + q7;
    let r5 = encode_shape(x.shape) + r6;
    let q5 = encode_shape(y.shape) + q6;
    let r4 = encode_dtype(x.dtype) + r5;
    let q4 = encode_dtype(y.dtype) + q5;
    let r3 = field(8, x.clock) + r4;
    let q3 = field(8, y.clock) + q4;
    let r2 = encode_rate(x.rate) + r3;
    let q2 = encode_rate(y.rate) + q3;
    let r1 = field(5, x.modality) + r2;
    let q1 = field(5, y.modality) + q2;
    assert(encode_stream(x) + r == field(4, x.name) + r1) by {
        lemma_stream_regroup(x, r);
    }
    assert(encode_stream(y) + q == field(4, y.name) + q1) by {
        lemma_stream_regroup(y, q);
    }
    lemma_field_split(4, x.name, r1, y.name, q1);
    lemma_field_split(5, x.modality, r2, y.modality, q2);
    lemma_rate_split(x.rate, r3, y.rate, q3);
    lemma_field_split(8, x.clock, r4, y.clock, q4);
    lemma_dtype_split(x.dtype, r5, y.dtype, q5);
    lemma_shape_split(x.shape, r6, y.shape, q6);
    lemma_le_split(x.frames.len() as u64, r7, y.frames.len() as u64, q7);
    lemma_frames_split(x.frames, r8, y.frames, q8);
    lemma_stats_split(x.stats, r, y.stats, q);
}

/// As many streams are read off the front.
proof fn lemma_streams_split(s: Seq<StreamContent>, r: Seq<u8>, t: Seq<StreamContent>, q: Seq<u8>)
    requires
        s.len() == t.len(),
        encode_streams(s) + r == encode_streams(t) + q,
        forall|k: int| 0 <= k < s.len() ==> stream_fits(#[trigger] s[k]),
        forall|k: int| 0 <= k < t.len() ==> stream_fits(#[trigger] t[k]),
    ensures
        s == t,
        r == q,
    decreases s.len(),
{
    if s.len() == 0 {
        assert(s =~= t);
        assert(encode_streams(s) + r =~= r);
        assert(encode_streams(t) + q =~= q);
    } else {
        let (a, b) = (s.last(), t.last());
        assert(a == s[s.len() - 1]);
        assert(b == t[t.len() - 1]);
        let r1 = encode_stream(a) + r;
        let q1 = encode_stream(b) + q;
        assert(encode_streams(s) + r =~= encode_streams(s.drop_last()) + r1);
        assert(encode_streams(t) + q =~= encode_streams(t.drop_last()) + q1);
        lemma_streams_split(s.drop_last(), r1, t.drop_last(), q1);
        lemma_stream_split(a, r, b, q);
        assert(s =~= s.drop_last().push(a));
        assert(t =~= t.drop_last().push(b));
    }
}

/// An episode's fields, one by one from the front.
proof fn lemma_content_regroup(c: EpisodeContent)
    ensures
        encode(c) == encode_task(c.task) + (le(c.labels.len() as u64) + (encode_labels(c.labels) + (le(
            c.streams.len() as u64,
        ) + (encode_streams(c.streams) + Seq::<u8>::empty())))),
{
    lemma_regroup(
        encode_task(c.task),
        le(c.labels.len() as u64),
        encode_labels(c.labels),
        le(c.streams.len() as u64),
        encode_streams(c.streams),
        Seq::empty(),
    );
    assert(encode(c) + Seq::<u8>::empty() =~= encode(c));
}

/// No two different contents are written as the same bytes: no field can run into the next.
pub proof fn law_encoding_is_injective(x: EpisodeContent, y: EpisodeContent)
    requires
        fits(x),
        fits(y),
        encode(x) == encode(y),
    ensures
        x == y,
{
    let none = Seq::<u8>::empty();
    let r4 = encode_streams(x.streams) + none;
    let q4 = encode_streams(y.streams) + none;
    let r3 = le(x.streams.len() as u64) + r4;
    let q3 = le(y.streams.len() as u64) + q4;
    let r2 = encode_labels(x.labels) + r3;
    let q2 = encode_labels(y.labels) + q3;
    let r1 = le(x.labels.len() as u64) + r2;
    let q1 = le(y.labels.len() as u64) + q2;
    match (x.task, y.task) {
        (Some(a), Some(b)) => {
            lemma_content_regroup(x);
            lemma_content_regroup(y);
            lemma_field_split(1, a, r1, b, q1);
        },
        (None, None) => {
            lemma_content_regroup(x);
            lemma_content_regroup(y);
            lemma_split(seq![0u8], r1, seq![0u8], q1);
        },
        (Some(a), None) => {
            lemma_content_regroup(x);
            assert(encode(x) =~= seq![1u8] + (le(a.len() as u64) + a + r1));
            lemma_content_regroup(y);
            lemma_tags_differ(1, le(a.len() as u64) + a + r1, 0, q1);
        },
        (None, Some(b)) => {
            lemma_content_regroup(x);
            lemma_content_regroup(y);
            assert(encode(y) =~= seq![1u8] + (le(b.len() as u64) + b + q1));
            lemma_tags_differ(0, r1, 1, le(b.len() as u64) + b + q1);
        },
    }
    lemma_le_split(x.labels.len() as u64, r2, y.labels.len() as u64, q2);
    lemma_labels_split(x.labels, r3, y.labels, q3);
    lemma_le_split(x.streams.len() as u64, r4, y.streams.len() as u64, q4);
    lemma_streams_split(x.streams, none, y.streams, none);
}

/// A label's key and value.
spec fn label_key() -> spec_fn(Label) -> (Seq<char>, Seq<char>) {
    |l: Label| (l.key@, l.value@)
}

/// The order of keys and values.
spec fn pair_order() -> spec_fn((Seq<char>, Seq<char>), (Seq<char>, Seq<char>)) -> bool {
    |a: (Seq<char>, Seq<char>), b: (Seq<char>, Seq<char>)|
        text::str_lt(a.0, b.0) || (a.0 == b.0 && text::str_lt(a.1, b.1))
}

/// Keys and values are totally ordered.
proof fn lemma_pair_order()
    ensures
        seqs::total_order(pair_order()),
{
    let lt = pair_order();
    assert forall|a: (Seq<char>, Seq<char>), b: (Seq<char>, Seq<char>)| #[trigger] lt(a, b) implies !lt(b, a) by {
        text::lemma_str_trichotomy(a.0, b.0);
        text::lemma_str_trichotomy(a.1, b.1);
    }
    assert forall|a: (Seq<char>, Seq<char>), b: (Seq<char>, Seq<char>)| !(#[trigger] lt(a, b)) && !lt(b, a) implies a == b by {
        text::lemma_str_trichotomy(a.0, b.0);
        text::lemma_str_trichotomy(a.1, b.1);
    }
    assert forall|a: (Seq<char>, Seq<char>), b: (Seq<char>, Seq<char>), c: (Seq<char>, Seq<char>)|
        #[trigger] lt(a, b) && #[trigger] lt(b, c) implies lt(a, c) by {
        if text::str_lt(a.0, b.0) && text::str_lt(b.0, c.0) {
            text::lemma_str_transitive(a.0, b.0, c.0);
        }
        if text::str_lt(a.1, b.1) && text::str_lt(b.1, c.1) {
            text::lemma_str_transitive(a.1, b.1, c.1);
        }
    }
}

/// What duplicates of labels share with them does not depend on the order of the labels.
proof fn lemma_labels_in_any_order(s: Seq<Label>, t: Seq<Label>)
    requires
        s.to_multiset() == t.to_multiset(),
    ensures
        labels_content(seqs::sorted(s, label_order())) == labels_content(seqs::sorted(t, label_order())),
{
    let key = label_key();
    lemma_pair_order();
    seqs::lemma_sorted_keys(s, key, label_order(), pair_order());
    seqs::lemma_sorted_keys(t, key, label_order(), pair_order());
    seqs::lemma_map_is_gather(s, key);
    seqs::lemma_map_is_gather(t, key);
    seqs::lemma_gather_multiset(s, t, |l: Label| seq![key(l)]);
    seqs::law_sorting_forgets_the_order(s.map_values(key), t.map_values(key), pair_order());
    let (a, b) = (seqs::sorted(s, label_order()), seqs::sorted(t, label_order()));
    assert(a.map_values(key) == b.map_values(key));
    assert(a.len() == a.map_values(key).len() && b.len() == b.map_values(key).len());
    assert forall|i: int| 0 <= i < a.len() implies labels_content(a)[i] == labels_content(b)[i] by {
        assert(a.map_values(key)[i] == (a[i].key@, a[i].value@));
        assert(b.map_values(key)[i] == (b[i].key@, b[i].value@));
    }
    assert(labels_content(a) =~= labels_content(b));
}

/// The names of streams.
pub open spec fn stream_names(s: Seq<Stream>) -> Seq<Seq<char>> {
    s.map_values(|x: Stream| x.name@)
}

/// What makes an episode a duplicate of another does not depend on its index, on when it declares to
/// start and end, or on the order of its labels and streams, whose names are distinct.
pub proof fn law_signature_ignores_index_and_order(a: Episode, b: Episode)
    requires
        a.task == b.task,
        a.labels@.to_multiset() == b.labels@.to_multiset(),
        a.streams@.to_multiset() == b.streams@.to_multiset(),
        stream_names(a.streams@).no_duplicates(),
    ensures
        content_of(a) == content_of(b),
        is_fingerprintable(a) == is_fingerprintable(b),
{
    broadcast use vstd::seq_lib::group_to_multiset_ensures;

    lemma_labels_in_any_order(a.labels@, b.labels@);
    seqs::lemma_text_order();
    seqs::lemma_sorted_by_distinct_keys(
        a.streams@,
        b.streams@,
        |x: Stream| x.name@,
        stream_order(),
        seqs::text_order(),
    );
    if is_fingerprintable(a) {
        lemma_same_streams(a, b);
    }
    if is_fingerprintable(b) {
        lemma_same_streams(b, a);
    }
}

/// An episode with the streams of one whose content is proven is proven too.
proof fn lemma_same_streams(a: Episode, b: Episode)
    requires
        a.streams@.to_multiset() == b.streams@.to_multiset(),
        is_fingerprintable(a),
    ensures
        is_fingerprintable(b),
{
    broadcast use vstd::seq_lib::group_to_multiset_ensures;

    let (s, t) = (a.streams@, b.streams@);
    assert(s.len() == s.to_multiset().len() && t.len() == t.to_multiset().len());
    assert forall|j: int| 0 <= j < t.len() implies (#[trigger] t[j]).frames@.len() > 0 && !structural::lacks_fingerprint(
        t[j].frames@,
    ) by {
        assert(t.contains(t[j]));
        assert(s.to_multiset().contains(t[j]));
        assert(s.contains(t[j]));
        let i = choose|i: int| 0 <= i < s.len() && s[i] == t[j];
        assert(s[i].frames@.len() > 0 && !structural::lacks_fingerprint(s[i].frames@));
    }
}

} // verus!
