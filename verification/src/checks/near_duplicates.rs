//! Near-duplicates: episodes built largely from the same frames.

use std::collections::HashMap;

use vstd::prelude::*;
use vstd::std_specs::hash;
use vstd::string::*;

use crate::cat::{cat3, cat5};
use crate::cdm::{Dataset, Episode, Frame, Stream};
use crate::check;
use crate::check::{Category, Check, CheckContext, CheckInfo, CheckMeta, Finding, FindingView, Location, LocationView, Scope, Severity};
use crate::checks::duplicates;
use crate::checks::duplicates::DuplicateEpisode;
use crate::checks::lists;
use crate::checks::lists::join_numbers;
use crate::checks::signature;
use crate::checks::structural;
use crate::checks::structural::same_hash;
use crate::number;
use crate::seqs;
use crate::seqs::{put_number, put_text};
use crate::sort;
use crate::sort::Ranked;
use crate::text;
use crate::text::{before, dec_usize, same};

verus! {

/// Near-duplicate episodes: two episodes built largely from the **same frames**.
///
/// [`duplicates::DuplicateEpisode`] proves *exact* duplication. This check speaks of the case one
/// step to the side: an episode re-uploaded with its tail trimmed, a merge that pulled the same
/// recording in twice under different indices, one episode wholly contained in a longer one. Every
/// frame of the overlap is byte-identical; the episodes are not.
///
/// The evidence is set overlap over frame fingerprints; no payload is decoded. It catches re-uploads
/// and partial copies, and it does **not** catch a re-encoded or perturbed copy.
///
/// - **Only distinctive streams are evidence.** Every frame carries a fingerprint, there are at
///   least [`MIN_FRAMES`] frames, and at least four fifths of them are distinct from one another.
/// - **Every shared stream must agree.** A pair's overlap is the *minimum* across the streams both
///   episodes carry as evidence.
/// - **A frame that everyone has is not evidence.** A fingerprint in more than
///   [`MAX_EPISODES_PER_HASH`] episodes is boilerplate and is skipped.
///
/// What bounds the pathological dataset is [`MAX_TRACKED_PAIRS`], past which the check says that it
/// abstained. Pairs that the exact check reports are left to it.
#[derive(Debug)]
pub struct NearDuplicateEpisode {
    /// Minimum shared fraction of frames, over the smaller of the two episodes, at which a pair is
    /// reported.
    pub min_overlap: u64,
}

/// Fewest frames a stream needs before its overlap means anything.
pub const MIN_FRAMES: usize = 8;

/// Fraction of a stream's frames that must be distinct from one another for it to be evidence: the
/// double four fifths.
pub const MIN_DISTINCT_FRACTION: u64 = 0x3fe9_9999_9999_999a;

/// A fingerprint in more episodes than this is boilerplate, not evidence.
pub const MAX_EPISODES_PER_HASH: usize = 512;

/// Ceiling on candidate pairs held at once. Past it the check abstains, loudly.
pub const MAX_TRACKED_PAIRS: usize = 200_000;

/// The double one.
pub const ONE: u64 = 0x3ff0_0000_0000_0000;

/// The id of [`NearDuplicateEpisode`].
pub const NEAR_ID: &'static str = "structural.near-duplicate-episode";

/// The code of its findings.
pub const NEAR_CODE: &'static str = "STRUCTURAL.NEAR_DUPLICATE_EPISODE";

/// The code of its abstention.
pub const NEAR_UNCHECKED_CODE: &'static str = "STRUCTURAL.NEAR_DUPLICATE_UNCHECKED";

pub const UNCHECKED_RISK: &'static str = "Those episodes were not checked for near-duplication. A re-uploaded or partially \
     copied episode among them is not absent from this report, it was never looked \
     for.";

pub const UNCHECKED_REMEDY: &'static str = "Check the dataset in parts (each shard or split on its own), where the pair count \
     is within reach.";

pub const NEAR_RISK: &'static str = "A re-uploaded or partially copied episode trains its trajectory twice, \
     over-weighting it and inflating the apparent size of the dataset — and unlike \
     an exact duplicate it survives de-duplication by content hash.";

pub const NEAR_REMEDY: &'static str = "Compare these episodes at the source: keep the longest or the original \
     recording and drop the copies, or record why the overlap is intentional.";

// ---- the evidence ----------------------------------------------------------------------------

/// A stream that can evidence duplication, with its distinct fingerprints.
pub struct EvidenceView {
    /// The stream's name.
    pub name: Seq<char>,
    /// The distinct fingerprints of its frames, in order.
    pub hashes: Seq<Seq<u8>>,
}

/// An episode with evidence.
pub struct ItemView {
    /// The episode's index.
    pub index: u64,
    /// Its evidence, by stream name.
    pub streams: Seq<EvidenceView>,
    /// Its signature, where its content is proven.
    pub signature: Option<Seq<u8>>,
}

/// The order of fingerprints, as a function.
pub open spec fn hash_order() -> spec_fn(Seq<u8>, Seq<u8>) -> bool {
    |a: Seq<u8>, b: Seq<u8>| text::bytes_lt(a, b)
}

/// The fingerprints of frames.
pub open spec fn frame_hashes(frames: Seq<Frame>) -> Seq<Seq<u8>> {
    frames.map_values(|f: Frame| structural::fingerprint(f)->0)
}

/// The distinct fingerprints of frames, in order.
pub open spec fn hash_set(frames: Seq<Frame>) -> Seq<Seq<u8>> {
    seqs::distinct(frame_hashes(frames), hash_order())
}

/// Whether a stream can evidence duplication.
pub open spec fn is_evidence(stream: Stream) -> bool {
    let frames = stream.frames@;
    &&& frames.len() >= MIN_FRAMES
    &&& !structural::lacks_fingerprint(frames)
    &&& !number::less(number::nearest_bits(hash_set(frames).len(), frames.len()) as u64, MIN_DISTINCT_FRACTION)
}

/// Evidence by stream name with one stream filed: in the place of its name, instead of an earlier
/// stream of that name.
pub open spec fn filed(s: Seq<EvidenceView>, x: EvidenceView) -> Seq<EvidenceView>
    decreases s.len(),
{
    if s.len() == 0 {
        seq![x]
    } else if text::str_lt(s[0].name, x.name) {
        seq![s[0]] + filed(s.skip(1), x)
    } else if s[0].name == x.name {
        seq![x] + s.skip(1)
    } else {
        seq![x] + s
    }
}

/// The evidence of streams, by name.
pub open spec fn evidence(streams: Seq<Stream>) -> Seq<EvidenceView>
    decreases streams.len(),
{
    if streams.len() == 0 {
        Seq::empty()
    } else if is_evidence(streams.last()) {
        filed(
            evidence(streams.drop_last()),
            EvidenceView { name: streams.last().name@, hashes: hash_set(streams.last().frames@) },
        )
    } else {
        evidence(streams.drop_last())
    }
}

/// The episodes with evidence, in order.
pub open spec fn items_of(episodes: Seq<Episode>) -> Seq<ItemView>
    decreases episodes.len(),
{
    if episodes.len() == 0 {
        Seq::empty()
    } else {
        let rest = items_of(episodes.drop_last());
        let streams = evidence(episodes.last().streams@);
        if streams.len() > 0 {
            rest.push(
                ItemView {
                    index: episodes.last().index,
                    streams,
                    signature: duplicates::signature_of(episodes.last()),
                },
            )
        } else {
            rest
        }
    }
}

/// The fingerprints of the stream with a name.
pub open spec fn hashes_named(streams: Seq<EvidenceView>, name: Seq<char>) -> Option<Seq<Seq<u8>>>
    decreases streams.len(),
{
    if streams.len() == 0 {
        None
    } else if streams[0].name == name {
        Some(streams[0].hashes)
    } else {
        hashes_named(streams.skip(1), name)
    }
}

/// The names of streams that are evidence somewhere, in order.
pub open spec fn evidence_names(items: Seq<ItemView>) -> Seq<Seq<char>> {
    seqs::text_set(names_in(items))
}

/// The names of the streams of some episodes.
pub open spec fn names_in(items: Seq<ItemView>) -> Seq<Seq<char>>
    decreases items.len(),
{
    if items.len() == 0 {
        Seq::empty()
    } else {
        names_in(items.drop_last()) + stream_names(items.last().streams)
    }
}

/// The names of streams.
pub open spec fn stream_names(streams: Seq<EvidenceView>) -> Seq<Seq<char>> {
    streams.map_values(|e: EvidenceView| e.name)
}

// ---- who holds what --------------------------------------------------------------------------

/// Which episode holds which fingerprint in the stream with a name.
pub open spec fn holdings(items: Seq<ItemView>, name: Seq<char>) -> Seq<(Seq<u8>, int)>
    decreases items.len(),
{
    if items.len() == 0 {
        Seq::empty()
    } else {
        let rest = holdings(items.drop_last(), name);
        match hashes_named(items.last().streams, name) {
            Some(hashes) => rest + held_by(hashes, items.len() - 1),
            None => rest,
        }
    }
}

/// Fingerprints, each held by the episode at a position.
pub open spec fn held_by(hashes: Seq<Seq<u8>>, position: int) -> Seq<(Seq<u8>, int)> {
    hashes.map_values(|h: Seq<u8>| (h, position))
}

/// The holdings sorted by fingerprint, then by position: each run is a fingerprint and its holders.
pub open spec fn runs(items: Seq<ItemView>, name: Seq<char>) -> Seq<(Seq<u8>, int)> {
    seqs::sorted(holdings(items, name), sort::key_order())
}

/// Where the run that starts at `i` ends, looking from `j` on.
pub open spec fn run_end(t: Seq<(Seq<u8>, int)>, i: int, j: int) -> int
    decreases t.len() - j,
{
    if j < t.len() && t[j].0 == t[i].0 { run_end(t, i, j + 1) } else { j }
}

/// The holder at `x` with each holder from `y` to `end`.
pub open spec fn with_each(t: Seq<(Seq<u8>, int)>, x: int, y: int, end: int) -> Seq<(int, int)>
    decreases end - y,
{
    if y < end { seq![(t[x].1, t[y].1)] + with_each(t, x, y + 1, end) } else { Seq::empty() }
}

/// Each two holders from `x` to `end`.
pub open spec fn each_two(t: Seq<(Seq<u8>, int)>, x: int, end: int) -> Seq<(int, int)>
    decreases end - x,
{
    if x < end { with_each(t, x, x + 1, end) + each_two(t, x + 1, end) } else { Seq::empty() }
}

/// The pairs that share a fingerprint, once for each fingerprint, from the run at `i` on.
pub open spec fn shared_from(t: Seq<(Seq<u8>, int)>, i: int) -> Seq<(int, int)>
    decreases t.len() - i,
    when 0 <= i
    via shared_from_decreases
{
    if i < t.len() {
        let j = run_end(t, i, i + 1);
        if j - i <= MAX_EPISODES_PER_HASH { each_two(t, i, j) + shared_from(t, j) } else { shared_from(t, j) }
    } else {
        Seq::empty()
    }
}

#[via_fn]
proof fn shared_from_decreases(t: Seq<(Seq<u8>, int)>, i: int) {
    lemma_run_end(t, i, i + 1);
}

/// The positions from `x` to `end`.
pub open spec fn positions(t: Seq<(Seq<u8>, int)>, x: int, end: int) -> Set<int>
    decreases end - x,
{
    if x < end { positions(t, x + 1, end).insert(t[x].1) } else { Set::empty() }
}

/// The episodes of which some fingerprint was compared, from the run at `i` on.
pub open spec fn examined_from(t: Seq<(Seq<u8>, int)>, i: int) -> Set<int>
    decreases t.len() - i,
    when 0 <= i
    via examined_from_decreases
{
    if i < t.len() {
        let j = run_end(t, i, i + 1);
        if j - i <= MAX_EPISODES_PER_HASH {
            positions(t, i, j).union(examined_from(t, j))
        } else {
            examined_from(t, j)
        }
    } else {
        Set::empty()
    }
}

#[via_fn]
proof fn examined_from_decreases(t: Seq<(Seq<u8>, int)>, i: int) {
    lemma_run_end(t, i, i + 1);
}

/// A run ends behind where it is looked from, and within the list.
proof fn lemma_run_end(t: Seq<(Seq<u8>, int)>, i: int, j: int)
    ensures
        run_end(t, i, j) >= j,
        j <= t.len() ==> run_end(t, i, j) <= t.len(),
    decreases t.len() - j,
{
    if j < t.len() && t[j].0 == t[i].0 {
        lemma_run_end(t, i, j + 1);
    }
}

/// The pairs that share a fingerprint in the stream with a name.
pub open spec fn shared(items: Seq<ItemView>, name: Seq<char>) -> Seq<(int, int)> {
    shared_from(runs(items, name), 0)
}

/// The episodes of which some fingerprint in the stream with a name was compared.
pub open spec fn examined(items: Seq<ItemView>, name: Seq<char>) -> Set<int> {
    examined_from(runs(items, name), 0)
}

/// The pairs that share a fingerprint, stream by stream.
pub open spec fn all_shared(items: Seq<ItemView>, names: Seq<Seq<char>>) -> Seq<(int, int)>
    decreases names.len(),
{
    if names.len() == 0 {
        Seq::empty()
    } else {
        all_shared(items, names.drop_last()) + shared(items, names.last())
    }
}

/// The episodes of which some fingerprint was compared.
pub open spec fn all_examined(items: Seq<ItemView>, names: Seq<Seq<char>>) -> Set<int>
    decreases names.len(),
{
    if names.len() == 0 {
        Set::empty()
    } else {
        all_examined(items, names.drop_last()).union(examined(items, names.last()))
    }
}

/// The distinct elements of a sequence, in order of first appearance.
pub open spec fn first_seen(s: Seq<(int, int)>) -> Seq<(int, int)>
    decreases s.len(),
{
    if s.len() == 0 {
        Seq::empty()
    } else if first_seen(s.drop_last()).contains(s.last()) {
        first_seen(s.drop_last())
    } else {
        first_seen(s.drop_last()).push(s.last())
    }
}

/// How often an element occurs.
pub open spec fn occurrences(s: Seq<(int, int)>, p: (int, int)) -> nat
    decreases s.len(),
{
    if s.len() == 0 {
        0
    } else {
        occurrences(s.drop_last(), p) + (if s.last() == p { 1nat } else { 0 })
    }
}

/// The pairs that are held: those that shared a fingerprint first.
pub open spec fn held_pairs(pairs: Seq<(int, int)>) -> Seq<(int, int)> {
    lists::first_few(first_seen(pairs), MAX_TRACKED_PAIRS as int)
}

// ---- what is flagged -------------------------------------------------------------------------

/// The lesser of two lengths.
pub open spec fn lesser(a: nat, b: nat) -> nat {
    if a <= b { a } else { b }
}

/// The share of fingerprints that a pair has in common in its weakest stream among those named;
/// infinite where no stream is evidence in both.
pub open spec fn weakest(items: Seq<ItemView>, names: Seq<Seq<char>>, p: (int, int)) -> u64
    decreases names.len(),
{
    if names.len() == 0 {
        number::INFINITY
    } else {
        let rest = weakest(items, names.drop_last(), p);
        match (hashes_named(items[p.0].streams, names.last()), hashes_named(items[p.1].streams, names.last())) {
            (Some(a), Some(b)) => {
                let share = number::nearest_bits(
                    occurrences(shared(items, names.last()), p),
                    lesser(a.len(), b.len()),
                ) as u64;
                if share < rest { share } else { rest }
            },
            _ => rest,
        }
    }
}

/// Whether the exact check speaks for a pair: the two share a signature.
pub open spec fn is_exact(items: Seq<ItemView>, p: (int, int)) -> bool {
    items[p.0].signature is Some && items[p.0].signature == items[p.1].signature
}

/// Whether a pair is flagged.
pub open spec fn is_flagged(
    items: Seq<ItemView>,
    names: Seq<Seq<char>>,
    min: u64,
    p: (int, int),
) -> bool {
    let w = weakest(items, names, p);
    &&& w != number::INFINITY
    &&& number::less(min, w) || number::equal(min, w)
    &&& !is_exact(items, p)
}

/// The flagged pairs among some, each with its overlap.
pub open spec fn flagged(
    items: Seq<ItemView>,
    names: Seq<Seq<char>>,
    min: u64,
    pairs: Seq<(int, int)>,
) -> Seq<(int, int, u64)>
    decreases pairs.len(),
{
    if pairs.len() == 0 {
        Seq::empty()
    } else {
        let rest = flagged(items, names, min, pairs.drop_last());
        let p = pairs.last();
        if is_flagged(items, names, min, p) {
            rest.push((p.0, p.1, weakest(items, names, p)))
        } else {
            rest
        }
    }
}

// ---- groups ----------------------------------------------------------------------------------

/// Labels after two episodes are joined: the lesser of the two labels in place of the greater.
pub open spec fn joined(labels: Seq<int>, a: int, b: int) -> Seq<int> {
    let (x, y) = (labels[a], labels[b]);
    let (lo, hi) = if x < y { (x, y) } else { (y, x) };
    labels.map_values(|l: int| if l == hi { lo } else { l })
}

/// The label of each episode after the flagged pairs are joined: at first its own position.
pub open spec fn labels(n: nat, s: Seq<(int, int, u64)>) -> Seq<int>
    decreases s.len(),
{
    if s.len() == 0 {
        Seq::new(n, |i: int| i)
    } else {
        joined(labels(n, s.drop_last()), s.last().0, s.last().1)
    }
}

/// The indices of the flagged episodes with a label.
pub open spec fn members(items: Seq<ItemView>, l: Seq<int>, s: Seq<(int, int, u64)>, label: int) -> Seq<u64>
    decreases s.len(),
{
    if s.len() == 0 {
        Seq::empty()
    } else {
        let rest = members(items, l, s.drop_last(), label);
        if l[s.last().0] == label {
            let one = seqs::with_new(rest, items[s.last().0].index, seqs::number_order());
            seqs::with_new(one, items[s.last().1].index, seqs::number_order())
        } else {
            rest
        }
    }
}

/// The least overlap among the flagged pairs with a label, and at most one.
pub open spec fn overlap(l: Seq<int>, s: Seq<(int, int, u64)>, label: int) -> u64
    decreases s.len(),
{
    if s.len() == 0 {
        ONE
    } else {
        let rest = overlap(l, s.drop_last(), label);
        if l[s.last().0] == label && s.last().2 < rest { s.last().2 } else { rest }
    }
}

/// The finding for a group.
pub open spec fn near_finding(indices: Seq<u64>, share: u64) -> FindingView {
    check::finding(
        NEAR_ID@,
        Category::Structure,
        Severity::Warning,
        LocationView::Dataset,
        NEAR_CODE@,
        "episodes "@ + text::joined(lists::decimals(indices), ", "@)
            + " are near-duplicates: they share at least "@ + number::percent_text(share)
            + "% of their frames byte-for-byte in every stream compared, without being exact copies"@,
        NEAR_RISK@,
        NEAR_REMEDY@,
    )
}

/// The findings for the groups with the labels below `n`.
pub open spec fn near_findings(items: Seq<ItemView>, l: Seq<int>, s: Seq<(int, int, u64)>, n: nat) -> Seq<FindingView>
    decreases n,
{
    if n == 0 {
        Seq::empty()
    } else {
        let rest = near_findings(items, l, s, (n - 1) as nat);
        let group = members(items, l, s, n - 1);
        if group.len() > 0 { rest.push(near_finding(group, overlap(l, s, n - 1))) } else { rest }
    }
}

/// How many of the first `n` positions are not in a set.
pub open spec fn missing(seen: Set<int>, n: nat) -> nat
    decreases n,
{
    if n == 0 {
        0
    } else {
        missing(seen, (n - 1) as nat) + (if seen.contains(n - 1) { 0nat } else { 1 })
    }
}

/// The finding that something was not compared.
pub open spec fn abstention_finding(overflowed: bool, unexamined: nat) -> FindingView {
    check::finding(
        NEAR_ID@,
        Category::Structure,
        Severity::Info,
        LocationView::Dataset,
        NEAR_UNCHECKED_CODE@,
        if overflowed {
            "near-duplicate detection abstained: more than "@ + text::dec(MAX_TRACKED_PAIRS as nat)
                + " episode pairs share frames, which is past what this check will hold at once"@
        } else {
            "near-duplicate detection abstained on "@ + text::dec(unexamined)
                + " episode(s): every one of their frames is held by more than "@
                + text::dec(MAX_EPISODES_PER_HASH as nat)
                + " episodes, which this check treats as boilerplate rather than evidence"@
        },
        UNCHECKED_RISK@,
        UNCHECKED_REMEDY@,
    )
}

/// What is said of what was not compared.
pub open spec fn abstention(overflowed: bool, unexamined: nat) -> Seq<FindingView> {
    if overflowed || unexamined > 0 {
        seq![abstention_finding(overflowed, unexamined)]
    } else {
        Seq::empty()
    }
}

impl NearDuplicateEpisode {
    /// What the check reports.
    pub open spec fn outcome(&self, dataset: &Dataset) -> Seq<FindingView> {
        let items = items_of(dataset.episodes@);
        if items.len() < 2 {
            Seq::empty()
        } else {
            let names = evidence_names(items);
            let pairs = all_shared(items, names);
            let found = flagged(items, names, self.min_overlap, held_pairs(pairs));
            abstention(
                first_seen(pairs).len() > MAX_TRACKED_PAIRS,
                missing(all_examined(items, names), items.len()),
            ) + near_findings(items, labels(items.len(), found), found, items.len())
        }
    }
}

// ---- gathering the evidence ------------------------------------------------------------------

/// A stream that can evidence duplication.
struct EvidenceStream {
    /// The stream's name.
    name: String,
    /// The distinct fingerprints of its frames, in order.
    hashes: Vec<[u8; 32]>,
}

/// An episode with evidence.
struct Item {
    /// The episode's index.
    index: u64,
    /// Its evidence, by stream name.
    streams: Vec<EvidenceStream>,
    /// Its signature, where its content is proven.
    signature: Option<[u8; 32]>,
}

/// What a signature is.
spec fn signature_view(s: Option<[u8; 32]>) -> Option<Seq<u8>> {
    match s {
        Some(h) => Some(h@),
        None => None,
    }
}

/// A fingerprint and the position of an episode that holds it.
#[derive(Clone, Copy)]
struct Holding {
    /// The fingerprint.
    hash: [u8; 32],
    /// The position.
    position: usize,
}

impl Ranked for Holding {
    closed spec fn key(&self) -> (Seq<u8>, int) {
        (self.hash@, self.position as int)
    }

    fn below(&self, other: &Holding) -> (r: bool) {
        let mut i: usize = 0;
        let ghost (x, y) = (self.hash@, other.hash@);
        assert(x.skip(0) =~= x);
        assert(y.skip(0) =~= y);
        while i < 32
            invariant
                i <= 32,
                x == self.hash@,
                y == other.hash@,
                x.len() == 32,
                y.len() == 32,
                forall|k: int| 0 <= k < i ==> x[k] == y[k],
                text::bytes_lt(x, y) == text::bytes_lt(x.skip(i as int), y.skip(i as int)),
            decreases 32 - i,
        {
            assert(x.skip(i as int).skip(1) =~= x.skip(i + 1));
            assert(y.skip(i as int).skip(1) =~= y.skip(i + 1));
            if self.hash[i] != other.hash[i] {
                assert(x[i as int] != y[i as int]);
                return self.hash[i] < other.hash[i];
            }
            i = i + 1;
        }
        assert(x =~= y);
        assert(!text::bytes_lt(x, y)) by {
            text::lemma_bytes_trichotomy(x, y);
        }
        self.position < other.position
    }
}

impl View for EvidenceStream {
    type V = EvidenceView;

    closed spec fn view(&self) -> EvidenceView {
        EvidenceView { name: self.name@, hashes: hash_views(self.hashes@) }
    }
}

impl View for Item {
    type V = ItemView;

    closed spec fn view(&self) -> ItemView {
        ItemView {
            index: self.index,
            streams: stream_views(self.streams@),
            signature: signature_view(self.signature),
        }
    }
}

/// What fingerprints are.
spec fn hash_views(s: Seq<[u8; 32]>) -> Seq<Seq<u8>> {
    s.map_values(|h: [u8; 32]| h@)
}

/// What evidence says.
spec fn stream_views(s: Seq<EvidenceStream>) -> Seq<EvidenceView> {
    s.map_values(|e: EvidenceStream| e@)
}

/// What items say.
spec fn item_views(s: Seq<Item>) -> Seq<ItemView> {
    s.map_values(|e: Item| e@)
}

/// What pairs are.
spec fn pair_views(s: Seq<(usize, usize)>) -> Seq<(int, int)> {
    s.map_values(|p: (usize, usize)| (p.0 as int, p.1 as int))
}

/// Fingerprints are totally ordered.
proof fn lemma_hash_order()
    ensures
        seqs::total_order(hash_order()),
{
    let lt = hash_order();
    assert forall|a: Seq<u8>, b: Seq<u8>| #[trigger] lt(a, b) implies !lt(b, a) by {
        text::lemma_bytes_trichotomy(a, b);
    }
    assert forall|a: Seq<u8>, b: Seq<u8>| !(#[trigger] lt(a, b)) && !lt(b, a) implies a == b by {
        text::lemma_bytes_trichotomy(a, b);
    }
    assert forall|a: Seq<u8>, b: Seq<u8>, c: Seq<u8>| #[trigger] lt(a, b) && #[trigger] lt(b, c) implies lt(a, c) by {
        text::lemma_bytes_transitive(a, b, c);
    }
}

/// A sorted list holds what was sorted.
proof fn lemma_sorted_holds(s: Seq<(Seq<u8>, int)>, x: (Seq<u8>, int))
    ensures
        seqs::sorted(s, sort::key_order()).contains(x) <==> s.contains(x),
{
    broadcast use vstd::seq_lib::group_to_multiset_ensures;

    seqs::lemma_sorted_multiset(s, sort::key_order());
    let t = seqs::sorted(s, sort::key_order());
    assert(t.contains(x) <==> t.to_multiset().count(x) > 0);
    assert(s.contains(x) <==> s.to_multiset().count(x) > 0);
}

/// The fingerprints of frames, where every frame carries one.
fn frame_holdings(frames: &Vec<Frame>) -> (r: Option<Vec<Holding>>)
    ensures
        r is Some <==> !structural::lacks_fingerprint(frames@),
        r is Some ==> sort::keys(r->0@) == held_by(frame_hashes(frames@), 0),
{
    let mut out: Vec<Holding> = Vec::new();
    let mut i: usize = 0;
    assert(sort::keys(out@) =~= held_by(frame_hashes(frames@.take(0)), 0));
    while i < frames.len()
        invariant
            i <= frames@.len(),
            forall|k: int| 0 <= k < i ==> structural::fingerprint(#[trigger] frames@[k]) is Some,
            sort::keys(out@) == held_by(frame_hashes(frames@.take(i as int)), 0),
        decreases frames@.len() - i,
    {
        match frames[i].value_ref.content_hash {
            Some(hash) => {
                let ghost was = out@;
                out.push(Holding { hash, position: 0 });
                proof {
                    let h = Holding { hash, position: 0 };
                    assert(structural::fingerprint(frames@[i as int]) == Some(hash@));
                    assert(h.key() == (hash@, 0int));
                    assert(sort::keys(out@) =~= sort::keys(was).push((hash@, 0int)));
                    assert(held_by(frame_hashes(frames@.take(i + 1)), 0) =~= held_by(
                        frame_hashes(frames@.take(i as int)),
                        0,
                    ).push((hash@, 0int)));
                }
            },
            None => {
                assert(structural::fingerprint(frames@[i as int]) is None);
                return None;
            },
        }
        i = i + 1;
    }
    assert(frames@.take(i as int) =~= frames@);
    Some(out)
}

/// The distinct fingerprints of a sorted list.
fn without_repeats(t: &Vec<Holding>, Ghost(hashes): Ghost<Seq<Seq<u8>>>) -> (r: Vec<[u8; 32]>)
    requires
        sort::keys(t@) == seqs::sorted(held_by(hashes, 0), sort::key_order()),
    ensures
        hash_views(r@) == seqs::distinct(hashes, hash_order()),
{
    let ghost lt = hash_order();
    let ghost s = sort::keys(t@);
    let mut out: Vec<[u8; 32]> = Vec::new();
    let mut i: usize = 0;
    proof {
        lemma_hash_order();
        sort::lemma_key_order();
        seqs::lemma_sorted_in_order(held_by(hashes, 0), sort::key_order());
        assert(hash_views(out@) =~= Seq::empty());
    }
    while i < t.len()
        invariant
            i <= t@.len(),
            lt == hash_order(),
            seqs::total_order(lt),
            s == sort::keys(t@),
            seqs::in_order(s, sort::key_order()),
            seqs::strictly(hash_views(out@), lt),
            i > 0 ==> out@.len() > 0 && out@[out@.len() - 1]@ == s[i - 1].0,
            i == 0 ==> out@.len() == 0,
            forall|y: Seq<u8>|
                #[trigger] hash_views(out@).contains(y) <==> exists|k: int| 0 <= k < i && (#[trigger] s[k]).0 == y,
        decreases t@.len() - i,
    {
        let ghost was = hash_views(out@);
        let ghost x = t@[i as int].hash@;
        assert(s[i as int].0 == x);
        if out.len() == 0 || !same_hash(&t[i].hash, &out[out.len() - 1]) {
            out.push(t[i].hash);
            proof {
                let now = hash_views(out@);
                assert(now =~= was.push(x));
                assert forall|p: int, q: int| 0 <= p < q < now.len() implies lt(#[trigger] now[p], #[trigger] now[q]) by {
                    if q == was.len() {
                        let last = was[was.len() - 1];
                        assert(last == s[i - 1].0);
                        assert(!sort::key_lt(s[i as int], s[i - 1])) by {
                            let o = sort::key_order();
                            assert(!o(s[i as int], s[i - 1]));
                        }
                        assert(!lt(x, last));
                        assert(lt(last, x));
                        if p < was.len() - 1 {
                            assert(lt(was[p], last));
                        }
                    } else {
                        assert(now[p] == was[p]);
                        assert(now[q] == was[q]);
                    }
                }
                assert forall|y: Seq<u8>|
                    #[trigger] now.contains(y) <==> exists|k: int| 0 <= k < i + 1 && (#[trigger] s[k]).0 == y by {
                    if now.contains(y) {
                        let j = choose|j: int| 0 <= j < now.len() && now[j] == y;
                        if j < was.len() {
                            assert(was[j] == y);
                            assert(was.contains(y));
                        } else {
                            assert(s[i as int].0 == y);
                        }
                    }
                    if exists|k: int| 0 <= k < i + 1 && (#[trigger] s[k]).0 == y {
                        let k = choose|k: int| 0 <= k < i + 1 && (#[trigger] s[k]).0 == y;
                        if k < i {
                            assert(was.contains(y));
                            let j = choose|j: int| 0 <= j < was.len() && was[j] == y;
                            assert(now[j] == y);
                        } else {
                            assert(now[was.len() as int] == y);
                        }
                    }
                }
            }
        } else {
            proof {
                assert(s[i as int].0 == s[i - 1].0);
                assert forall|y: Seq<u8>|
                    #[trigger] was.contains(y) <==> exists|k: int| 0 <= k < i + 1 && (#[trigger] s[k]).0 == y by {
                    if exists|k: int| 0 <= k < i + 1 && (#[trigger] s[k]).0 == y {
                        let k = choose|k: int| 0 <= k < i + 1 && (#[trigger] s[k]).0 == y;
                        if k == i {
                            assert(s[i - 1].0 == y);
                        }
                    }
                }
            }
        }
        i = i + 1;
    }
    proof {
        let d = seqs::distinct(hashes, lt);
        seqs::lemma_distinct_strictly(hashes, lt);
        assert forall|y: Seq<u8>| hash_views(out@).contains(y) <==> d.contains(y) by {
            seqs::lemma_distinct_contains(hashes, lt, y);
            lemma_sorted_holds(held_by(hashes, 0), (y, 0));
            if hash_views(out@).contains(y) {
                let k = choose|k: int| 0 <= k < i && (#[trigger] s[k]).0 == y;
                assert(s.contains(s[k]));
                lemma_sorted_holds(held_by(hashes, 0), s[k]);
                let j = choose|j: int| 0 <= j < held_by(hashes, 0).len() && held_by(hashes, 0)[j] == s[k];
                assert(hashes[j] == y);
            }
            if hashes.contains(y) {
                let j = choose|j: int| 0 <= j < hashes.len() && hashes[j] == y;
                assert(held_by(hashes, 0)[j] == (y, 0int));
                let k = choose|k: int| 0 <= k < s.len() && s[k] == (y, 0int);
                assert(s[k].0 == y);
            }
        }
        seqs::lemma_strict_is_unique(hash_views(out@), d, lt);
    }
    out
}

/// The evidence of a stream.
fn stream_evidence(stream: &Stream) -> (r: Option<EvidenceStream>)
    ensures
        r is Some <==> is_evidence(*stream),
        r is Some ==> r->0@ == (EvidenceView { name: stream.name@, hashes: hash_set(stream.frames@) }),
{
    if stream.frames.len() < MIN_FRAMES {
        return None;
    }
    match frame_holdings(&stream.frames) {
        None => None,
        Some(all) => {
            let ordered: Vec<Holding> = sort::sort(&all);
            let hashes: Vec<[u8; 32]> = without_repeats(&ordered, Ghost(frame_hashes(stream.frames@)));
            let distinct: u64 = number::nearest(hashes.len() as u128, stream.frames.len() as u128);
            assert(hash_views(hashes@).len() == hashes@.len());
            if number::lt(distinct, MIN_DISTINCT_FRACTION) {
                None
            } else {
                Some(EvidenceStream { name: stream.name.clone(), hashes })
            }
        },
    }
}

/// Where a stream is filed.
proof fn lemma_filed_at(s: Seq<EvidenceView>, x: EvidenceView, i: int)
    requires
        0 <= i <= s.len(),
        forall|k: int| 0 <= k < i ==> text::str_lt((#[trigger] s[k]).name, x.name),
        i < s.len() ==> !text::str_lt(s[i].name, x.name),
    ensures
        filed(s, x) == (if i < s.len() && s[i].name == x.name { s.update(i, x) } else { s.insert(i, x) }),
    decreases s.len(),
{
    if s.len() == 0 {
        assert(s.insert(i, x) =~= seq![x]);
    } else if i == 0 {
        assert(s.insert(0, x) =~= seq![x] + s);
        assert(s.update(0, x) =~= seq![x] + s.skip(1));
    } else {
        assert(text::str_lt(s[0].name, x.name));
        let rest = s.skip(1);
        assert forall|k: int| 0 <= k < i - 1 implies text::str_lt((#[trigger] rest[k]).name, x.name) by {
            assert(rest[k] == s[k + 1]);
        }
        lemma_filed_at(rest, x, i - 1);
        if i < s.len() && s[i].name == x.name {
            assert(rest[i - 1] == s[i]);
            assert(seq![s[0]] + rest.update(i - 1, x) =~= s.update(i, x));
        } else {
            assert(seq![s[0]] + rest.insert(i - 1, x) =~= s.insert(i, x));
        }
    }
}

/// The evidence of an episode.
fn episode_evidence(streams: &Vec<Stream>) -> (r: Vec<EvidenceStream>)
    ensures
        stream_views(r@) == evidence(streams@),
{
    let mut out: Vec<EvidenceStream> = Vec::new();
    let mut i: usize = 0;
    assert(stream_views(out@) =~= Seq::empty());
    while i < streams.len()
        invariant
            i <= streams@.len(),
            stream_views(out@) == evidence(streams@.take(i as int)),
        decreases streams@.len() - i,
    {
        assert(streams@.take(i + 1).drop_last() =~= streams@.take(i as int));
        if let Some(e) = stream_evidence(&streams[i]) {
            let ghost was = stream_views(out@);
            let mut k: usize = 0;
            while k < out.len() && before(out[k].name.as_str(), e.name.as_str())
                invariant
                    k <= out@.len(),
                    was == stream_views(out@),
                    forall|j: int| 0 <= j < k ==> text::str_lt((#[trigger] was[j]).name, e@.name),
                decreases out@.len() - k,
            {
                assert(was[k as int] == out@[k as int]@);
                k = k + 1;
            }
            proof {
                if k < out@.len() {
                    assert(was[k as int] == out@[k as int]@);
                }
                lemma_filed_at(was, e@, k as int);
            }
            if k < out.len() && same(out[k].name.as_str(), e.name.as_str()) {
                let ghost ev = e@;
                let _gone: EvidenceStream = out.remove(k);
                out.insert(k, e);
                assert(stream_views(out@) =~= was.update(k as int, ev));
            } else {
                let ghost ev = e@;
                out.insert(k, e);
                assert(stream_views(out@) =~= was.insert(k as int, ev));
            }
        }
        i = i + 1;
    }
    assert(streams@.take(i as int) =~= streams@);
    out
}

/// The episodes with evidence.
fn gather_items(episodes: &Vec<Episode>) -> (r: Vec<Item>)
    ensures
        item_views(r@) == items_of(episodes@),
{
    let mut out: Vec<Item> = Vec::new();
    let mut i: usize = 0;
    assert(item_views(out@) =~= Seq::empty());
    while i < episodes.len()
        invariant
            i <= episodes@.len(),
            item_views(out@) == items_of(episodes@.take(i as int)),
        decreases episodes@.len() - i,
    {
        assert(episodes@.take(i + 1).drop_last() =~= episodes@.take(i as int));
        let streams: Vec<EvidenceStream> = episode_evidence(&episodes[i].streams);
        assert(stream_views(streams@).len() == streams@.len());
        if streams.len() > 0 {
            let ghost was = out@;
            let item: Item = Item {
                index: episodes[i].index,
                streams,
                signature: signature::signature(&episodes[i]),
            };
            let ghost v = item@;
            out.push(item);
            assert(item_views(out@) =~= item_views(was).push(v));
        }
        i = i + 1;
    }
    assert(episodes@.take(i as int) =~= episodes@);
    out
}

/// The fingerprints of the stream with a name.
fn find_hashes<'a>(streams: &'a Vec<EvidenceStream>, name: &str) -> (r: Option<&'a Vec<[u8; 32]>>)
    ensures
        match r {
            Some(h) => hashes_named(stream_views(streams@), name@) == Some(hash_views(h@)),
            None => hashes_named(stream_views(streams@), name@) is None,
        },
{
    let ghost v = stream_views(streams@);
    let mut i: usize = 0;
    assert(v.skip(0) =~= v);
    while i < streams.len()
        invariant
            i <= streams@.len(),
            v == stream_views(streams@),
            hashes_named(v, name@) == hashes_named(v.skip(i as int), name@),
        decreases streams@.len() - i,
    {
        assert(v.skip(i as int)[0] == streams@[i as int]@);
        assert(v.skip(i as int).skip(1) =~= v.skip(i + 1));
        if same(streams[i].name.as_str(), name) {
            return Some(&streams[i].hashes);
        }
        i = i + 1;
    }
    None
}

/// The names of streams that are evidence somewhere.
fn gather_names(items: &Vec<Item>) -> (r: Vec<String>)
    ensures
        text::texts(r@) == evidence_names(item_views(items@)),
{
    let ghost v = item_views(items@);
    let mut out: Vec<String> = Vec::new();
    let mut i: usize = 0;
    assert(text::texts(out@) =~= Seq::empty());
    while i < items.len()
        invariant
            i <= items@.len(),
            v == item_views(items@),
            text::texts(out@) == seqs::text_set(names_in(v.take(i as int))),
        decreases items@.len() - i,
    {
        let streams: &Vec<EvidenceStream> = &items[i].streams;
        let ghost names = stream_names(v[i as int].streams);
        proof {
            assert(v.take(i + 1).drop_last() =~= v.take(i as int));
            assert(v[i as int] == items@[i as int]@);
            assert(names_in(v.take(i as int)) + names.take(0) =~= names_in(v.take(i as int)));
        }
        let mut j: usize = 0;
        while j < streams.len()
            invariant
                i < items@.len(),
                *streams == items@[i as int].streams,
                j <= streams@.len(),
                names == stream_names(stream_views(streams@)),
                text::texts(out@) == seqs::text_set(names_in(v.take(i as int)) + names.take(j as int)),
            decreases streams@.len() - j,
        {
            proof {
                let had = names_in(v.take(i as int)) + names.take(j as int);
                assert(names[j as int] == streams@[j as int].name@);
                assert(names_in(v.take(i as int)) + names.take(j + 1) =~= had.push(names[j as int]));
                seqs::lemma_distinct_step(had, seqs::text_order(), names[j as int]);
            }
            let _new: bool = put_text(&mut out, streams[j].name.as_str());
            j = j + 1;
        }
        assert(names.take(j as int) =~= names);
        i = i + 1;
    }
    assert(v.take(i as int) =~= v);
    out
}

// ---- comparing -------------------------------------------------------------------------------

/// Every position is within the list of episodes.
proof fn lemma_positions(items: Seq<ItemView>, name: Seq<char>)
    ensures
        forall|k: int| 0 <= k < holdings(items, name).len() ==> 0 <= (#[trigger] holdings(items, name)[k]).1 < items.len(),
    decreases items.len(),
{
    if items.len() > 0 {
        lemma_positions(items.drop_last(), name);
        let rest = holdings(items.drop_last(), name);
        assert forall|k: int| 0 <= k < holdings(items, name).len() implies 0 <= (#[trigger] holdings(items, name)[k]).1
            < items.len() by {
            if k < rest.len() {
                assert(holdings(items, name)[k] == rest[k]);
            }
        }
    }
}

/// Which episode holds which fingerprint in the stream with a name, sorted.
fn gather_runs(items: &Vec<Item>, name: &str) -> (r: Vec<Holding>)
    ensures
        sort::keys(r@) == runs(item_views(items@), name@),
        forall|k: int| 0 <= k < r@.len() ==> (#[trigger] r@[k]).position < items@.len(),
{
    let ghost v = item_views(items@);
    let mut all: Vec<Holding> = Vec::new();
    let mut i: usize = 0;
    assert(sort::keys(all@) =~= Seq::empty());
    while i < items.len()
        invariant
            i <= items@.len(),
            v == item_views(items@),
            sort::keys(all@) == holdings(v.take(i as int), name@),
        decreases items@.len() - i,
    {
        proof {
            assert(v.take(i + 1).drop_last() =~= v.take(i as int));
            assert(v[i as int] == items@[i as int]@);
        }
        if let Some(hashes) = find_hashes(&items[i].streams, name) {
            let ghost was = sort::keys(all@);
            let ghost more = held_by(hash_views(hashes@), i as int);
            let mut j: usize = 0;
            assert(was + more.take(0) =~= was);
            while j < hashes.len()
                invariant
                    j <= hashes@.len(),
                    more == held_by(hash_views(hashes@), i as int),
                    sort::keys(all@) == was + more.take(j as int),
                decreases hashes@.len() - j,
            {
                let h: Holding = Holding { hash: hashes[j], position: i };
                let ghost had = all@;
                all.push(h);
                proof {
                    assert(h.key() == more[j as int]);
                    assert(sort::keys(all@) =~= sort::keys(had).push(more[j as int]));
                    assert(was + more.take(j + 1) =~= (was + more.take(j as int)).push(more[j as int]));
                }
                j = j + 1;
            }
            assert(more.take(j as int) =~= more);
        }
        i = i + 1;
    }
    assert(v.take(i as int) =~= v);
    let out: Vec<Holding> = sort::sort(&all);
    proof {
        lemma_positions(v, name@);
        assert forall|k: int| 0 <= k < out@.len() implies (#[trigger] out@[k]).position < items@.len() by {
            let x = sort::keys(out@)[k];
            assert(x == out@[k].key());
            assert(sort::keys(out@).contains(x));
            lemma_sorted_holds(holdings(v, name@), x);
            let j = choose|j: int| 0 <= j < holdings(v, name@).len() && holdings(v, name@)[j] == x;
            assert(holdings(v, name@)[j].1 < v.len());
        }
    }
    out
}

/// Something that is told of every pair that shares a fingerprint in a stream.
trait Listener: Sized {
    /// Whether it was told of some pairs in earlier streams, and of some pairs and episodes in this
    /// one.
    spec fn heard(&self, earlier: (Seq<(int, int)>, Set<int>), pairs: Seq<(int, int)>, seen: Set<int>) -> bool;

    /// How many episodes there are.
    spec fn episodes(&self) -> nat;

    /// Hears of a pair.
    fn hear(
        &mut self,
        a: usize,
        b: usize,
        earlier: Ghost<(Seq<(int, int)>, Set<int>)>,
        pairs: Ghost<Seq<(int, int)>>,
        seen: Ghost<Set<int>>,
    )
        requires
            old(self).heard(earlier@, pairs@, seen@),
            a < old(self).episodes(),
            b < old(self).episodes(),
            pairs@.len() < MAX_EPISODES_PER_HASH * 0x1_0000_0000_0000_0000,
        ensures
            final(self).heard(earlier@, pairs@.push((a as int, b as int)), seen@),
            final(self).episodes() == old(self).episodes(),
    ;

    /// Hears of an episode.
    fn see(
        &mut self,
        a: usize,
        earlier: Ghost<(Seq<(int, int)>, Set<int>)>,
        pairs: Ghost<Seq<(int, int)>>,
        seen: Ghost<Set<int>>,
    )
        requires
            old(self).heard(earlier@, pairs@, seen@),
            a < old(self).episodes(),
        ensures
            final(self).heard(earlier@, pairs@, seen@.insert(a as int)),
            final(self).episodes() == old(self).episodes(),
    ;
}

/// Tells of the pairs and the episodes of one run.
fn tell_run<L: Listener>(
    t: &Vec<Holding>,
    start: usize,
    end: usize,
    to: &mut L,
    Ghost(earlier): Ghost<(Seq<(int, int)>, Set<int>)>,
    Ghost(pairs): Ghost<Seq<(int, int)>>,
    Ghost(seen): Ghost<Set<int>>,
)
    requires
        start <= end <= t@.len(),
        old(to).heard(earlier, pairs, seen),
        forall|k: int| 0 <= k < t@.len() ==> (#[trigger] t@[k]).position < old(to).episodes(),
        end - start <= MAX_EPISODES_PER_HASH,
        pairs.len() <= MAX_EPISODES_PER_HASH * start,
    ensures
        final(to).heard(
            earlier,
            pairs + each_two(sort::keys(t@), start as int, end as int),
            seen.union(positions(sort::keys(t@), start as int, end as int)),
        ),
        final(to).episodes() == old(to).episodes(),
        (pairs + each_two(sort::keys(t@), start as int, end as int)).len() <= MAX_EPISODES_PER_HASH * end,
{
    let ghost s = sort::keys(t@);
    let ghost whole = pairs + each_two(s, start as int, end as int);
    let ghost all_seen = seen.union(positions(s, start as int, end as int));
    let ghost mut told = pairs;
    let ghost mut known = seen;
    let mut x: usize = start;
    while x < end
        invariant
            start <= x <= end <= t@.len(),
            end - start <= MAX_EPISODES_PER_HASH,
            s == sort::keys(t@),
            to.heard(earlier, told, known),
            to.episodes() == old(to).episodes(),
            forall|k: int| 0 <= k < t@.len() ==> (#[trigger] t@[k]).position < to.episodes(),
            whole == told + each_two(s, x as int, end as int),
            all_seen == known.union(positions(s, x as int, end as int)),
            told.len() <= MAX_EPISODES_PER_HASH * x,
        decreases end - x,
    {
        let a: usize = t[x].position;
        assert(s[x as int].1 == a);
        to.see(a, Ghost(earlier), Ghost(told), Ghost(known));
        let ghost rest = each_two(s, x + 1, end as int);
        proof {
            known = known.insert(a as int);
            assert(all_seen =~= known.union(positions(s, x + 1, end as int)));
            assert(whole =~= told + with_each(s, x as int, x + 1, end as int) + rest);
        }
        let mut y: usize = x + 1;
        while y < end
            invariant
                start <= x < y <= end <= t@.len(),
                end - start <= MAX_EPISODES_PER_HASH,
                s == sort::keys(t@),
                a == t@[x as int].position,
                a == s[x as int].1,
                to.heard(earlier, told, known),
                to.episodes() == old(to).episodes(),
                forall|k: int| 0 <= k < t@.len() ==> (#[trigger] t@[k]).position < to.episodes(),
                whole == told + with_each(s, x as int, y as int, end as int) + rest,
                told.len() <= MAX_EPISODES_PER_HASH * x + (y - x - 1),
            decreases end - y,
        {
            let b: usize = t[y].position;
            assert(s[y as int].1 == b);
            to.hear(a, b, Ghost(earlier), Ghost(told), Ghost(known));
            proof {
                let more = with_each(s, x as int, y + 1, end as int);
                assert(told + (seq![(a as int, b as int)] + more) + rest =~= told.push((a as int, b as int)) + more + rest);
                told = told.push((a as int, b as int));
            }
            y = y + 1;
        }
        assert(told + Seq::<(int, int)>::empty() + rest =~= told + rest);
        x = x + 1;
    }
    proof {
        assert(whole =~= told);
        assert(all_seen =~= known);
    }
}

/// Tells of every pair that shares a fingerprint in the stream with a name.
fn sweep<L: Listener>(items: &Vec<Item>, name: &str, to: &mut L, Ghost(earlier): Ghost<(Seq<(int, int)>, Set<int>)>)
    requires
        old(to).heard(earlier, Seq::empty(), Set::empty()),
        old(to).episodes() == items@.len(),
    ensures
        final(to).heard(earlier, shared(item_views(items@), name@), examined(item_views(items@), name@)),
        final(to).episodes() == items@.len(),
        shared(item_views(items@), name@).len() <= MAX_EPISODES_PER_HASH * 0x1_0000_0000_0000_0000,
{
    let t: Vec<Holding> = gather_runs(items, name);
    let ghost s = sort::keys(t@);
    let ghost whole = shared_from(s, 0);
    let ghost all_seen = examined_from(s, 0);
    let ghost mut told = Seq::<(int, int)>::empty();
    let ghost mut known = Set::<int>::empty();
    let mut i: usize = 0;
    assert(whole =~= told + whole);
    assert(all_seen =~= known.union(all_seen));
    while i < t.len()
        invariant
            i <= t@.len(),
            s == sort::keys(t@),
            to.heard(earlier, told, known),
            to.episodes() == items@.len(),
            forall|k: int| 0 <= k < t@.len() ==> (#[trigger] t@[k]).position < items@.len(),
            whole == told + shared_from(s, i as int),
            all_seen == known.union(examined_from(s, i as int)),
            told.len() <= MAX_EPISODES_PER_HASH * i,
        decreases t@.len() - i,
    {
        let mut j: usize = i + 1;
        while j < t.len() && same_hash(&t[j].hash, &t[i].hash)
            invariant
                i < j <= t@.len(),
                s == sort::keys(t@),
                run_end(s, i as int, i + 1) == run_end(s, i as int, j as int),
            decreases t@.len() - j,
        {
            assert(s[j as int].0 == t@[j as int].hash@);
            assert(s[i as int].0 == t@[i as int].hash@);
            j = j + 1;
        }
        proof {
            if j < t@.len() {
                assert(s[j as int].0 == t@[j as int].hash@);
                assert(s[i as int].0 == t@[i as int].hash@);
            }
            assert(run_end(s, i as int, i + 1) == j);
        }
        if j - i <= MAX_EPISODES_PER_HASH {
            tell_run(&t, i, j, to, Ghost(earlier), Ghost(told), Ghost(known));
            proof {
                let more = each_two(s, i as int, j as int);
                assert(told + (more + shared_from(s, j as int)) =~= told + more + shared_from(s, j as int));
                told = told + more;
                known = known.union(positions(s, i as int, j as int));
                assert(all_seen =~= known.union(examined_from(s, j as int)));
            }
        }
        i = j;
    }
    proof {
        assert(whole =~= told);
        assert(all_seen =~= known);
    }
}

// ---- which pairs are held --------------------------------------------------------------------

/// The pairs that are held.
struct Tracker {
    /// How many episodes there are.
    episodes: usize,
    /// The place of each pair among the pairs.
    slots: HashMap<u128, usize>,
    /// The pairs.
    pairs: Vec<(usize, usize)>,
    /// Whether there were more.
    overflowed: bool,
    /// Which episodes were compared.
    examined: Vec<bool>,
}

/// A pair as one number.
spec fn code(p: (int, int)) -> int {
    p.0 * 0x1_0000_0000_0000_0000 + p.1
}

/// A pair as one number.
fn code_of(a: usize, b: usize) -> (r: u128)
    ensures
        r as int == code((a as int, b as int)),
{
    a as u128 * 0x1_0000_0000_0000_0000 + b as u128
}

impl Tracker {
    /// Whether the places are those of the pairs.
    spec fn placed(&self) -> bool {
        &&& forall|k: int|
            0 <= k < self.pairs@.len() ==> {
                &&& #[trigger] self.slots@.contains_key(code(pair_views(self.pairs@)[k]) as u128)
                &&& self.slots@[code(pair_views(self.pairs@)[k]) as u128] == k
            }
        &&& forall|c: u128| #[trigger]
            self.slots@.contains_key(c) ==> self.slots@[c] < self.pairs@.len() && code(
                pair_views(self.pairs@)[self.slots@[c] as int],
            ) == c
        &&& forall|k: int|
            0 <= k < self.pairs@.len() ==> (#[trigger] self.pairs@[k]).0 < self.episodes && self.pairs@[k].1 < self.episodes
    }

    /// The place of a pair.
    fn find(&self, a: usize, b: usize) -> (r: Option<usize>)
        requires
            self.placed(),
        ensures
            match r {
                Some(k) => k < self.pairs@.len() && pair_views(self.pairs@)[k as int] == (a as int, b as int),
                None => !pair_views(self.pairs@).contains((a as int, b as int)),
            },
    {
        broadcast use hash::group_hash_axioms;

        let c: u128 = code_of(a, b);
        match self.slots.get(&c) {
            Some(k) => {
                assert(self.slots@.contains_key(c));
                assert(pair_views(self.pairs@)[*k as int] == (a as int, b as int));
                Some(*k)
            },
            None => {
                proof {
                    let v = pair_views(self.pairs@);
                    if v.contains((a as int, b as int)) {
                        let k = choose|k: int| 0 <= k < v.len() && v[k] == (a as int, b as int);
                        assert(self.slots@.contains_key(code(v[k]) as u128));
                    }
                }
                None
            },
        }
    }
}

impl Listener for Tracker {
    closed spec fn heard(&self, earlier: (Seq<(int, int)>, Set<int>), pairs: Seq<(int, int)>, seen: Set<int>) -> bool {
        &&& self.placed()
        &&& pair_views(self.pairs@) == held_pairs(earlier.0 + pairs)
        &&& self.overflowed == (first_seen(earlier.0 + pairs).len() > MAX_TRACKED_PAIRS)
        &&& self.examined@.len() == self.episodes
        &&& forall|p: int| 0 <= p < self.episodes ==> #[trigger] self.examined@[p] == earlier.1.union(seen).contains(p)
    }

    closed spec fn episodes(&self) -> nat {
        self.episodes as nat
    }

    fn hear(
        &mut self,
        a: usize,
        b: usize,
        earlier: Ghost<(Seq<(int, int)>, Set<int>)>,
        pairs: Ghost<Seq<(int, int)>>,
        seen: Ghost<Set<int>>,
    ) {
        broadcast use hash::group_hash_axioms;

        let ghost p = (a as int, b as int);
        let ghost was = earlier@.0 + pairs@;
        let ghost old_pairs = pair_views(self.pairs@);
        proof {
            assert(earlier@.0 + pairs@.push(p) =~= was.push(p));
            assert(was.push(p).drop_last() =~= was);
        }
        match self.find(a, b) {
            Some(k) => {
                proof {
                    let f = first_seen(was);
                    assert(old_pairs.len() == self.pairs@.len());
                    assert(old_pairs == held_pairs(was));
                    assert(old_pairs[k as int] == p);
                    assert(f[k as int] == p);
                    assert(f.contains(p));
                }
            },
            None => {
                if self.pairs.len() >= MAX_TRACKED_PAIRS {
                    self.overflowed = true;
                    proof {
                        let f = first_seen(was);
                        if f.contains(p) {
                            let k = choose|k: int| 0 <= k < f.len() && f[k] == p;
                            if k < MAX_TRACKED_PAIRS {
                                assert(old_pairs[k] == p);
                            }
                        } else {
                            assert(f.push(p).take(MAX_TRACKED_PAIRS as int) =~= old_pairs);
                        }
                    }
                } else {
                    let ghost before = *self;
                    let c: u128 = code_of(a, b);
                    proof {
                        let f = first_seen(was);
                        assert(old_pairs == f);
                        assert(!self.slots@.contains_key(c)) by {
                            if self.slots@.contains_key(c) {
                                let k = self.slots@[c] as int;
                                assert(old_pairs[k] == p);
                            }
                        }
                    }
                    self.slots.insert(c, self.pairs.len());
                    self.pairs.push((a, b));
                    proof {
                        let now = pair_views(self.pairs@);
                        assert(now =~= old_pairs.push(p));
                        assert forall|k: int| 0 <= k < self.pairs@.len() implies {
                            &&& #[trigger] self.slots@.contains_key(code(now[k]) as u128)
                            &&& self.slots@[code(now[k]) as u128] == k
                        } by {
                            if k < old_pairs.len() {
                                assert(now[k] == old_pairs[k]);
                                assert(before.slots@.contains_key(code(old_pairs[k]) as u128));
                                assert(before.pairs@[k] == self.pairs@[k]);
                            }
                        }
                        assert forall|q: u128| #[trigger] self.slots@.contains_key(q) implies self.slots@[q]
                            < self.pairs@.len() && code(now[self.slots@[q] as int]) == q by {
                            if q != c {
                                assert(before.slots@.contains_key(q));
                                assert(now[self.slots@[q] as int] == old_pairs[self.slots@[q] as int]);
                            }
                        }
                    }
                }
            },
        }
    }

    fn see(
        &mut self,
        a: usize,
        earlier: Ghost<(Seq<(int, int)>, Set<int>)>,
        pairs: Ghost<Seq<(int, int)>>,
        seen: Ghost<Set<int>>,
    ) {
        self.examined.set(a, true);
    }
}

/// Finds the pairs that are held.
fn track(items: &Vec<Item>, names: &Vec<String>) -> (r: Tracker)
    ensures
        r.heard(
            (all_shared(item_views(items@), text::texts(names@)), all_examined(item_views(items@), text::texts(names@))),
            Seq::empty(),
            Set::empty(),
        ),
        r.episodes() == items@.len(),
{
    broadcast use hash::group_hash_axioms;

    let ghost v = item_views(items@);
    let ghost t = text::texts(names@);
    let mut flags: Vec<bool> = Vec::new();
    let mut n: usize = 0;
    while n < items.len()
        invariant
            n <= items@.len(),
            flags@.len() == n,
            forall|k: int| 0 <= k < n ==> !(#[trigger] flags@[k]),
        decreases items@.len() - n,
    {
        flags.push(false);
        n = n + 1;
    }
    let mut out: Tracker = Tracker {
        episodes: items.len(),
        slots: HashMap::new(),
        pairs: Vec::new(),
        overflowed: false,
        examined: flags,
    };
    let mut i: usize = 0;
    proof {
        assert(pair_views(out.pairs@) =~= Seq::empty());
        assert(all_shared(v, t.take(0)) + Seq::<(int, int)>::empty() =~= Seq::empty());
        assert(first_seen(Seq::empty()) =~= Seq::empty());
        assert(out.placed());
    }
    while i < names.len()
        invariant
            i <= names@.len(),
            v == item_views(items@),
            t == text::texts(names@),
            out.heard((all_shared(v, t.take(i as int)), all_examined(v, t.take(i as int))), Seq::empty(), Set::empty()),
            out.episodes() == items@.len(),
        decreases names@.len() - i,
    {
        let ghost earlier = (all_shared(v, t.take(i as int)), all_examined(v, t.take(i as int)));
        sweep(items, names[i].as_str(), &mut out, Ghost(earlier));
        proof {
            let name = names@[i as int]@;
            assert(t[i as int] == name);
            assert(t.take(i + 1).drop_last() =~= t.take(i as int));
            let now = (all_shared(v, t.take(i + 1)), all_examined(v, t.take(i + 1)));
            assert(now.0 + Seq::<(int, int)>::empty() =~= earlier.0 + shared(v, name));
            assert(now.1.union(Set::empty()) =~= earlier.1.union(examined(v, name)));
        }
        i = i + 1;
    }
    assert(t.take(i as int) =~= t);
    out
}

// ---- how often each pair shares a fingerprint ------------------------------------------------

/// How often each held pair shares a fingerprint in one stream.
struct Counter<'a> {
    /// The pairs.
    tracker: &'a Tracker,
    /// How often each occurs.
    counts: Vec<u128>,
}

impl<'a> Listener for Counter<'a> {
    closed spec fn heard(&self, earlier: (Seq<(int, int)>, Set<int>), pairs: Seq<(int, int)>, seen: Set<int>) -> bool {
        &&& self.tracker.placed()
        &&& earlier.0 == pair_views(self.tracker.pairs@)
        &&& forall|i: int, j: int| 0 <= i < j < earlier.0.len() ==> earlier.0[i] != earlier.0[j]
        &&& self.counts@.len() == earlier.0.len()
        &&& forall|k: int|
            0 <= k < self.counts@.len() ==> {
                &&& #[trigger] self.counts@[k] as nat == occurrences(pairs, earlier.0[k])
                &&& self.counts@[k] <= pairs.len()
            }
    }

    closed spec fn episodes(&self) -> nat {
        self.tracker.episodes as nat
    }

    fn hear(
        &mut self,
        a: usize,
        b: usize,
        earlier: Ghost<(Seq<(int, int)>, Set<int>)>,
        pairs: Ghost<Seq<(int, int)>>,
        seen: Ghost<Set<int>>,
    ) {
        let ghost p = (a as int, b as int);
        assert(pairs@.push(p).drop_last() =~= pairs@);
        if let Some(k) = self.tracker.find(a, b) {
            let n: u128 = self.counts[k];
            self.counts.set(k, n + 1);
        } else {
            proof {
                assert forall|k: int| 0 <= k < self.counts@.len() implies earlier@.0[k] != p by {
                    if earlier@.0[k] == p {
                        assert(earlier@.0.contains(p));
                    }
                }
            }
        }
    }

    fn see(
        &mut self,
        a: usize,
        earlier: Ghost<(Seq<(int, int)>, Set<int>)>,
        pairs: Ghost<Seq<(int, int)>>,
        seen: Ghost<Set<int>>,
    ) {
    }
}

/// What has been seen first repeats nothing.
proof fn lemma_first_seen_distinct(s: Seq<(int, int)>)
    ensures
        forall|i: int, j: int| 0 <= i < j < first_seen(s).len() ==> first_seen(s)[i] != first_seen(s)[j],
    decreases s.len(),
{
    if s.len() > 0 {
        lemma_first_seen_distinct(s.drop_last());
        let f = first_seen(s.drop_last());
        if !f.contains(s.last()) {
            assert forall|i: int, j: int| 0 <= i < j < f.push(s.last()).len() implies f.push(s.last())[i] != f.push(
                s.last(),
            )[j] by {
                if j == f.len() {
                    assert(f.contains(f[i]));
                }
            }
        }
    }
}

/// How often each held pair shares a fingerprint in the stream with a name.
fn count(items: &Vec<Item>, name: &str, tracker: &Tracker, Ghost(pairs): Ghost<Seq<(int, int)>>) -> (r: Vec<u128>)
    requires
        tracker.placed(),
        tracker.episodes == items@.len(),
        pair_views(tracker.pairs@) == held_pairs(pairs),
    ensures
        r@.len() == tracker.pairs@.len(),
        forall|k: int| 0 <= k < r@.len() ==> #[trigger] r@[k] <= MAX_EPISODES_PER_HASH * 0x1_0000_0000_0000_0000,
        forall|k: int|
            0 <= k < r@.len() ==> #[trigger] r@[k] as nat == occurrences(
                shared(item_views(items@), name@),
                pair_views(tracker.pairs@)[k],
            ),
{
    let ghost held = pair_views(tracker.pairs@);
    let mut counts: Vec<u128> = Vec::new();
    while counts.len() < tracker.pairs.len()
        invariant
            counts@.len() <= tracker.pairs@.len(),
            forall|k: int| 0 <= k < counts@.len() ==> #[trigger] counts@[k] == 0,
        decreases tracker.pairs@.len() - counts@.len(),
    {
        counts.push(0);
    }
    let mut counter: Counter = Counter { tracker, counts };
    proof {
        lemma_first_seen_distinct(pairs);
    }
    sweep(items, name, &mut counter, Ghost((held, Set::empty())));
    counter.counts
}

// ---- what is flagged -------------------------------------------------------------------------

/// Whether a double is zero or at least what a ratio of counts can be.
spec fn is_share(bits: u64) -> bool {
    bits == 0 || bits >= 900 * number::EXPONENT_UNIT
}

/// The overlap of each held pair in its weakest stream.
fn weigh(items: &Vec<Item>, names: &Vec<String>, tracker: &Tracker, Ghost(pairs): Ghost<Seq<(int, int)>>) -> (r: Vec<u64>)
    requires
        tracker.placed(),
        tracker.episodes == items@.len(),
        pair_views(tracker.pairs@) == held_pairs(pairs),
    ensures
        r@.len() == tracker.pairs@.len(),
        forall|k: int| 0 <= k < r@.len() ==> is_share(#[trigger] r@[k]),
        forall|k: int|
            0 <= k < r@.len() ==> #[trigger] r@[k] == weakest(
                item_views(items@),
                text::texts(names@),
                pair_views(tracker.pairs@)[k],
            ),
{
    let ghost v = item_views(items@);
    let ghost t = text::texts(names@);
    let ghost held = pair_views(tracker.pairs@);
    let mut out: Vec<u64> = Vec::new();
    while out.len() < tracker.pairs.len()
        invariant
            out@.len() <= tracker.pairs@.len(),
            forall|k: int| 0 <= k < out@.len() ==> #[trigger] out@[k] == number::INFINITY,
        decreases tracker.pairs@.len() - out@.len(),
    {
        out.push(number::INFINITY);
    }
    let mut i: usize = 0;
    assert(t.take(0) =~= Seq::empty());
    while i < names.len()
        invariant
            i <= names@.len(),
            v == item_views(items@),
            t == text::texts(names@),
            held == pair_views(tracker.pairs@),
            tracker.placed(),
            tracker.episodes == items@.len(),
            held == held_pairs(pairs),
            out@.len() == tracker.pairs@.len(),
            forall|k: int| 0 <= k < out@.len() ==> is_share(#[trigger] out@[k]),
            forall|k: int| 0 <= k < out@.len() ==> #[trigger] out@[k] == weakest(v, t.take(i as int), held[k]),
        decreases names@.len() - i,
    {
        let name: &str = names[i].as_str();
        let counts: Vec<u128> = count(items, name, tracker, Ghost(pairs));
        proof {
            assert(t[i as int] == name@);
            assert(t.take(i + 1).drop_last() =~= t.take(i as int));
        }
        let mut k: usize = 0;
        while k < out.len()
            invariant
                i < names@.len(),
                t.len() == names@.len(),
                k <= out@.len(),
                v == item_views(items@),
                held == pair_views(tracker.pairs@),
                tracker.placed(),
                tracker.episodes == items@.len(),
                out@.len() == tracker.pairs@.len(),
                counts@.len() == out@.len(),
                t.take(i + 1).drop_last() == t.take(i as int),
                t.take(i + 1).last() == name@,
                forall|j: int| 0 <= j < counts@.len() ==> #[trigger] counts@[j] <= MAX_EPISODES_PER_HASH * 0x1_0000_0000_0000_0000,
                forall|j: int| 0 <= j < counts@.len() ==> #[trigger] counts@[j] as nat == occurrences(shared(v, name@), held[j]),
                forall|j: int| 0 <= j < out@.len() ==> is_share(#[trigger] out@[j]),
                forall|j: int| 0 <= j < k ==> #[trigger] out@[j] == weakest(v, t.take(i + 1), held[j]),
                forall|j: int| k <= j < out@.len() ==> #[trigger] out@[j] == weakest(v, t.take(i as int), held[j]),
            decreases out@.len() - k,
        {
            let (a, b): (usize, usize) = tracker.pairs[k];
            proof {
                assert(held[k as int] == (a as int, b as int));
                assert(v[a as int] == items@[a as int]@);
                assert(v[b as int] == items@[b as int]@);
            }
            if let Some(x) = find_hashes(&items[a].streams, name) {
                if let Some(y) = find_hashes(&items[b].streams, name) {
                    let d: usize = if x.len() <= y.len() { x.len() } else { y.len() };
                    let share: u64 = if d == 0 { 0 } else { number::nearest(counts[k], d as u128) };
                    proof {
                        if d > 0 && counts@[k as int] > 0 {
                            number::lemma_share(counts@[k as int] as nat, d as nat);
                        }
                    }
                    if share < out[k] {
                        out.set(k, share);
                    }
                }
            }
            k = k + 1;
        }
        i = i + 1;
    }
    assert(t.take(i as int) =~= t);
    out
}

/// What flagged pairs are.
spec fn flag_views(s: Seq<(usize, usize, u64)>) -> Seq<(int, int, u64)> {
    s.map_values(|p: (usize, usize, u64)| (p.0 as int, p.1 as int, p.2))
}

/// Whether flagged pairs are of some number of episodes.
spec fn flags_within(s: Seq<(usize, usize, u64)>, n: int) -> bool {
    forall|k: int| 0 <= k < s.len() ==> (#[trigger] s[k]).0 < n && s[k].1 < n && is_share(s[k].2)
}

/// The flagged pairs.
fn flag(
    items: &Vec<Item>,
    names: &Vec<String>,
    tracker: &Tracker,
    min: u64,
    Ghost(pairs): Ghost<Seq<(int, int)>>,
) -> (r: Vec<(usize, usize, u64)>)
    requires
        tracker.placed(),
        tracker.episodes == items@.len(),
        pair_views(tracker.pairs@) == held_pairs(pairs),
    ensures
        flag_views(r@) == flagged(item_views(items@), text::texts(names@), min, held_pairs(pairs)),
        flags_within(r@, items@.len() as int),
{
    let ghost v = item_views(items@);
    let ghost t = text::texts(names@);
    let ghost held = pair_views(tracker.pairs@);
    let weights: Vec<u64> = weigh(items, names, tracker, Ghost(pairs));
    let mut out: Vec<(usize, usize, u64)> = Vec::new();
    let mut k: usize = 0;
    assert(flag_views(out@) =~= Seq::empty());
    while k < tracker.pairs.len()
        invariant
            k <= tracker.pairs@.len(),
            v == item_views(items@),
            t == text::texts(names@),
            held == pair_views(tracker.pairs@),
            tracker.placed(),
            tracker.episodes == items@.len(),
            weights@.len() == tracker.pairs@.len(),
            forall|j: int| 0 <= j < weights@.len() ==> is_share(#[trigger] weights@[j]),
            forall|j: int| 0 <= j < weights@.len() ==> #[trigger] weights@[j] == weakest(v, t, held[j]),
            flag_views(out@) == flagged(v, t, min, held.take(k as int)),
            flags_within(out@, items@.len() as int),
        decreases tracker.pairs@.len() - k,
    {
        let (a, b): (usize, usize) = tracker.pairs[k];
        let w: u64 = weights[k];
        proof {
            assert(held[k as int] == (a as int, b as int));
            assert(held.take(k + 1).drop_last() =~= held.take(k as int));
        }
        assert(v[a as int] == items@[a as int]@ && v[b as int] == items@[b as int]@);
        let exact: bool = match (&items[a].signature, &items[b].signature) {
            (Some(x), Some(y)) => same_hash(x, y),
            _ => false,
        };
        assert(exact == is_exact(v, held[k as int]));
        if w != number::INFINITY && (number::lt(min, w) || number::eq(min, w)) && !exact {
            let ghost was = out@;
            out.push((a, b, w));
            assert(flag_views(out@) =~= flag_views(was).push((a as int, b as int, w)));
        }
        k = k + 1;
    }
    assert(held.take(k as int) =~= held);
    out
}

// ---- groups ----------------------------------------------------------------------------------

/// What labels are.
spec fn label_views(s: Seq<usize>) -> Seq<int> {
    s.map_values(|l: usize| l as int)
}

/// The label of each episode.
fn cluster(n: usize, found: &Vec<(usize, usize, u64)>) -> (r: Vec<usize>)
    requires
        flags_within(found@, n as int),
    ensures
        label_views(r@) == labels(n as nat, flag_views(found@)),
        r@.len() == n,
        forall|k: int| 0 <= k < r@.len() ==> #[trigger] r@[k] < n,
{
    let ghost f = flag_views(found@);
    let mut out: Vec<usize> = Vec::new();
    while out.len() < n
        invariant
            out@.len() <= n,
            forall|k: int| 0 <= k < out@.len() ==> #[trigger] out@[k] == k,
        decreases n - out@.len(),
    {
        let k: usize = out.len();
        out.push(k);
    }
    let mut i: usize = 0;
    assert(f.take(0) =~= Seq::empty());
    assert(label_views(out@) =~= labels(n as nat, f.take(0)));
    while i < found.len()
        invariant
            i <= found@.len(),
            f == flag_views(found@),
            flags_within(found@, n as int),
            out@.len() == n,
            label_views(out@) == labels(n as nat, f.take(i as int)),
            forall|k: int| 0 <= k < out@.len() ==> #[trigger] out@[k] < n,
        decreases found@.len() - i,
    {
        let ghost was = label_views(out@);
        let (a, b, _w): (usize, usize, u64) = found[i];
        assert(f[i as int] == (a as int, b as int, _w));
        let (x, y): (usize, usize) = (out[a], out[b]);
        let lo: usize = if x < y { x } else { y };
        let hi: usize = if x < y { y } else { x };
        let ghost now = joined(was, a as int, b as int);
        if lo != hi {
            let mut k: usize = 0;
            while k < out.len()
                invariant
                    k <= out@.len(),
                    out@.len() == n,
                    was.len() == n,
                    lo < n,
                    forall|j: int| 0 <= j < k ==> #[trigger] out@[j] == (if was[j] == hi { lo as int } else { was[j] }),
                    forall|j: int| k <= j < n ==> #[trigger] out@[j] == was[j],
                    forall|j: int| 0 <= j < n ==> #[trigger] out@[j] < n,
                decreases out@.len() - k,
            {
                if out[k] == hi {
                    out.set(k, lo);
                }
                k = k + 1;
            }
        }
        proof {
            assert(label_views(out@) =~= now);
            assert(f.take(i + 1).drop_last() =~= f.take(i as int));
        }
        i = i + 1;
    }
    assert(f.take(i as int) =~= f);
    out
}

/// Reports the groups of flagged episodes.
fn report_groups(items: &Vec<Item>, found: &Vec<(usize, usize, u64)>) -> (r: Vec<Finding>)
    requires
        flags_within(found@, items@.len() as int),
    ensures
        check::views(r@) == near_findings(
            item_views(items@),
            labels(items@.len(), flag_views(found@)),
            flag_views(found@),
            items@.len(),
        ),
{
    broadcast use check::group_views;

    let n: usize = items.len();
    let ghost v = item_views(items@);
    let ghost f = flag_views(found@);
    let l: Vec<usize> = cluster(n, found);
    let ghost lv = label_views(l@);
    let mut groups: Vec<Vec<u64>> = Vec::new();
    let mut shares: Vec<u64> = Vec::new();
    while groups.len() < n
        invariant
            groups@.len() <= n,
            shares@.len() == groups@.len(),
            forall|k: int| 0 <= k < groups@.len() ==> (#[trigger] groups@[k])@ == Seq::<u64>::empty(),
            forall|k: int| 0 <= k < shares@.len() ==> #[trigger] shares@[k] == ONE,
        decreases n - groups@.len(),
    {
        groups.push(Vec::new());
        shares.push(ONE);
    }
    let mut i: usize = 0;
    assert(f.take(0) =~= Seq::empty());
    while i < found.len()
        invariant
            i <= found@.len(),
            n == items@.len(),
            v == item_views(items@),
            f == flag_views(found@),
            lv == label_views(l@),
            l@.len() == n,
            flags_within(found@, n as int),
            forall|k: int| 0 <= k < l@.len() ==> #[trigger] l@[k] < n,
            groups@.len() == n,
            shares@.len() == n,
            forall|k: int| 0 <= k < n ==> (#[trigger] groups@[k])@ == members(v, lv, f.take(i as int), k),
            forall|k: int| 0 <= k < n ==> #[trigger] shares@[k] == overlap(lv, f.take(i as int), k),
            forall|k: int| 0 <= k < n ==> is_share(#[trigger] shares@[k]) && shares@[k] <= ONE,
        decreases found@.len() - i,
    {
        let (a, b, w): (usize, usize, u64) = found[i];
        let label: usize = l[a];
        proof {
            assert(f[i as int] == (a as int, b as int, w));
            assert(f.take(i + 1).drop_last() =~= f.take(i as int));
            assert(lv[a as int] == label);
            assert(v[a as int].index == items@[a as int].index);
            assert(v[b as int].index == items@[b as int].index);
        }
        let mut group: Vec<u64> = groups.remove(label);
        put_number(&mut group, items[a].index);
        put_number(&mut group, items[b].index);
        groups.insert(label, group);
        if w < shares[label] {
            shares.set(label, w);
        }
        proof {
            assert(is_share(found@[i as int].2));
            assert forall|k: int| 0 <= k < n implies (#[trigger] groups@[k])@ == members(v, lv, f.take(i + 1), k) by {
                if k != label {
                    assert(members(v, lv, f.take(i + 1), k) == members(v, lv, f.take(i as int), k));
                }
            }
        }
        i = i + 1;
    }
    assert(f.take(i as int) =~= f);
    let mut out: Vec<Finding> = Vec::new();
    let mut k: usize = 0;
    while k < n
        invariant
            k <= n,
            n == items@.len(),
            groups@.len() == n,
            shares@.len() == n,
            forall|j: int| 0 <= j < n ==> (#[trigger] groups@[j])@ == members(v, lv, f, j),
            forall|j: int| 0 <= j < n ==> #[trigger] shares@[j] == overlap(lv, f, j),
            forall|j: int| 0 <= j < n ==> is_share(#[trigger] shares@[j]) && shares@[j] <= ONE,
            check::views(out@) == near_findings(v, lv, f, k as nat),
        decreases n - k,
    {
        let group: &Vec<u64> = &groups[k];
        if group.len() > 0 {
            assert(is_share(shares@[k as int]) && shares@[k as int] <= ONE);
            assert(lists::first_few(group@, group@.len() as int) == group@);
            let message: String = cat5(
                "episodes ",
                join_numbers(group, group.len()).as_str(),
                " are near-duplicates: they share at least ",
                number::percent(shares[k]).as_str(),
                "% of their frames byte-for-byte in every stream compared, without being exact copies",
            );
            out.push(
                Finding::new(
                    NEAR_ID,
                    Category::Structure,
                    Severity::Warning,
                    Location::Dataset,
                    NEAR_CODE,
                    message,
                ).with_risk(NEAR_RISK).with_remedy(NEAR_REMEDY),
            );
        }
        k = k + 1;
    }
    out
}

/// Says what was not compared.
fn report_abstention(tracker: &Tracker, Ghost(seen): Ghost<Set<int>>) -> (r: Vec<Finding>)
    requires
        tracker.examined@.len() == tracker.episodes,
        forall|p: int| 0 <= p < tracker.episodes ==> #[trigger] tracker.examined@[p] == seen.contains(p),
    ensures
        check::views(r@) == abstention(tracker.overflowed, missing(seen, tracker.episodes as nat)),
{
    let mut unexamined: usize = 0;
    let mut i: usize = 0;
    while i < tracker.examined.len()
        invariant
            i <= tracker.examined@.len(),
            tracker.examined@.len() == tracker.episodes,
            forall|p: int| 0 <= p < tracker.episodes ==> #[trigger] tracker.examined@[p] == seen.contains(p),
            unexamined <= i,
            unexamined as nat == missing(seen, i as nat),
        decreases tracker.examined@.len() - i,
    {
        assert(tracker.examined@[i as int] == seen.contains(i as int));
        if !tracker.examined[i] {
            unexamined = unexamined + 1;
        }
        i = i + 1;
    }
    if !tracker.overflowed && unexamined == 0 {
        return check::none();
    }
    let message: String = if tracker.overflowed {
        cat3(
            "near-duplicate detection abstained: more than ",
            dec_usize(MAX_TRACKED_PAIRS).as_str(),
            " episode pairs share frames, which is past what this check will hold at once",
        )
    } else {
        cat5(
            "near-duplicate detection abstained on ",
            dec_usize(unexamined).as_str(),
            " episode(s): every one of their frames is held by more than ",
            dec_usize(MAX_EPISODES_PER_HASH).as_str(),
            " episodes, which this check treats as boilerplate rather than evidence",
        )
    };
    check::one(
        Finding::new(
            NEAR_ID,
            Category::Structure,
            Severity::Info,
            Location::Dataset,
            NEAR_UNCHECKED_CODE,
            message,
        ).with_risk(UNCHECKED_RISK).with_remedy(UNCHECKED_REMEDY),
    )
}

impl NearDuplicateEpisode {
    /// Reports the groups of episodes built largely from the same frames.
    pub fn evaluate(&self, dataset: &Dataset) -> (r: Vec<Finding>)
        ensures
            check::views(r@) == self.outcome(dataset),
    {
        broadcast use check::group_views;

        let items: Vec<Item> = gather_items(&dataset.episodes);
        let ghost v = item_views(items@);
        assert(v.len() == items@.len());
        if items.len() < 2 {
            return check::none();
        }
        let names: Vec<String> = gather_names(&items);
        let ghost t = text::texts(names@);
        let tracker: Tracker = track(&items, &names);
        let ghost pairs = all_shared(v, t);
        let ghost seen = all_examined(v, t);
        proof {
            assert(pairs + Seq::<(int, int)>::empty() =~= pairs);
            assert(seen.union(Set::empty()) =~= seen);
        }
        let found: Vec<(usize, usize, u64)> = flag(
            &items,
            &names,
            &tracker,
            self.min_overlap,
            Ghost(pairs),
        );
        let mut out: Vec<Finding> = report_abstention(&tracker, Ghost(seen));
        let mut more: Vec<Finding> = report_groups(&items, &found);
        out.append(&mut more);
        out
    }
}

impl Check for NearDuplicateEpisode {
    open spec fn meta(&self) -> CheckMeta {
        CheckMeta {
            id: NEAR_ID@,
            title: "Near-duplicate episodes"@,
            category: Category::Structure,
            default_severity: Severity::Warning,
            scope: Scope::Dataset,
            version: "1"@,
            finding_codes: seq![NEAR_CODE@, NEAR_UNCHECKED_CODE@],
        }
    }

    fn info(&self) -> (r: CheckInfo) {
        let finding_codes: &'static [&'static str] = &[NEAR_CODE, NEAR_UNCHECKED_CODE];
        assert(text::str_texts(finding_codes@) =~= self.meta().finding_codes);
        CheckInfo {
            id: NEAR_ID,
            title: "Near-duplicate episodes",
            category: Category::Structure,
            default_severity: Severity::Warning,
            scope: Scope::Dataset,
            version: "1",
            finding_codes,
        }
    }

    open spec fn report(&self, dataset: &Dataset) -> Seq<FindingView> {
        self.outcome(dataset)
    }

    open spec fn report_in(&self, dataset: &Dataset, frames_read: bool, attested: Seq<Seq<char>>) -> Seq<FindingView> {
        self.report(dataset)
    }

    fn run(&self, dataset: &Dataset) -> (r: Vec<Finding>) {
        self.evaluate(dataset)
    }

    fn run_in(&self, dataset: &Dataset, context: &CheckContext) -> (r: Vec<Finding>) {
        self.run(dataset)
    }
}

// ---- laws ------------------------------------------------------------------------------------

/// A pair that is flagged as near-duplicates is not one that the exact check speaks for.
pub proof fn law_flagged_pairs_are_not_exact(
    items: Seq<ItemView>,
    names: Seq<Seq<char>>,
    min: u64,
    pairs: Seq<(int, int)>,
    k: int,
)
    requires
        0 <= k < flagged(items, names, min, pairs).len(),
    ensures
        !is_exact(items, (flagged(items, names, min, pairs)[k].0, flagged(items, names, min, pairs)[k].1)),
    decreases pairs.len(),
{
    if pairs.len() > 0 {
        let rest = flagged(items, names, min, pairs.drop_last());
        if k < rest.len() {
            law_flagged_pairs_are_not_exact(items, names, min, pairs.drop_last(), k);
        }
    }
}

/// Whether pairs are of the first `n` episodes.
spec fn pairs_within(s: Seq<(int, int)>, n: int) -> bool {
    forall|k: int| 0 <= k < s.len() ==> 0 <= (#[trigger] s[k]).0 < n && 0 <= s[k].1 < n
}

/// Whether holders are among the first `n` episodes.
spec fn holders_within(t: Seq<(Seq<u8>, int)>, n: int) -> bool {
    forall|k: int| 0 <= k < t.len() ==> 0 <= (#[trigger] t[k]).1 < n
}

/// The pairs of one holder are of the episodes.
proof fn lemma_with_each_within(t: Seq<(Seq<u8>, int)>, x: int, y: int, end: int, n: int)
    requires
        holders_within(t, n),
        0 <= x < t.len(),
        0 <= y,
        end <= t.len(),
    ensures
        pairs_within(with_each(t, x, y, end), n),
    decreases end - y,
{
    if y < end {
        lemma_with_each_within(t, x, y + 1, end, n);
        let rest = with_each(t, x, y + 1, end);
        let all = with_each(t, x, y, end);
        assert forall|k: int| 0 <= k < all.len() implies 0 <= (#[trigger] all[k]).0 < n && 0 <= all[k].1 < n by {
            if k == 0 {
                assert(all[0] == (t[x].1, t[y].1));
            } else {
                assert(all[k] == rest[k - 1]);
            }
        }
    }
}

/// Two lists of pairs of the episodes are one.
proof fn lemma_both_within(a: Seq<(int, int)>, b: Seq<(int, int)>, n: int)
    requires
        pairs_within(a, n),
        pairs_within(b, n),
    ensures
        pairs_within(a + b, n),
{
    let all = a + b;
    assert forall|k: int| 0 <= k < all.len() implies 0 <= (#[trigger] all[k]).0 < n && 0 <= all[k].1 < n by {
        if k < a.len() {
            assert(all[k] == a[k]);
        } else {
            assert(all[k] == b[k - a.len()]);
        }
    }
}

/// The pairs of a run are of the episodes.
proof fn lemma_each_two_within(t: Seq<(Seq<u8>, int)>, x: int, end: int, n: int)
    requires
        holders_within(t, n),
        0 <= x,
        end <= t.len(),
    ensures
        pairs_within(each_two(t, x, end), n),
    decreases end - x,
{
    if x < end {
        lemma_with_each_within(t, x, x + 1, end, n);
        lemma_each_two_within(t, x + 1, end, n);
        lemma_both_within(with_each(t, x, x + 1, end), each_two(t, x + 1, end), n);
    }
}

/// The pairs that share a fingerprint are of the episodes.
proof fn lemma_shared_from_within(t: Seq<(Seq<u8>, int)>, i: int, n: int)
    requires
        holders_within(t, n),
        0 <= i,
    ensures
        pairs_within(shared_from(t, i), n),
    decreases t.len() - i,
{
    if i < t.len() {
        let j = run_end(t, i, i + 1);
        lemma_run_end(t, i, i + 1);
        lemma_shared_from_within(t, j, n);
        lemma_each_two_within(t, i, j, n);
        lemma_both_within(each_two(t, i, j), shared_from(t, j), n);
    }
}

/// The pairs that share a fingerprint in some stream are of the episodes.
proof fn lemma_all_shared_within(items: Seq<ItemView>, names: Seq<Seq<char>>)
    ensures
        pairs_within(all_shared(items, names), items.len() as int),
    decreases names.len(),
{
    if names.len() > 0 {
        let name = names.last();
        let (h, t) = (holdings(items, name), runs(items, name));
        lemma_all_shared_within(items, names.drop_last());
        lemma_positions(items, name);
        assert forall|k: int| 0 <= k < t.len() implies 0 <= (#[trigger] t[k]).1 < items.len() by {
            assert(t.contains(t[k]));
            lemma_sorted_holds(h, t[k]);
            let j = choose|j: int| 0 <= j < h.len() && h[j] == t[k];
            assert(0 <= h[j].1 < items.len());
        }
        lemma_shared_from_within(t, 0, items.len() as int);
        lemma_both_within(all_shared(items, names.drop_last()), shared(items, name), items.len() as int);
    }
}

/// The pairs that are held are of the episodes.
proof fn lemma_first_seen_within(s: Seq<(int, int)>, n: int)
    requires
        pairs_within(s, n),
    ensures
        pairs_within(first_seen(s), n),
    decreases s.len(),
{
    if s.len() > 0 {
        let rest = s.drop_last();
        assert forall|k: int| 0 <= k < rest.len() implies 0 <= (#[trigger] rest[k]).0 < n && 0 <= rest[k].1 < n by {
            assert(rest[k] == s[k]);
        }
        lemma_first_seen_within(rest, n);
        assert(s[s.len() - 1] == s.last());
    }
}

/// Among episodes that all share one signature, no pair is flagged.
proof fn lemma_none_flagged(items: Seq<ItemView>, names: Seq<Seq<char>>, min: u64, pairs: Seq<(int, int)>, key: Seq<u8>)
    requires
        pairs_within(pairs, items.len() as int),
        forall|k: int| 0 <= k < items.len() ==> (#[trigger] items[k]).signature == Some(key),
    ensures
        flagged(items, names, min, pairs) == Seq::<(int, int, u64)>::empty(),
    decreases pairs.len(),
{
    if pairs.len() > 0 {
        let rest = pairs.drop_last();
        assert forall|k: int| 0 <= k < rest.len() implies 0 <= (#[trigger] rest[k]).0 < items.len() && 0 <= rest[k].1
            < items.len() by {
            assert(rest[k] == pairs[k]);
        }
        lemma_none_flagged(items, names, min, rest, key);
        let p = pairs.last();
        assert(pairs[pairs.len() - 1] == p);
        assert(items[p.0].signature == Some(key) && items[p.1].signature == Some(key));
    }
}

/// Without flagged pairs there are no groups.
proof fn lemma_no_groups(items: Seq<ItemView>, l: Seq<int>, n: nat)
    ensures
        near_findings(items, l, Seq::empty(), n) == Seq::<FindingView>::empty(),
    decreases n,
{
    if n > 0 {
        lemma_no_groups(items, l, (n - 1) as nat);
    }
}

/// The episodes with evidence carry the signatures of the episodes.
proof fn lemma_item_signatures(episodes: Seq<Episode>, key: Seq<u8>)
    requires
        forall|k: int| 0 <= k < episodes.len() ==> duplicates::signature_of(#[trigger] episodes[k]) == Some(key),
    ensures
        forall|k: int| 0 <= k < items_of(episodes).len() ==> (#[trigger] items_of(episodes)[k]).signature == Some(key),
    decreases episodes.len(),
{
    if episodes.len() > 0 {
        let rest = episodes.drop_last();
        assert forall|k: int| 0 <= k < rest.len() implies duplicates::signature_of(#[trigger] rest[k]) == Some(key) by {
            assert(rest[k] == episodes[k]);
        }
        lemma_item_signatures(rest, key);
        assert(episodes[episodes.len() - 1] == episodes.last());
        let (was, now) = (items_of(rest), items_of(episodes));
        assert forall|k: int| 0 <= k < now.len() implies (#[trigger] now[k]).signature == Some(key) by {
            if k < was.len() {
                assert(now[k] == was[k]);
            }
        }
    }
}

/// Episodes that are all exact duplicates of one another are not reported as near-duplicates, at any
/// threshold.
pub proof fn law_exact_duplicates_are_not_near_duplicates(check: NearDuplicateEpisode, dataset: &Dataset, key: Seq<u8>)
    requires
        forall|k: int|
            0 <= k < dataset.episodes@.len() ==> duplicates::signature_of(#[trigger] dataset.episodes@[k]) == Some(key),
    ensures
        forall|i: int| 0 <= i < check.report(dataset).len() ==> (#[trigger] check.report(dataset)[i]).code != NEAR_CODE@,
{
    let items = items_of(dataset.episodes@);
    let names = evidence_names(items);
    let pairs = all_shared(items, names);
    lemma_item_signatures(dataset.episodes@, key);
    lemma_all_shared_within(items, names);
    lemma_first_seen_within(pairs, items.len() as int);
    let held = held_pairs(pairs);
    assert forall|k: int| 0 <= k < held.len() implies 0 <= (#[trigger] held[k]).0 < items.len() && 0 <= held[k].1
        < items.len() by {
        assert(held[k] == first_seen(pairs)[k]);
    }
    lemma_none_flagged(items, names, check.min_overlap, held, key);
    lemma_no_groups(items, labels(items.len(), Seq::empty()), items.len());
    reveal_strlit("STRUCTURAL.NEAR_DUPLICATE_EPISODE");
    reveal_strlit("STRUCTURAL.NEAR_DUPLICATE_UNCHECKED");
    assert(NEAR_CODE@.len() != NEAR_UNCHECKED_CODE@.len());
}

/// Two episodes that share a signature are reported once: by the exact check, and not by this one, at
/// any threshold.
pub proof fn law_exact_pairs_are_reported_once(check: NearDuplicateEpisode, dataset: &Dataset, a: Episode, b: Episode)
    requires
        dataset.episodes@ == seq![a, b],
        duplicates::signature_of(a) is Some,
        duplicates::signature_of(a) == duplicates::signature_of(b),
    ensures
        DuplicateEpisode.report(dataset).len() == 1,
        forall|i: int| 0 <= i < check.report(dataset).len() ==> (#[trigger] check.report(dataset)[i]).code != NEAR_CODE@,
{
    let key = duplicates::signature_of(a)->0;
    law_exact_duplicates_are_not_near_duplicates(check, dataset, key);
    duplicates::lemma_pair(a, b, key);
}

} // verus!
