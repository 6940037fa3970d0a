//! Structural checks: episode/stream integrity.

use vstd::prelude::*;
use vstd::string::*;

use crate::cat::{cat2, cat3, cat5, cat6, cat7, cat8, cat9};
use crate::cdm;
use crate::cdm::{metadata_value, Dataset, Episode, Frame, Modality, Stream, META_DECLARED_EPISODES, META_DECLARED_FRAMES};
use crate::check;
use crate::check::{none, one, Category, Check, CheckContext, CheckInfo, CheckMeta, Finding, FindingView, Location, LocationView, Scope, Severity};
use crate::checks::lists;
use crate::checks::lists::{join_numbers, list_a_few, more};
use crate::checks::walk;
use crate::checks::walk::{walk_episode_streams, walk_episodes, walk_streams, EpisodeRule, StreamRule};
use crate::seqs;
use crate::seqs::{holds_number, put_number, put_text};
use crate::text;
use crate::text::{dec_i64, dec_u128, dec_u64, dec_usize, parse_u64, same};

verus! {

// ---- episode boundaries ----------------------------------------------------------------------

/// Episode-boundary integrity: when episode-length metadata yields wrong cumulative boundaries,
/// frames are silently misattributed to the wrong episode. In the CDM that corruption surfaces as a
/// **declared-vs-actual length mismatch** (the manifest's per-episode `length` disagrees with the
/// frames ingested), **duplicate episode indices** (two episodes claim the same slot), or an
/// **inverted boundary** (`start_ts > end_ts`).
#[derive(Debug, Clone, Copy)]
pub struct EpisodeBoundary;

/// The id of [`EpisodeBoundary`].
pub const BOUNDARY_ID: &'static str = "structural.episode-boundary";

/// The code of its findings.
pub const BOUNDARY_CODE: &'static str = "STRUCTURAL.EPISODE_BOUNDARY";

pub const DUPLICATE_INDEX_RISK: &'static str = "Frames are misattributed across episode boundaries, poisoning trajectory \
     segmentation and any per-episode statistics.";

pub const DUPLICATE_INDEX_REMEDY: &'static str = "Recompute the episode boundary/cumulative-length metadata from the source \
     shards and re-export.";

pub const INVERTED_RISK: &'static str = "An inverted time window indicates corrupted episode metadata.";

pub const INVERTED_REMEDY: &'static str = "Re-derive episode start/end from the underlying frames.";

pub const LENGTH_RISK: &'static str = "Wrong per-episode lengths make cumulative boundaries misplace frames, so \
     frames load under the wrong episode during training — corrupting \
     trajectory segmentation and per-episode statistics.";

pub const LENGTH_REMEDY: &'static str = "Recompute the per-episode length metadata (meta/episodes.jsonl) from the \
     source shards and re-export.";

/// How many episodes have an index.
pub open spec fn occurrences(episodes: Seq<Episode>, index: u64) -> nat
    decreases episodes.len(),
{
    if episodes.len() == 0 {
        0
    } else {
        occurrences(episodes.drop_last(), index) + (if episodes.last().index == index { 1nat } else { 0nat })
    }
}

/// The finding for an episode index that appears more than once.
pub open spec fn duplicate_index(index: u64, count: nat) -> FindingView {
    check::finding(
        BOUNDARY_ID@,
        Category::Structure,
        Severity::Error,
        LocationView::Episode { episode: index },
        BOUNDARY_CODE@,
        "episode index "@ + text::dec(index as nat) + " appears "@ + text::dec(count)
            + " times; cumulative episode boundaries are inconsistent"@,
        DUPLICATE_INDEX_RISK@,
        DUPLICATE_INDEX_REMEDY@,
    )
}

/// The findings for the indices among the first `n` episodes that appear more than once in all, in
/// the order in which they first appear.
pub open spec fn duplicate_indices(episodes: Seq<Episode>, n: int) -> Seq<FindingView>
    decreases n,
{
    if n <= 0 {
        Seq::empty()
    } else {
        let index = episodes[n - 1].index;
        let count = occurrences(episodes, index);
        if occurrences(episodes.take(n - 1), index) == 0 && count > 1 {
            duplicate_indices(episodes, n - 1).push(duplicate_index(index, count))
        } else {
            duplicate_indices(episodes, n - 1)
        }
    }
}

/// How many of the first `n` episodes have an index.
fn count_index(episodes: &Vec<Episode>, n: usize, index: u64) -> (r: usize)
    requires
        n <= episodes@.len(),
    ensures
        r as nat == occurrences(episodes@.take(n as int), index),
        r <= n,
{
    let mut count: usize = 0;
    let mut i: usize = 0;
    while i < n
        invariant
            i <= n <= episodes@.len(),
            count <= i,
            count as nat == occurrences(episodes@.take(i as int), index),
        decreases n - i,
    {
        assert(episodes@.take(i + 1).drop_last() =~= episodes@.take(i as int));
        if episodes[i].index == index {
            count = count + 1;
        }
        i = i + 1;
    }
    count
}

/// Bounds that end before they start.
#[derive(Debug, Clone, Copy)]
pub struct InvertedBounds;

impl EpisodeRule for InvertedBounds {
    open spec fn of_episode(&self, episode: Episode) -> Seq<FindingView> {
        match (episode.start_ts, episode.end_ts) {
            (Some(start), Some(end)) => if start > end {
                seq![
                    check::finding(
                        BOUNDARY_ID@,
                        Category::Structure,
                        Severity::Error,
                        LocationView::Episode { episode: episode.index },
                        BOUNDARY_CODE@,
                        "episode "@ + text::dec(episode.index as nat) + " has inverted bounds: start_ts "@
                            + text::int_text(start as int) + " > end_ts "@ + text::int_text(end as int),
                        INVERTED_RISK@,
                        INVERTED_REMEDY@,
                    ),
                ]
            } else {
                Seq::empty()
            },
            _ => Seq::empty(),
        }
    }

    fn check_episode(&self, episode: &Episode) -> (r: Vec<Finding>) {
        if let (Some(start), Some(end)) = (episode.start_ts, episode.end_ts) {
            if start > end {
                let message: String = cat6(
                    "episode ",
                    dec_u64(episode.index).as_str(),
                    " has inverted bounds: start_ts ",
                    dec_i64(start).as_str(),
                    " > end_ts ",
                    dec_i64(end).as_str(),
                );
                return one(
                    Finding::new(
                        BOUNDARY_ID,
                        Category::Structure,
                        Severity::Error,
                        Location::Episode { episode: episode.index },
                        BOUNDARY_CODE,
                        message,
                    ).with_risk(INVERTED_RISK).with_remedy(INVERTED_REMEDY),
                );
            }
        }
        none()
    }
}

/// The length of the longest of some streams: streams are frame-aligned, and the longest is robust
/// to one that abstains from frames.
pub open spec fn longest(streams: Seq<Stream>) -> nat
    decreases streams.len(),
{
    if streams.len() == 0 {
        0
    } else {
        let n = streams.last().frames@.len();
        if n > longest(streams.drop_last()) { n } else { longest(streams.drop_last()) }
    }
}

/// The length of the longest stream of an episode.
fn longest_stream(episode: &Episode) -> (r: u64)
    ensures
        r as nat == longest(episode.streams@),
{
    let mut max: u64 = 0;
    let mut i: usize = 0;
    while i < episode.streams.len()
        invariant
            i <= episode.streams@.len(),
            max as nat == longest(episode.streams@.take(i as int)),
        decreases episode.streams@.len() - i,
    {
        assert(episode.streams@.take(i + 1).drop_last() =~= episode.streams@.take(i as int));
        let n: u64 = episode.streams[i].frames.len() as u64;
        if n > max {
            max = n;
        }
        i = i + 1;
    }
    assert(episode.streams@.take(i as int) =~= episode.streams@);
    max
}

/// Declared-vs-actual per-episode length.
#[derive(Debug, Clone, Copy)]
pub struct DeclaredLength;

impl EpisodeRule for DeclaredLength {
    open spec fn of_episode(&self, episode: Episode) -> Seq<FindingView> {
        match episode.declared_frame_count {
            Some(declared) => if declared != longest(episode.streams@) {
                seq![
                    check::finding(
                        BOUNDARY_ID@,
                        Category::Structure,
                        Severity::Error,
                        LocationView::Episode { episode: episode.index },
                        BOUNDARY_CODE@,
                        "episode "@ + text::dec(episode.index as nat) + " declares "@ + text::dec(declared as nat)
                            + " frames but "@ + text::dec(longest(episode.streams@))
                            + " were ingested; cumulative episode boundaries are inconsistent"@,
                        LENGTH_RISK@,
                        LENGTH_REMEDY@,
                    ),
                ]
            } else {
                Seq::empty()
            },
            None => Seq::empty(),
        }
    }

    fn check_episode(&self, episode: &Episode) -> (r: Vec<Finding>) {
        if let Some(declared) = episode.declared_frame_count {
            let actual: u64 = longest_stream(episode);
            if declared != actual {
                let message: String = cat7(
                    "episode ",
                    dec_u64(episode.index).as_str(),
                    " declares ",
                    dec_u64(declared).as_str(),
                    " frames but ",
                    dec_u64(actual).as_str(),
                    " were ingested; cumulative episode boundaries are inconsistent",
                );
                return one(
                    Finding::new(
                        BOUNDARY_ID,
                        Category::Structure,
                        Severity::Error,
                        Location::Episode { episode: episode.index },
                        BOUNDARY_CODE,
                        message,
                    ).with_risk(LENGTH_RISK).with_remedy(LENGTH_REMEDY),
                );
            }
        }
        none()
    }
}

impl EpisodeBoundary {
    /// What the arms that read only the manifest report: duplicate episode indices and inverted
    /// bounds. Both apply whether or not any frame was read.
    pub open spec fn manifest_arms(dataset: &Dataset) -> Seq<FindingView> {
        duplicate_indices(dataset.episodes@, dataset.episodes@.len() as int) + walk::by_episode(
            InvertedBounds,
            dataset.episodes@,
        )
    }

    /// What the check reports: with no frames read, declared-vs-actual length abstains.
    pub open spec fn outcome(dataset: &Dataset, frames_read: bool) -> Seq<FindingView> {
        if frames_read {
            Self::manifest_arms(dataset) + walk::by_episode(DeclaredLength, dataset.episodes@)
        } else {
            Self::manifest_arms(dataset)
        }
    }

    /// `frames_read` is false under a metadata-only ingest, where no episode has frames by request.
    /// The duplicate-index and inverted-boundary arms still apply, since both read the manifest, but
    /// declared-vs-actual length cannot: "declares 120, ingested 0" would be true of every sound
    /// dataset checked that way.
    pub fn run_with(&self, dataset: &Dataset, frames_read: bool) -> (r: Vec<Finding>)
        ensures
            check::views(r@) == Self::outcome(dataset, frames_read),
    {
        broadcast use check::group_views;

        let mut findings: Vec<Finding> = self.run_manifest_arms(dataset);
        if frames_read {
            let mut more: Vec<Finding> = walk_episodes(&DeclaredLength, dataset);
            findings.append(&mut more);
        }
        findings
    }

    /// The arms that read only the manifest.
    fn run_manifest_arms(&self, dataset: &Dataset) -> (r: Vec<Finding>)
        ensures
            check::views(r@) == Self::manifest_arms(dataset),
    {
        broadcast use check::group_views;

        let mut findings: Vec<Finding> = Vec::new();
        let mut i: usize = 0;
        while i < dataset.episodes.len()
            invariant
                i <= dataset.episodes@.len(),
                check::views(findings@) == duplicate_indices(dataset.episodes@, i as int),
            decreases dataset.episodes@.len() - i,
        {
            let index: u64 = dataset.episodes[i].index;
            if count_index(&dataset.episodes, i, index) == 0 {
                let count: usize = count_index(&dataset.episodes, dataset.episodes.len(), index);
                assert(dataset.episodes@.take(dataset.episodes@.len() as int) =~= dataset.episodes@);
                if count > 1 {
                    let message: String = cat5(
                        "episode index ",
                        dec_u64(index).as_str(),
                        " appears ",
                        dec_usize(count).as_str(),
                        " times; cumulative episode boundaries are inconsistent",
                    );
                    findings.push(
                        Finding::new(
                            BOUNDARY_ID,
                            Category::Structure,
                            Severity::Error,
                            Location::Episode { episode: index },
                            BOUNDARY_CODE,
                            message,
                        ).with_risk(DUPLICATE_INDEX_RISK).with_remedy(DUPLICATE_INDEX_REMEDY),
                    );
                }
            }
            i = i + 1;
        }
        let mut more: Vec<Finding> = walk_episodes(&InvertedBounds, dataset);
        findings.append(&mut more);
        findings
    }
}

impl Check for EpisodeBoundary {
    open spec fn meta(&self) -> CheckMeta {
        CheckMeta {
            id: BOUNDARY_ID@,
            title: "Episode boundary integrity"@,
            category: Category::Structure,
            default_severity: Severity::Error,
            scope: Scope::Dataset,
            version: "1"@,
            finding_codes: seq![BOUNDARY_CODE@],
        }
    }

    fn info(&self) -> (r: CheckInfo) {
        let finding_codes: &'static [&'static str] = &[BOUNDARY_CODE];
        assert(text::str_texts(finding_codes@) =~= self.meta().finding_codes);
        CheckInfo {
            id: BOUNDARY_ID,
            title: "Episode boundary integrity",
            category: Category::Structure,
            default_severity: Severity::Error,
            scope: Scope::Dataset,
            version: "1",
            finding_codes,
        }
    }

    open spec fn report(&self, dataset: &Dataset) -> Seq<FindingView> {
        Self::outcome(dataset, true)
    }

    open spec fn report_in(&self, dataset: &Dataset, frames_read: bool, attested: Seq<Seq<char>>) -> Seq<FindingView> {
        Self::outcome(dataset, frames_read)
    }

    fn run(&self, dataset: &Dataset) -> (r: Vec<Finding>) {
        self.run_with(dataset, true)
    }

    fn run_in(&self, dataset: &Dataset, context: &CheckContext) -> (r: Vec<Finding>) {
        self.run_with(dataset, context.frames_read)
    }
}

// ---- declared counts -------------------------------------------------------------------------

/// Declared-vs-actual episode count. When a source manifest declares how many episodes the dataset
/// contains, the number ingested must match. A shortfall is the signature of a truncated or
/// partially-downloaded export: training silently on less data than the manifest promises. Datasets
/// that declare no count are skipped.
#[derive(Debug, Clone, Copy)]
pub struct DeclaredEpisodeCount;

/// The id of [`DeclaredEpisodeCount`].
pub const EPISODE_COUNT_ID: &'static str = "structural.declared-episode-count";

/// The code of its findings.
pub const EPISODE_COUNT_CODE: &'static str = "STRUCTURAL.EPISODE_COUNT_MISMATCH";

pub const EPISODE_COUNT_RISK: &'static str = "A mismatch between the manifest and the data means the export is truncated or corrupt; \
     training would use fewer (or more) episodes than intended.";

pub const EPISODE_COUNT_REMEDY: &'static str = "Re-download or re-export the dataset, or fix the manifest's total_episodes to match.";

/// The number that a dataset declares under a metadata key.
pub open spec fn declared_number(dataset: &Dataset, key: Seq<char>) -> Option<u64> {
    match cdm::first_value(dataset.metadata@, key) {
        Some(v) => text::u64_of(v),
        None => None,
    }
}

/// The number that a dataset declares under a metadata key.
fn declared(dataset: &Dataset, key: &str) -> (r: Option<u64>)
    ensures
        r == declared_number(dataset, key@),
{
    match metadata_value(&dataset.metadata, key) {
        Some(v) => parse_u64(v),
        None => None,
    }
}

/// The finding for a declared number that the data does not hold.
pub open spec fn count_mismatch(
    id: Seq<char>,
    code: Seq<char>,
    what: Seq<char>,
    declared: nat,
    actual: nat,
    risk: Seq<char>,
    remedy: Seq<char>,
) -> FindingView {
    check::finding(
        id,
        Category::Structure,
        Severity::Error,
        LocationView::Dataset,
        code,
        "manifest declares "@ + text::dec(declared) + what + text::dec(actual) + " were ingested"@,
        risk,
        remedy,
    )
}

impl DeclaredEpisodeCount {
    /// What the check reports.
    pub open spec fn outcome(dataset: &Dataset) -> Seq<FindingView> {
        match declared_number(dataset, META_DECLARED_EPISODES@) {
            Some(declared) => if declared == dataset.episodes@.len() {
                Seq::empty()
            } else {
                seq![
                    count_mismatch(
                        EPISODE_COUNT_ID@,
                        EPISODE_COUNT_CODE@,
                        " episodes but "@,
                        declared as nat,
                        dataset.episodes@.len(),
                        EPISODE_COUNT_RISK@,
                        EPISODE_COUNT_REMEDY@,
                    ),
                ]
            },
            None => Seq::empty(),
        }
    }

    /// Holds the declared number of episodes against the number ingested.
    pub fn evaluate(&self, dataset: &Dataset) -> (r: Vec<Finding>)
        ensures
            check::views(r@) == Self::outcome(dataset),
    {
        match declared(dataset, META_DECLARED_EPISODES) {
            Some(declared) => {
                let actual: u64 = dataset.episodes.len() as u64;
                if declared == actual {
                    return none();
                }
                let message: String = cat5(
                    "manifest declares ",
                    dec_u64(declared).as_str(),
                    " episodes but ",
                    dec_u64(actual).as_str(),
                    " were ingested",
                );
                one(
                    Finding::new(
                        EPISODE_COUNT_ID,
                        Category::Structure,
                        Severity::Error,
                        Location::Dataset,
                        EPISODE_COUNT_CODE,
                        message,
                    ).with_risk(EPISODE_COUNT_RISK).with_remedy(EPISODE_COUNT_REMEDY),
                )
            },
            None => none(),
        }
    }
}

impl Check for DeclaredEpisodeCount {
    open spec fn meta(&self) -> CheckMeta {
        CheckMeta {
            id: EPISODE_COUNT_ID@,
            title: "Declared episode count matches the data"@,
            category: Category::Structure,
            default_severity: Severity::Error,
            scope: Scope::Dataset,
            version: "1"@,
            finding_codes: seq![EPISODE_COUNT_CODE@],
        }
    }

    fn info(&self) -> (r: CheckInfo) {
        let finding_codes: &'static [&'static str] = &[EPISODE_COUNT_CODE];
        assert(text::str_texts(finding_codes@) =~= self.meta().finding_codes);
        CheckInfo {
            id: EPISODE_COUNT_ID,
            title: "Declared episode count matches the data",
            category: Category::Structure,
            default_severity: Severity::Error,
            scope: Scope::Dataset,
            version: "1",
            finding_codes,
        }
    }

    open spec fn report(&self, dataset: &Dataset) -> Seq<FindingView> {
        Self::outcome(dataset)
    }

    open spec fn report_in(&self, dataset: &Dataset, frames_read: bool, attested: Seq<Seq<char>>) -> Seq<FindingView> {
        self.report(dataset)
    }

    fn run(&self, dataset: &Dataset) -> (r: Vec<Finding>) {
        self.evaluate(dataset)
    }

    fn run_in(&self, dataset: &Dataset, context: &CheckContext) -> (r: Vec<Finding>) {
        self.run(dataset)
    }
}

/// Declared-vs-actual frame count. When a source manifest declares a total frame count, the frames
/// ingested must match. This catches truncation that leaves every episode present but some episodes
/// short, which the episode-count check misses. The actual count per episode is its longest stream
/// (in a frame-aligned source, every stream in an episode has the same length). Datasets that
/// declare no frame count are skipped.
#[derive(Debug, Clone, Copy)]
pub struct DeclaredFrameCount;

/// The id of [`DeclaredFrameCount`].
pub const FRAME_COUNT_ID: &'static str = "structural.declared-frame-count";

/// The code of its findings.
pub const FRAME_COUNT_CODE: &'static str = "STRUCTURAL.FRAME_COUNT_MISMATCH";

pub const FRAME_COUNT_RISK: &'static str = "A frame-count mismatch means the export is truncated or corrupt; episodes may be cut \
     short, breaking trajectories even when every episode is present.";

pub const FRAME_COUNT_REMEDY: &'static str = "Re-download or re-export the dataset, or fix the manifest's total_frames to match.";

/// The frames of all episodes, each as long as its longest stream.
pub open spec fn total_frames(episodes: Seq<Episode>) -> nat
    decreases episodes.len(),
{
    if episodes.len() == 0 {
        0
    } else {
        total_frames(episodes.drop_last()) + longest(episodes.last().streams@)
    }
}

/// The frames of all episodes; a total beyond 64 bits is no total that a manifest can declare.
fn count_frames(episodes: &Vec<Episode>) -> (r: u128)
    ensures
        r as nat == total_frames(episodes@),
{
    let mut total: u128 = 0;
    let mut i: usize = 0;
    while i < episodes.len()
        invariant
            i <= episodes@.len(),
            total as nat == total_frames(episodes@.take(i as int)),
            total <= i * 0xffff_ffff_ffff_ffff,
        decreases episodes@.len() - i,
    {
        assert(episodes@.take(i + 1).drop_last() =~= episodes@.take(i as int));
        let n: u64 = longest_stream(&episodes[i]);
        assert(i * 0xffff_ffff_ffff_ffff + n <= (i + 1) * 0xffff_ffff_ffff_ffff) by (nonlinear_arith)
            requires
                n <= 0xffff_ffff_ffff_ffff,
        ;
        assert(total + n <= 0xffff_ffff_ffff_ffff * 0xffff_ffff_ffff_ffff) by (nonlinear_arith)
            requires
                total + n <= (i + 1) * 0xffff_ffff_ffff_ffff,
                i + 1 <= 0xffff_ffff_ffff_ffff,
        ;
        total = total + n as u128;
        i = i + 1;
    }
    assert(episodes@.take(i as int) =~= episodes@);
    total
}

impl DeclaredFrameCount {
    /// What the check reports.
    pub open spec fn outcome(dataset: &Dataset) -> Seq<FindingView> {
        match declared_number(dataset, META_DECLARED_FRAMES@) {
            Some(declared) => if declared == total_frames(dataset.episodes@) {
                Seq::empty()
            } else {
                seq![
                    count_mismatch(
                        FRAME_COUNT_ID@,
                        FRAME_COUNT_CODE@,
                        " frames but "@,
                        declared as nat,
                        total_frames(dataset.episodes@),
                        FRAME_COUNT_RISK@,
                        FRAME_COUNT_REMEDY@,
                    ),
                ]
            },
            None => Seq::empty(),
        }
    }

    /// Holds the declared number of frames against the number ingested.
    pub fn evaluate(&self, dataset: &Dataset) -> (r: Vec<Finding>)
        ensures
            check::views(r@) == Self::outcome(dataset),
    {
        match declared(dataset, META_DECLARED_FRAMES) {
            Some(declared) => {
                let actual: u128 = count_frames(&dataset.episodes);
                if declared as u128 == actual {
                    return none();
                }
                let mut count: String = String::new();
                text::push_u128(&mut count, actual);
                assert(count@ =~= text::dec(actual as nat));
                let message: String = cat5(
                    "manifest declares ",
                    dec_u64(declared).as_str(),
                    " frames but ",
                    count.as_str(),
                    " were ingested",
                );
                one(
                    Finding::new(
                        FRAME_COUNT_ID,
                        Category::Structure,
                        Severity::Error,
                        Location::Dataset,
                        FRAME_COUNT_CODE,
                        message,
                    ).with_risk(FRAME_COUNT_RISK).with_remedy(FRAME_COUNT_REMEDY),
                )
            },
            None => none(),
        }
    }
}

impl Check for DeclaredFrameCount {
    open spec fn meta(&self) -> CheckMeta {
        CheckMeta {
            id: FRAME_COUNT_ID@,
            title: "Declared frame count matches the data"@,
            category: Category::Structure,
            default_severity: Severity::Error,
            scope: Scope::Dataset,
            version: "1"@,
            finding_codes: seq![FRAME_COUNT_CODE@],
        }
    }

    fn info(&self) -> (r: CheckInfo) {
        let finding_codes: &'static [&'static str] = &[FRAME_COUNT_CODE];
        assert(text::str_texts(finding_codes@) =~= self.meta().finding_codes);
        CheckInfo {
            id: FRAME_COUNT_ID,
            title: "Declared frame count matches the data",
            category: Category::Structure,
            default_severity: Severity::Error,
            scope: Scope::Dataset,
            version: "1",
            finding_codes,
        }
    }

    open spec fn report(&self, dataset: &Dataset) -> Seq<FindingView> {
        Self::outcome(dataset)
    }

    open spec fn report_in(&self, dataset: &Dataset, frames_read: bool, attested: Seq<Seq<char>>) -> Seq<FindingView> {
        if frames_read { Self::outcome(dataset) } else { Seq::empty() }
    }

    fn run(&self, dataset: &Dataset) -> (r: Vec<Finding>) {
        self.evaluate(dataset)
    }

    fn run_in(&self, dataset: &Dataset, context: &CheckContext) -> (r: Vec<Finding>) {
        if context.frames_read { self.evaluate(dataset) } else { none() }
    }
}

// ---- degenerate episodes ---------------------------------------------------------------------

/// Degenerate episodes and streams: an episode with no streams, a stream with no frames (error), or
/// a stream with a single frame (warning) carries no usable trajectory.
#[derive(Debug, Clone, Copy)]
pub struct DegenerateEpisode;

/// The id of [`DegenerateEpisode`].
pub const DEGENERATE_ID: &'static str = "structural.degenerate-episode";

pub const EMPTY_DATASET_RISK: &'static str = "A dataset with no episodes contains no data to train on or verify.";

pub const EMPTY_DATASET_REMEDY: &'static str = "Check the source path and the ingest: the export may be empty or unreadable.";

pub const EMPTY_EPISODE_RISK: &'static str = "An episode with no data contributes nothing and skews counts.";

pub const EMPTY_EPISODE_REMEDY: &'static str = "Drop the empty episode or fix the export that produced it.";

pub const EMPTY_STREAM_RISK: &'static str = "A stream with no frames breaks cross-stream alignment.";

pub const EMPTY_STREAM_REMEDY: &'static str = "Remove the stream or repair the missing shard.";

pub const SINGLE_FRAME_RISK: &'static str = "A single-frame stream carries no temporal signal.";

pub const SINGLE_FRAME_REMEDY: &'static str = "Confirm the recording captured the full trajectory.";

/// A finding about a stream that ends the sentence `stream .. in episode ..`.
pub open spec fn stream_sentence(
    id: Seq<char>,
    severity: Severity,
    code: Seq<char>,
    episode: Episode,
    stream: Stream,
    ending: Seq<char>,
    risk: Seq<char>,
    remedy: Seq<char>,
) -> FindingView {
    check::finding(
        id,
        Category::Structure,
        severity,
        LocationView::Stream { episode: episode.index, stream: stream.name@ },
        code,
        "stream `"@ + stream.name@ + "` in episode "@ + text::dec(episode.index as nat) + ending,
        risk,
        remedy,
    )
}

/// Streams without frames, and streams with a single one.
#[derive(Debug, Clone, Copy)]
pub struct ShortStreams;

impl StreamRule for ShortStreams {
    /// A stream the source declares *latched* is published once and retained for late subscribers:
    /// one frame is what it is for, not a trajectory that was cut short. Only a recorded declaration
    /// counts, since a latched topic and a sensor that fired once and stopped are identical in the
    /// data.
    open spec fn of_stream(&self, episode: Episode, stream: Stream) -> Seq<FindingView> {
        if stream.frames@.len() == 0 {
            seq![
                stream_sentence(
                    DEGENERATE_ID@,
                    Severity::Error,
                    "STRUCTURAL.EMPTY_STREAM"@,
                    episode,
                    stream,
                    " has no frames"@,
                    EMPTY_STREAM_RISK@,
                    EMPTY_STREAM_REMEDY@,
                ),
            ]
        } else if stream.frames@.len() == 1 && stream.latched != Some(true) {
            seq![
                stream_sentence(
                    DEGENERATE_ID@,
                    Severity::Warning,
                    "STRUCTURAL.SINGLE_FRAME_STREAM"@,
                    episode,
                    stream,
                    " has a single frame"@,
                    SINGLE_FRAME_RISK@,
                    SINGLE_FRAME_REMEDY@,
                ),
            ]
        } else {
            Seq::empty()
        }
    }

    fn check_stream(&self, episode: &Episode, stream: &Stream) -> (r: Vec<Finding>) {
        let location: Location = Location::Stream { episode: episode.index, stream: stream.name.clone() };
        if stream.frames.len() == 0 {
            let message: String = cat5(
                "stream `",
                stream.name.as_str(),
                "` in episode ",
                dec_u64(episode.index).as_str(),
                " has no frames",
            );
            return one(
                Finding::new(
                    DEGENERATE_ID,
                    Category::Structure,
                    Severity::Error,
                    location,
                    "STRUCTURAL.EMPTY_STREAM",
                    message,
                ).with_risk(EMPTY_STREAM_RISK).with_remedy(EMPTY_STREAM_REMEDY),
            );
        }
        let latched: bool = match stream.latched {
            Some(latched) => latched,
            None => false,
        };
        if stream.frames.len() == 1 && !latched {
            let message: String = cat5(
                "stream `",
                stream.name.as_str(),
                "` in episode ",
                dec_u64(episode.index).as_str(),
                " has a single frame",
            );
            return one(
                Finding::new(
                    DEGENERATE_ID,
                    Category::Structure,
                    Severity::Warning,
                    location,
                    "STRUCTURAL.SINGLE_FRAME_STREAM",
                    message,
                ).with_risk(SINGLE_FRAME_RISK).with_remedy(SINGLE_FRAME_REMEDY),
            );
        }
        none()
    }
}

/// Episodes without streams; the streams of the others, where frames were read.
#[derive(Debug, Clone, Copy)]
pub struct EmptyEpisodes {
    /// Whether the ingest read frames.
    pub frames_read: bool,
}

impl EpisodeRule for EmptyEpisodes {
    open spec fn of_episode(&self, episode: Episode) -> Seq<FindingView> {
        if episode.streams@.len() == 0 {
            seq![
                check::finding(
                    DEGENERATE_ID@,
                    Category::Structure,
                    Severity::Error,
                    LocationView::Episode { episode: episode.index },
                    "STRUCTURAL.EMPTY_EPISODE"@,
                    "episode "@ + text::dec(episode.index as nat) + " has no streams"@,
                    EMPTY_EPISODE_RISK@,
                    EMPTY_EPISODE_REMEDY@,
                ),
            ]
        } else if self.frames_read {
            walk::by_stream(ShortStreams, episode, episode.streams@)
        } else {
            Seq::empty()
        }
    }

    fn check_episode(&self, episode: &Episode) -> (r: Vec<Finding>) {
        if episode.streams.len() == 0 {
            let message: String = cat3("episode ", dec_u64(episode.index).as_str(), " has no streams");
            return one(
                Finding::new(
                    DEGENERATE_ID,
                    Category::Structure,
                    Severity::Error,
                    Location::Episode { episode: episode.index },
                    "STRUCTURAL.EMPTY_EPISODE",
                    message,
                ).with_risk(EMPTY_EPISODE_RISK).with_remedy(EMPTY_EPISODE_REMEDY),
            );
        }
        if self.frames_read {
            walk_episode_streams(&ShortStreams, episode)
        } else {
            none()
        }
    }
}

impl DegenerateEpisode {
    /// What the check reports. A dataset with no episodes at all is degenerate: nothing to train on.
    /// With no frames read every stream is empty by request, so the frame-count arms abstain.
    pub open spec fn outcome(dataset: &Dataset, frames_read: bool) -> Seq<FindingView> {
        if dataset.episodes@.len() == 0 {
            seq![
                check::finding(
                    DEGENERATE_ID@,
                    Category::Structure,
                    Severity::Error,
                    LocationView::Dataset,
                    "STRUCTURAL.EMPTY_DATASET"@,
                    "dataset has no episodes"@,
                    EMPTY_DATASET_RISK@,
                    EMPTY_DATASET_REMEDY@,
                ),
            ]
        } else {
            walk::by_episode(EmptyEpisodes { frames_read }, dataset.episodes@)
        }
    }

    /// Reports what is degenerate.
    pub fn run_with(&self, dataset: &Dataset, frames_read: bool) -> (r: Vec<Finding>)
        ensures
            check::views(r@) == Self::outcome(dataset, frames_read),
    {
        if dataset.episodes.len() == 0 {
            return one(
                Finding::new(
                    DEGENERATE_ID,
                    Category::Structure,
                    Severity::Error,
                    Location::Dataset,
                    "STRUCTURAL.EMPTY_DATASET",
                    String::from_str("dataset has no episodes"),
                ).with_risk(EMPTY_DATASET_RISK).with_remedy(EMPTY_DATASET_REMEDY),
            );
        }
        walk_episodes(&EmptyEpisodes { frames_read }, dataset)
    }
}

impl Check for DegenerateEpisode {
    open spec fn meta(&self) -> CheckMeta {
        CheckMeta {
            id: DEGENERATE_ID@,
            title: "Degenerate episodes and streams"@,
            category: Category::Structure,
            default_severity: Severity::Error,
            scope: Scope::Episode,
            version: "1"@,
            finding_codes: seq![
                "STRUCTURAL.EMPTY_DATASET"@,
                "STRUCTURAL.EMPTY_EPISODE"@,
                "STRUCTURAL.EMPTY_STREAM"@,
                "STRUCTURAL.SINGLE_FRAME_STREAM"@,
            ],
        }
    }

    fn info(&self) -> (r: CheckInfo) {
        let finding_codes: &'static [&'static str] = &[
                "STRUCTURAL.EMPTY_DATASET",
                "STRUCTURAL.EMPTY_EPISODE",
                "STRUCTURAL.EMPTY_STREAM",
                "STRUCTURAL.SINGLE_FRAME_STREAM",
            ];
        assert(text::str_texts(finding_codes@) =~= self.meta().finding_codes);
        CheckInfo {
            id: DEGENERATE_ID,
            title: "Degenerate episodes and streams",
            category: Category::Structure,
            default_severity: Severity::Error,
            scope: Scope::Episode,
            version: "1",
            finding_codes,
        }
    }

    open spec fn report(&self, dataset: &Dataset) -> Seq<FindingView> {
        Self::outcome(dataset, true)
    }

    open spec fn report_in(&self, dataset: &Dataset, frames_read: bool, attested: Seq<Seq<char>>) -> Seq<FindingView> {
        Self::outcome(dataset, frames_read)
    }

    fn run(&self, dataset: &Dataset) -> (r: Vec<Finding>) {
        self.run_with(dataset, true)
    }

    fn run_in(&self, dataset: &Dataset, context: &CheckContext) -> (r: Vec<Finding>) {
        self.run_with(dataset, context.frames_read)
    }
}

// ---- episode continuity ----------------------------------------------------------------------

/// Episode-index continuity. Frame-aligned datasets number episodes contiguously; a gap in the
/// indices (e.g. `0, 1, 3`: episode 2 absent) means an episode was silently dropped between export
/// and here. Unlike the declared-count check this needs no manifest, and unlike the boundary check
/// it catches *absent* episodes rather than duplicated ones. A warning, since a few datasets
/// legitimately use non-contiguous ids.
#[derive(Debug, Clone, Copy)]
pub struct EpisodeContinuity;

/// The id of [`EpisodeContinuity`].
pub const CONTINUITY_ID: &'static str = "structural.episode-continuity";

/// The code of its findings.
pub const CONTINUITY_CODE: &'static str = "STRUCTURAL.EPISODE_INDEX_GAP";

pub const CONTINUITY_RISK: &'static str = "A gap in episode indices means an episode was dropped between export and ingest; you \
     train on less data than the numbering implies, and per-episode joins can misalign.";

pub const CONTINUITY_REMEDY: &'static str = "Recover the missing episode(s), or re-export so the surviving episodes are renumbered \
     contiguously.";

/// The indices of episodes, in order.
pub open spec fn indices(episodes: Seq<Episode>) -> Seq<u64> {
    episodes.map_values(|e: Episode| e.index)
}

/// The first `limit` numbers from `from` up to `to` that are not in a list.
pub open spec fn absent_from(list: Seq<u64>, from: int, to: int, limit: nat) -> Seq<u64>
    decreases to - from + 1,
{
    if from > to || limit == 0 {
        Seq::empty()
    } else if list.contains(from as u64) {
        absent_from(list, from + 1, to, limit)
    } else {
        seq![from as u64] + absent_from(list, from + 1, to, (limit - 1) as nat)
    }
}

impl EpisodeContinuity {
    /// What the check reports.
    pub open spec fn outcome(dataset: &Dataset) -> Seq<FindingView> {
        let present = seqs::number_set(indices(dataset.episodes@));
        if present.len() < 2 {
            Seq::empty()
        } else {
            let missing = present.last() - present[0] - (present.len() - 1);
            let shown = absent_from(present, present[0] as int, present.last() as int, 8);
            if missing == 0 {
                Seq::empty()
            } else {
                seq![
                    check::finding(
                        CONTINUITY_ID@,
                        Category::Structure,
                        Severity::Warning,
                        LocationView::Dataset,
                        CONTINUITY_CODE@,
                        "episode indices span "@ + text::dec(present[0] as nat) + "..="@ + text::dec(
                            present.last() as nat,
                        ) + " but "@ + text::dec(missing as nat) + " are missing: "@ + text::joined(
                            lists::decimals(shown),
                            ", "@,
                        ) + lists::more_suffix(missing as nat, shown.len()),
                        CONTINUITY_RISK@,
                        CONTINUITY_REMEDY@,
                    ),
                ]
            }
        }
    }

    /// Reports the gap in the numbering, if there is one. The bounds of the span come from the file,
    /// so the span is walked only as far as the first few absent indices.
    pub fn evaluate(&self, dataset: &Dataset) -> (r: Vec<Finding>)
        ensures
            check::views(r@) == Self::outcome(dataset),
    {
        let mut present: Vec<u64> = Vec::new();
        let mut i: usize = 0;
        let ghost all = indices(dataset.episodes@);
        while i < dataset.episodes.len()
            invariant
                i <= dataset.episodes@.len(),
                all == indices(dataset.episodes@),
                present@ == seqs::number_set(all.take(i as int)),
            decreases dataset.episodes@.len() - i,
        {
            proof {
                assert(all.take(i + 1) =~= all.take(i as int).push(dataset.episodes@[i as int].index));
                seqs::lemma_distinct_step(
                    all.take(i as int),
                    seqs::number_order(),
                    dataset.episodes@[i as int].index,
                );
            }
            put_number(&mut present, dataset.episodes[i].index);
            i = i + 1;
        }
        assert(all.take(i as int) =~= all);
        if present.len() < 2 {
            return none();
        }
        let lo: u64 = present[0];
        let hi: u64 = present[present.len() - 1];
        proof {
            seqs::lemma_number_set_ascending(all);
            seqs::lemma_ascending_gap(present@, 0, present@.len() - 1);
        }
        let missing: u64 = (hi - lo) - (present.len() as u64 - 1);
        if missing == 0 {
            return none();
        }
        let shown: Vec<u64> = first_absent(&present, lo, hi, 8);
        let message: String = cat8(
            "episode indices span ",
            dec_u64(lo).as_str(),
            "..=",
            dec_u64(hi).as_str(),
            " but ",
            dec_u64(missing).as_str(),
            " are missing: ",
            cat2(join_numbers(&shown, 8).as_str(), more(missing, shown.len() as u64).as_str()).as_str(),
        );
        proof {
            let m = "episode indices span "@ + text::dec(lo as nat) + "..="@ + text::dec(hi as nat) + " but "@
                + text::dec(missing as nat) + " are missing: "@;
            let s = text::joined(lists::decimals(shown@), ", "@);
            assert(message@ =~= m + s + lists::more_suffix(missing as nat, shown@.len()));
        }
        one(
            Finding::new(
                CONTINUITY_ID,
                Category::Structure,
                Severity::Warning,
                Location::Dataset,
                CONTINUITY_CODE,
                message,
            ).with_risk(CONTINUITY_RISK).with_remedy(CONTINUITY_REMEDY),
        )
    }
}

/// The first `limit` numbers from `from` up to `to` that are not in a list.
fn first_absent(list: &Vec<u64>, from: u64, to: u64, limit: usize) -> (r: Vec<u64>)
    requires
        from <= to,
    ensures
        r@ == absent_from(list@, from as int, to as int, limit as nat),
        r@.len() <= limit,
{
    let mut out: Vec<u64> = Vec::new();
    let mut n: u64 = from;
    let mut done: bool = false;
    while !done && out.len() < limit
        invariant
            from <= n <= to,
            out@.len() <= limit,
            done ==> out@ == absent_from(list@, from as int, to as int, limit as nat),
            !done ==> absent_from(list@, from as int, to as int, limit as nat) == out@ + absent_from(
                list@,
                n as int,
                to as int,
                (limit - out@.len()) as nat,
            ),
        decreases (if done { 0int } else { to - n + 1 }),
    {
        let ghost was = out@;
        if !holds_number(list, n) {
            out.push(n);
        }
        proof {
            let rest = absent_from(list@, n + 1, to as int, (limit - out@.len()) as nat);
            assert(was + absent_from(list@, n as int, to as int, (limit - was.len()) as nat) =~= out@ + rest);
            if n == to {
                assert(rest.len() == 0);
                assert(out@ + rest =~= out@);
            }
        }
        if n == to {
            done = true;
        } else {
            n = n + 1;
        }
    }
    proof {
        if !done {
            assert(out@ + absent_from(list@, n as int, to as int, 0) =~= out@);
        }
    }
    out
}

impl Check for EpisodeContinuity {
    open spec fn meta(&self) -> CheckMeta {
        CheckMeta {
            id: CONTINUITY_ID@,
            title: "Episode-index continuity"@,
            category: Category::Structure,
            default_severity: Severity::Warning,
            scope: Scope::Dataset,
            version: "1"@,
            finding_codes: seq![CONTINUITY_CODE@],
        }
    }

    fn info(&self) -> (r: CheckInfo) {
        let finding_codes: &'static [&'static str] = &[CONTINUITY_CODE];
        assert(text::str_texts(finding_codes@) =~= self.meta().finding_codes);
        CheckInfo {
            id: CONTINUITY_ID,
            title: "Episode-index continuity",
            category: Category::Structure,
            default_severity: Severity::Warning,
            scope: Scope::Dataset,
            version: "1",
            finding_codes,
        }
    }

    open spec fn report(&self, dataset: &Dataset) -> Seq<FindingView> {
        Self::outcome(dataset)
    }

    open spec fn report_in(&self, dataset: &Dataset, frames_read: bool, attested: Seq<Seq<char>>) -> Seq<FindingView> {
        self.report(dataset)
    }

    fn run(&self, dataset: &Dataset) -> (r: Vec<Finding>) {
        self.evaluate(dataset)
    }

    fn run_in(&self, dataset: &Dataset, context: &CheckContext) -> (r: Vec<Finding>) {
        self.run(dataset)
    }
}

// ---- stuck video -----------------------------------------------------------------------------

/// Frozen/stuck video stream. A camera whose feed freezes keeps emitting **byte-identical** frames
/// while its timestamps keep advancing, so every timestamp-based temporal check passes, yet the
/// observations are stale garbage. Real camera frames are never byte-identical (sensor noise alone
/// guarantees it), so a run of frames sharing one `content_hash` on a `Video` stream is a genuine
/// freeze. This is scoped to `Video` because a constant *scalar* stream (an arm at rest) is
/// legitimate.
///
/// Only frames that carry a `content_hash` are compared. A stream must repeat one frame for at least
/// [`STUCK_RUN`] consecutive frames to be flagged, so an isolated duplicated frame doesn't trip it.
#[derive(Debug, Clone, Copy)]
pub struct StuckStream;

/// Minimum run of consecutive byte-identical frames that counts as a freeze rather than a hiccup.
pub const STUCK_RUN: usize = 5;

/// The id of [`StuckStream`].
pub const STUCK_ID: &'static str = "structural.stuck-stream";

/// The code of its findings.
pub const STUCK_CODE: &'static str = "STRUCTURAL.STUCK_STREAM";

pub const STUCK_RISK: &'static str = "A frozen camera repeats the same frame while timestamps keep advancing, \
     so the policy trains on stale observations that the timestamp-based \
     temporal checks cannot detect.";

pub const STUCK_REMEDY: &'static str = "Check the capture pipeline for a stuck encoder or sensor; drop or \
     re-record the frozen segment.";

/// The fingerprint of a frame's payload.
pub open spec fn fingerprint(frame: Frame) -> Option<Seq<u8>> {
    match frame.value_ref.content_hash {
        Some(h) => Some(h@),
        None => None,
    }
}

/// Whether two fingerprints are equal.
pub fn same_hash(a: &[u8; 32], b: &[u8; 32]) -> (r: bool)
    ensures
        r == (a@ == b@),
{
    let mut i: usize = 0;
    while i < 32
        invariant
            i <= 32,
            forall|k: int| 0 <= k < i ==> a@[k] == b@[k],
        decreases 32 - i,
    {
        if a[i] != b[i] {
            return false;
        }
        i = i + 1;
    }
    assert(a@ =~= b@);
    true
}

/// How many frames in a row, up to the last of them, carry its fingerprint; a frame without one
/// repeats nothing.
pub open spec fn run_length(frames: Seq<Frame>) -> nat
    decreases frames.len(),
{
    if frames.len() == 0 || fingerprint(frames.last()) is None {
        0
    } else if frames.len() > 1 && fingerprint(frames.last()) == fingerprint(frames[frames.len() - 2]) {
        run_length(frames.drop_last()) + 1
    } else {
        1
    }
}

/// The longest run of frames that share one fingerprint.
pub open spec fn longest_run(frames: Seq<Frame>) -> nat
    decreases frames.len(),
{
    if frames.len() == 0 {
        0
    } else if run_length(frames) > longest_run(frames.drop_last()) {
        run_length(frames)
    } else {
        longest_run(frames.drop_last())
    }
}

/// The longest run of frames that share one fingerprint.
fn measure_longest_run(frames: &Vec<Frame>) -> (r: usize)
    ensures
        r as nat == longest_run(frames@),
{
    let mut best: usize = 0;
    let mut run: usize = 0;
    let mut i: usize = 0;
    while i < frames.len()
        invariant
            i <= frames@.len(),
            run <= i,
            run as nat == run_length(frames@.take(i as int)),
            best as nat == longest_run(frames@.take(i as int)),
        decreases frames@.len() - i,
    {
        let ghost now = frames@.take(i + 1);
        assert(now.drop_last() =~= frames@.take(i as int));
        assert(now.last() == frames@[i as int]);
        match &frames[i].value_ref.content_hash {
            Some(h) => {
                let mut repeats: bool = false;
                if i > 0 {
                    assert(now[now.len() - 2] == frames@[i - 1]);
                    if let Some(p) = &frames[i - 1].value_ref.content_hash {
                        repeats = same_hash(h, p);
                    }
                }
                if repeats {
                    run = run + 1;
                } else {
                    run = 1;
                }
            },
            None => {
                run = 0;
            },
        }
        if run > best {
            best = run;
        }
        i = i + 1;
    }
    assert(frames@.take(i as int) =~= frames@);
    best
}

impl StreamRule for StuckStream {
    open spec fn of_stream(&self, episode: Episode, stream: Stream) -> Seq<FindingView> {
        if stream.modality is Video && longest_run(stream.frames@) >= STUCK_RUN {
            seq![
                check::finding(
                    STUCK_ID@,
                    Category::Structure,
                    Severity::Warning,
                    LocationView::Stream { episode: episode.index, stream: stream.name@ },
                    STUCK_CODE@,
                    "video stream `"@ + stream.name@ + "` in episode "@ + text::dec(episode.index as nat)
                        + " repeats one identical frame for "@ + text::dec(longest_run(stream.frames@))
                        + " consecutive frames — a frozen or stuck feed"@,
                    STUCK_RISK@,
                    STUCK_REMEDY@,
                ),
            ]
        } else {
            Seq::empty()
        }
    }

    fn check_stream(&self, episode: &Episode, stream: &Stream) -> (r: Vec<Finding>) {
        if stream.modality != Modality::Video {
            return none();
        }
        let run: usize = measure_longest_run(&stream.frames);
        if run < STUCK_RUN {
            return none();
        }
        let message: String = cat7(
            "video stream `",
            stream.name.as_str(),
            "` in episode ",
            dec_u64(episode.index).as_str(),
            " repeats one identical frame for ",
            dec_usize(run).as_str(),
            " consecutive frames — a frozen or stuck feed",
        );
        one(
            Finding::new(
                STUCK_ID,
                Category::Structure,
                Severity::Warning,
                Location::Stream { episode: episode.index, stream: stream.name.clone() },
                STUCK_CODE,
                message,
            ).with_risk(STUCK_RISK).with_remedy(STUCK_REMEDY),
        )
    }
}

impl Check for StuckStream {
    open spec fn meta(&self) -> CheckMeta {
        CheckMeta {
            id: STUCK_ID@,
            title: "Frozen/stuck video stream"@,
            category: Category::Structure,
            default_severity: Severity::Warning,
            scope: Scope::Stream,
            version: "1"@,
            finding_codes: seq![STUCK_CODE@],
        }
    }

    fn info(&self) -> (r: CheckInfo) {
        let finding_codes: &'static [&'static str] = &[STUCK_CODE];
        assert(text::str_texts(finding_codes@) =~= self.meta().finding_codes);
        CheckInfo {
            id: STUCK_ID,
            title: "Frozen/stuck video stream",
            category: Category::Structure,
            default_severity: Severity::Warning,
            scope: Scope::Stream,
            version: "1",
            finding_codes,
        }
    }

    open spec fn report(&self, dataset: &Dataset) -> Seq<FindingView> {
        walk::by_streams(*self, dataset.episodes@)
    }

    open spec fn report_in(&self, dataset: &Dataset, frames_read: bool, attested: Seq<Seq<char>>) -> Seq<FindingView> {
        self.report(dataset)
    }

    fn run(&self, dataset: &Dataset) -> (r: Vec<Finding>) {
        walk_streams(self, dataset)
    }

    fn run_in(&self, dataset: &Dataset, context: &CheckContext) -> (r: Vec<Finding>) {
        self.run(dataset)
    }
}

// ---- stream presence -------------------------------------------------------------------------

/// Cross-episode stream presence. A stream key that appears in some episodes but is absent from
/// others yields a heterogeneous feature set: whether a sensor dropped out mid-collection or two
/// exports with different feature sets were pooled, the loader either errors on the missing feature
/// or silently fills it. Unlike [`ShapeConsistency`] (which compares the *schema* of streams that
/// are present), this catches streams that are *missing* entirely from some episodes. A warning,
/// since a few datasets legitimately record different streams per episode.
///
/// Episodes with no streams are excluded from the comparison: an empty episode is the
/// [`DegenerateEpisode`] check's concern, and counting it here would make every stream look
/// inconsistent.
#[derive(Debug, Clone, Copy)]
pub struct StreamPresence;

/// The id of [`StreamPresence`].
pub const PRESENCE_ID: &'static str = "structural.stream-presence";

/// The code of its findings.
pub const PRESENCE_CODE: &'static str = "STRUCTURAL.STREAM_PRESENCE_INCONSISTENT";

pub const PRESENCE_RISK: &'static str = "A stream present in only some episodes yields a heterogeneous feature set: \
     batched training errors on the missing feature or silently fills it, and a \
     sensor that drops out mid-collection often signals a hardware or export fault.";

pub const PRESENCE_REMEDY: &'static str = "Confirm whether the stream is meant to be present everywhere; if so, recover or \
     re-export the episodes missing it, otherwise document the intentional variation.";

/// Whether an episode has a stream of a name.
pub open spec fn carries(episode: Episode, name: Seq<char>) -> bool {
    exists|j: int| 0 <= j < episode.streams@.len() && (#[trigger] episode.streams@[j]).name@ == name
}

/// Whether an episode has a stream of a name.
fn has_stream(episode: &Episode, name: &str) -> (r: bool)
    ensures
        r == carries(*episode, name@),
{
    let mut j: usize = 0;
    while j < episode.streams.len()
        invariant
            j <= episode.streams@.len(),
            forall|k: int| 0 <= k < j ==> (#[trigger] episode.streams@[k]).name@ != name@,
        decreases episode.streams@.len() - j,
    {
        if same(episode.streams[j].name.as_str(), name) {
            return true;
        }
        j = j + 1;
    }
    false
}

/// How many episodes have any stream.
pub open spec fn non_empty_episodes(episodes: Seq<Episode>) -> nat
    decreases episodes.len(),
{
    if episodes.len() == 0 {
        0
    } else {
        non_empty_episodes(episodes.drop_last()) + (if episodes.last().streams@.len() > 0 { 1nat } else { 0nat })
    }
}

/// The indices of the episodes that have a stream of a name.
pub open spec fn carriers(episodes: Seq<Episode>, name: Seq<char>) -> Seq<u64>
    decreases episodes.len(),
{
    if episodes.len() == 0 {
        Seq::empty()
    } else if carries(episodes.last(), name) {
        carriers(episodes.drop_last(), name).push(episodes.last().index)
    } else {
        carriers(episodes.drop_last(), name)
    }
}

/// The indices of the episodes with streams whose index is not in a list.
pub open spec fn outside(episodes: Seq<Episode>, list: Seq<u64>) -> Seq<u64>
    decreases episodes.len(),
{
    if episodes.len() == 0 {
        Seq::empty()
    } else if episodes.last().streams@.len() > 0 && !list.contains(episodes.last().index) {
        outside(episodes.drop_last(), list).push(episodes.last().index)
    } else {
        outside(episodes.drop_last(), list)
    }
}

/// The names of streams, in order.
pub open spec fn pair_names(s: Seq<(Episode, Stream)>) -> Seq<Seq<char>> {
    s.map_values(|p: (Episode, Stream)| p.1.name@)
}

/// The distinct names of the streams of all episodes, in order.
pub open spec fn stream_names(episodes: Seq<Episode>) -> Seq<Seq<char>> {
    seqs::text_set(pair_names(walk::pairs(episodes)))
}

/// The distinct names of the streams of all episodes, in order.
pub fn collect_stream_names(episodes: &Vec<Episode>) -> (r: Vec<String>)
    ensures
        text::texts(r@) == stream_names(episodes@),
{
    let mut names: Vec<String> = Vec::new();
    let mut i: usize = 0;
    let ghost eps = episodes@;
    proof {
        assert(walk::pairs(eps.take(0)) =~= Seq::empty());
        assert(pair_names(walk::pairs(eps.take(0))) =~= Seq::empty());
        assert(text::texts(names@) =~= Seq::empty());
    }
    while i < episodes.len()
        invariant
            i <= episodes@.len(),
            eps == episodes@,
            text::texts(names@) == seqs::text_set(pair_names(walk::pairs(eps.take(i as int)))),
        decreases episodes@.len() - i,
    {
        let episode: &Episode = &episodes[i];
        proof {
            walk::lemma_pairs_next(eps, i as int);
        }
        let mut j: usize = 0;
        while j < episode.streams.len()
            invariant
                i < eps.len(),
                *episode == eps[i as int],
                j <= episode.streams@.len(),
                text::texts(names@) == seqs::text_set(pair_names(walk::pairs_before(eps, i as int, j as int))),
            decreases episode.streams@.len() - j,
        {
            proof {
                let was = pair_names(walk::pairs_before(eps, i as int, j as int));
                walk::lemma_pairs_step(eps, i as int, j as int);
                assert(pair_names(walk::pairs_before(eps, i as int, j + 1)) =~= was.push(
                    episode.streams@[j as int].name@,
                ));
                seqs::lemma_distinct_step(was, seqs::text_order(), episode.streams@[j as int].name@);
            }
            let _new: bool = put_text(&mut names, episode.streams[j].name.as_str());
            j = j + 1;
        }
        i = i + 1;
    }
    assert(eps.take(i as int) =~= eps);
    names
}

/// The distinct indices of the episodes that have a stream of a name.
fn carrier_set(episodes: &Vec<Episode>, name: &str) -> (r: Vec<u64>)
    ensures
        r@ == seqs::number_set(carriers(episodes@, name@)),
{
    let mut out: Vec<u64> = Vec::new();
    let mut i: usize = 0;
    while i < episodes.len()
        invariant
            i <= episodes@.len(),
            out@ == seqs::number_set(carriers(episodes@.take(i as int), name@)),
        decreases episodes@.len() - i,
    {
        assert(episodes@.take(i + 1).drop_last() =~= episodes@.take(i as int));
        if has_stream(&episodes[i], name) {
            proof {
                seqs::lemma_distinct_step(
                    carriers(episodes@.take(i as int), name@),
                    seqs::number_order(),
                    episodes@[i as int].index,
                );
            }
            put_number(&mut out, episodes[i].index);
        }
        i = i + 1;
    }
    assert(episodes@.take(i as int) =~= episodes@);
    out
}

/// The distinct indices of the episodes with streams whose index is not in a list.
fn outside_set(episodes: &Vec<Episode>, list: &Vec<u64>) -> (r: Vec<u64>)
    ensures
        r@ == seqs::number_set(outside(episodes@, list@)),
{
    let mut out: Vec<u64> = Vec::new();
    let mut i: usize = 0;
    while i < episodes.len()
        invariant
            i <= episodes@.len(),
            out@ == seqs::number_set(outside(episodes@.take(i as int), list@)),
        decreases episodes@.len() - i,
    {
        assert(episodes@.take(i + 1).drop_last() =~= episodes@.take(i as int));
        if episodes[i].streams.len() > 0 && !holds_number(list, episodes[i].index) {
            proof {
                seqs::lemma_distinct_step(
                    outside(episodes@.take(i as int), list@),
                    seqs::number_order(),
                    episodes@[i as int].index,
                );
            }
            put_number(&mut out, episodes[i].index);
        }
        i = i + 1;
    }
    assert(episodes@.take(i as int) =~= episodes@);
    out
}

/// How many episodes have any stream.
fn count_non_empty(episodes: &Vec<Episode>) -> (r: usize)
    ensures
        r as nat == non_empty_episodes(episodes@),
{
    let mut n: usize = 0;
    let mut i: usize = 0;
    while i < episodes.len()
        invariant
            i <= episodes@.len(),
            n <= i,
            n as nat == non_empty_episodes(episodes@.take(i as int)),
        decreases episodes@.len() - i,
    {
        assert(episodes@.take(i + 1).drop_last() =~= episodes@.take(i as int));
        if episodes[i].streams.len() > 0 {
            n = n + 1;
        }
        i = i + 1;
    }
    assert(episodes@.take(i as int) =~= episodes@);
    n
}

impl StreamPresence {
    /// What is reported of one stream name. Repeated episode indices (a corruption that
    /// [`EpisodeBoundary`] reports) can leave fewer distinct indices than episodes while the stream
    /// is present in every one of them: nothing is missing then, and nothing is reported.
    pub open spec fn of_name(episodes: Seq<Episode>, name: Seq<char>) -> Seq<FindingView> {
        let total = non_empty_episodes(episodes);
        let present = seqs::number_set(carriers(episodes, name));
        let missing = seqs::number_set(outside(episodes, present));
        if present.len() >= total || missing.len() == 0 {
            Seq::empty()
        } else {
            seq![
                check::finding(
                    PRESENCE_ID@,
                    Category::Structure,
                    Severity::Warning,
                    LocationView::Dataset,
                    PRESENCE_CODE@,
                    "stream `"@ + name + "` is present in "@ + text::dec(present.len()) + " of "@ + text::dec(total)
                        + " episodes; missing from "@ + text::joined(
                        lists::decimals(lists::first_few(missing, 8)),
                        ", "@,
                    ) + lists::more_suffix(missing.len(), 8),
                    PRESENCE_RISK@,
                    PRESENCE_REMEDY@,
                ),
            ]
        }
    }

    /// What is reported of some names, in order.
    pub open spec fn of_names(episodes: Seq<Episode>, names: Seq<Seq<char>>) -> Seq<FindingView>
        decreases names.len(),
    {
        if names.len() == 0 {
            Seq::empty()
        } else {
            Self::of_names(episodes, names.drop_last()) + Self::of_name(episodes, names.last())
        }
    }

    /// What the check reports: the comparison needs at least two episodes with streams.
    pub open spec fn outcome(dataset: &Dataset) -> Seq<FindingView> {
        if non_empty_episodes(dataset.episodes@) < 2 {
            Seq::empty()
        } else {
            Self::of_names(dataset.episodes@, stream_names(dataset.episodes@))
        }
    }

    /// Reports what is known of one stream name.
    fn check_name(&self, episodes: &Vec<Episode>, total: usize, name: &str) -> (r: Vec<Finding>)
        requires
            total as nat == non_empty_episodes(episodes@),
        ensures
            check::views(r@) == Self::of_name(episodes@, name@),
    {
        let present: Vec<u64> = carrier_set(episodes, name);
        if present.len() >= total {
            return none();
        }
        let missing: Vec<u64> = outside_set(episodes, &present);
        if missing.len() == 0 {
            return none();
        }
        let list: String = cat2(
            join_numbers(&missing, 8).as_str(),
            more(missing.len() as u64, 8).as_str(),
        );
        let message: String = cat8(
            "stream `",
            name,
            "` is present in ",
            dec_usize(present.len()).as_str(),
            " of ",
            dec_usize(total).as_str(),
            " episodes; missing from ",
            list.as_str(),
        );
        proof {
            let m = "stream `"@ + name@ + "` is present in "@ + text::dec(present@.len()) + " of "@ + text::dec(
                total as nat,
            ) + " episodes; missing from "@;
            let s = text::joined(lists::decimals(lists::first_few(missing@, 8)), ", "@);
            assert(message@ =~= m + s + lists::more_suffix(missing@.len(), 8));
        }
        one(
            Finding::new(
                PRESENCE_ID,
                Category::Structure,
                Severity::Warning,
                Location::Dataset,
                PRESENCE_CODE,
                message,
            ).with_risk(PRESENCE_RISK).with_remedy(PRESENCE_REMEDY),
        )
    }

    /// Reports each stream that is missing from some episodes.
    pub fn evaluate(&self, dataset: &Dataset) -> (r: Vec<Finding>)
        ensures
            check::views(r@) == Self::outcome(dataset),
    {
        broadcast use check::group_views;

        let total: usize = count_non_empty(&dataset.episodes);
        if total < 2 {
            return none();
        }
        let names: Vec<String> = collect_stream_names(&dataset.episodes);
        let ghost t = text::texts(names@);
        let mut out: Vec<Finding> = Vec::new();
        let mut i: usize = 0;
        while i < names.len()
            invariant
                i <= names@.len(),
                t == text::texts(names@),
                total as nat == non_empty_episodes(dataset.episodes@),
                check::views(out@) == Self::of_names(dataset.episodes@, t.take(i as int)),
            decreases names@.len() - i,
        {
            assert(t.take(i + 1).drop_last() =~= t.take(i as int));
            assert(t[i as int] == names@[i as int]@);
            let mut found: Vec<Finding> = self.check_name(&dataset.episodes, total, names[i].as_str());
            out.append(&mut found);
            i = i + 1;
        }
        assert(t.take(i as int) =~= t);
        out
    }
}

impl Check for StreamPresence {
    open spec fn meta(&self) -> CheckMeta {
        CheckMeta {
            id: PRESENCE_ID@,
            title: "Cross-episode stream presence"@,
            category: Category::Structure,
            default_severity: Severity::Warning,
            scope: Scope::Dataset,
            version: "1"@,
            finding_codes: seq![PRESENCE_CODE@],
        }
    }

    fn info(&self) -> (r: CheckInfo) {
        let finding_codes: &'static [&'static str] = &[PRESENCE_CODE];
        assert(text::str_texts(finding_codes@) =~= self.meta().finding_codes);
        CheckInfo {
            id: PRESENCE_ID,
            title: "Cross-episode stream presence",
            category: Category::Structure,
            default_severity: Severity::Warning,
            scope: Scope::Dataset,
            version: "1",
            finding_codes,
        }
    }

    open spec fn report(&self, dataset: &Dataset) -> Seq<FindingView> {
        Self::outcome(dataset)
    }

    open spec fn report_in(&self, dataset: &Dataset, frames_read: bool, attested: Seq<Seq<char>>) -> Seq<FindingView> {
        self.report(dataset)
    }

    fn run(&self, dataset: &Dataset) -> (r: Vec<Finding>) {
        self.evaluate(dataset)
    }

    fn run_in(&self, dataset: &Dataset, context: &CheckContext) -> (r: Vec<Finding>) {
        self.run(dataset)
    }
}

// ---- what could not be compared --------------------------------------------------------------

/// Streams whose frames carry no content fingerprint, and runs over too few episodes: what the
/// checks that compare content and episodes could not look at.
///
/// Informational: the dataset is not worse for storing its pixels beside its table, or for being one
/// recording. What changes is that "no duplicate episodes found" and "no stuck camera found" were
/// not findings about the data.
#[derive(Debug, Clone, Copy)]
pub struct ContentMeasurability;

/// The id of [`ContentMeasurability`].
pub const CONTENT_ID: &'static str = "structural.content-measurability";

/// The code for content that carries no fingerprint.
pub const UNFINGERPRINTED_CODE: &'static str = "STRUCTURAL.UNFINGERPRINTED_CONTENT";

/// The code for a run over too few episodes.
pub const UNCOMPARED_CODE: &'static str = "STRUCTURAL.UNCOMPARED_EPISODES";

pub const UNCOMPARED_RISK: &'static str = "Those checks are how a run answers whether an episode was re-uploaded, whether a stream changes shape or disappears between episodes, and whether one recording stands out from the rest. Their silence here is the absence of a comparison, not evidence that the dataset is consistent — and it is the same silence a flawless dataset produces. An MCAP file and a bare rosbag2 recording are one episode by construction, and a sampled run covers only the episodes it drew, so this is the ordinary case for both rather than a corner of it.";

pub const UNCOMPARED_REMEDY: &'static str = "If cross-episode consistency matters, check the recordings together as one dataset rather than one file at a time, and over the whole of it rather than a sample.";

pub const UNFINGERPRINTED_RISK: &'static str = "The content-based checks prove things by comparing frame bytes. Where there are no \
     bytes to compare, they produce nothing — so a re-uploaded episode or a frozen camera \
     in these streams is not absent from this report, it was never looked for.";

pub const UNFINGERPRINTED_REMEDY: &'static str = "Treat duplicate-episode, near-duplicate-episode and stuck-stream as unverified for \
     these streams. For a LeRobot dataset this is the video features, whose pixels live \
     outside the Parquet.";

pub const SOME_COMPLETE: &'static str = "the duplicate-episode check still applies to the episodes that were fully fingerprinted";

pub const NONE_COMPLETE: &'static str = "no episode was fully fingerprinted, so the duplicate-episode check could not run on \
     this dataset at all";

/// Fewer episodes than this and "a minority of them" means nothing.
pub const FROZEN_MIN_EPISODES: usize = 3;

/// Fewer episodes than this give no stable typical duration.
pub const DURATION_MIN_EPISODES: usize = 4;

/// The checks that answer by comparing episodes and need more of them than there are: each needs a
/// pair, but for the two that need a majority or a median.
pub open spec fn uncompared(episodes: nat) -> Seq<Seq<char>> {
    let pairwise = if episodes < 2 {
        seq![
            "structural.duplicate-episode"@,
            "structural.near-duplicate-episode"@,
            "structural.stream-presence"@,
            "structural.shape-consistency"@,
            "structural.episode-continuity"@,
        ]
    } else {
        Seq::empty()
    };
    let frozen = if episodes < FROZEN_MIN_EPISODES { seq!["structural.frozen-episode"@] } else { Seq::empty() };
    let duration = if episodes < DURATION_MIN_EPISODES { seq!["temporal.episode-duration"@] } else { Seq::empty() };
    pairwise + frozen + duration
}

/// The checks that need more episodes than there are.
fn cross_episode_checks(episodes: usize) -> (r: Vec<String>)
    ensures
        text::texts(r@) == uncompared(episodes as nat),
{
    broadcast use text::lemma_texts_push;

    let mut out: Vec<String> = Vec::new();
    assert(text::texts(out@) =~= Seq::empty());
    if episodes < 2 {
        out.push(String::from_str("structural.duplicate-episode"));
        out.push(String::from_str("structural.near-duplicate-episode"));
        out.push(String::from_str("structural.stream-presence"));
        out.push(String::from_str("structural.shape-consistency"));
        out.push(String::from_str("structural.episode-continuity"));
    }
    if episodes < FROZEN_MIN_EPISODES {
        out.push(String::from_str("structural.frozen-episode"));
    }
    if episodes < DURATION_MIN_EPISODES {
        out.push(String::from_str("temporal.episode-duration"));
    }
    assert(text::texts(out@) =~= uncompared(episodes as nat));
    out
}

/// The disclosure that a run covers too few episodes for the checks that compare episodes. Worded as
/// the run, not the dataset: a sample of one episode out of five hundred leaves exactly one.
pub open spec fn uncompared_outcome(dataset: &Dataset) -> Seq<FindingView> {
    let n = dataset.episodes@.len();
    let unmet = uncompared(n);
    if unmet.len() == 0 {
        Seq::empty()
    } else {
        seq![
            check::finding(
                CONTENT_ID@,
                Category::Structure,
                Severity::Info,
                LocationView::Dataset,
                UNCOMPARED_CODE@,
                "this run covers "@ + text::dec(n) + " episode(s), too few for "@ + text::dec(unmet.len())
                    + " check(s) that answer by comparing episodes against each other, which therefore had nothing to compare ("@
                    + text::joined(unmet, ", "@) + ")"@,
                UNCOMPARED_RISK@,
                UNCOMPARED_REMEDY@,
            ),
        ]
    }
}

/// Discloses that a run covers too few episodes for the checks that compare episodes.
pub fn uncompared_episodes_finding(dataset: &Dataset) -> (r: Vec<Finding>)
    ensures
        check::views(r@) == uncompared_outcome(dataset),
{
    let unmet: Vec<String> = cross_episode_checks(dataset.episodes.len());
    if unmet.len() == 0 {
        assert(text::texts(unmet@).len() == 0);
        return none();
    }
    let message: String = cat7(
        "this run covers ",
        dec_usize(dataset.episodes.len()).as_str(),
        " episode(s), too few for ",
        dec_usize(unmet.len()).as_str(),
        " check(s) that answer by comparing episodes against each other, which therefore had nothing to compare (",
        text::join(&unmet, ", ").as_str(),
        ")",
    );
    one(
        Finding::new(
            CONTENT_ID,
            Category::Structure,
            Severity::Info,
            Location::Dataset,
            UNCOMPARED_CODE,
            message,
        ).with_risk(UNCOMPARED_RISK).with_remedy(UNCOMPARED_REMEDY),
    )
}

/// Whether some frame carries no fingerprint.
pub open spec fn lacks_fingerprint(frames: Seq<Frame>) -> bool {
    exists|k: int| 0 <= k < frames.len() && fingerprint(#[trigger] frames[k]) is None
}

/// Whether some frame carries no fingerprint.
fn lacks_hash(frames: &Vec<Frame>) -> (r: bool)
    ensures
        r == lacks_fingerprint(frames@),
{
    let mut k: usize = 0;
    while k < frames.len()
        invariant
            k <= frames@.len(),
            forall|j: int| 0 <= j < k ==> fingerprint(#[trigger] frames@[j]) is Some,
        decreases frames@.len() - k,
    {
        if frames[k].value_ref.content_hash.is_none() {
            assert(fingerprint(frames@[k as int]) is None);
            return true;
        }
        k = k + 1;
    }
    false
}

/// Whether every frame of an episode that has streams carries a fingerprint.
pub open spec fn fully_fingerprinted(episode: Episode) -> bool {
    &&& episode.streams@.len() > 0
    &&& forall|j: int|
        0 <= j < episode.streams@.len() ==> !lacks_fingerprint((#[trigger] episode.streams@[j]).frames@)
}

/// Whether every frame of an episode that has streams carries a fingerprint.
fn is_fully_fingerprinted(episode: &Episode) -> (r: bool)
    ensures
        r == fully_fingerprinted(*episode),
{
    let mut j: usize = 0;
    while j < episode.streams.len()
        invariant
            j <= episode.streams@.len(),
            forall|k: int| 0 <= k < j ==> !lacks_fingerprint((#[trigger] episode.streams@[k]).frames@),
        decreases episode.streams@.len() - j,
    {
        if lacks_hash(&episode.streams[j].frames) {
            return false;
        }
        j = j + 1;
    }
    episode.streams.len() > 0
}

/// The names of the streams, among some, with a frame that carries no fingerprint.
pub open spec fn unhashed_names(s: Seq<(Episode, Stream)>) -> Seq<Seq<char>>
    decreases s.len(),
{
    if s.len() == 0 {
        Seq::empty()
    } else if lacks_fingerprint(s.last().1.frames@) {
        unhashed_names(s.drop_last()).push(s.last().1.name@)
    } else {
        unhashed_names(s.drop_last())
    }
}

/// The distinct names of the streams with a frame that carries no fingerprint, in order.
fn collect_unhashed(episodes: &Vec<Episode>) -> (r: Vec<String>)
    ensures
        text::texts(r@) == seqs::text_set(unhashed_names(walk::pairs(episodes@))),
{
    let mut names: Vec<String> = Vec::new();
    let mut i: usize = 0;
    let ghost eps = episodes@;
    proof {
        assert(walk::pairs(eps.take(0)) =~= Seq::empty());
        assert(text::texts(names@) =~= Seq::empty());
    }
    while i < episodes.len()
        invariant
            i <= episodes@.len(),
            eps == episodes@,
            text::texts(names@) == seqs::text_set(unhashed_names(walk::pairs(eps.take(i as int)))),
        decreases episodes@.len() - i,
    {
        let episode: &Episode = &episodes[i];
        proof {
            walk::lemma_pairs_next(eps, i as int);
        }
        let mut j: usize = 0;
        while j < episode.streams.len()
            invariant
                i < eps.len(),
                *episode == eps[i as int],
                j <= episode.streams@.len(),
                text::texts(names@) == seqs::text_set(unhashed_names(walk::pairs_before(eps, i as int, j as int))),
            decreases episode.streams@.len() - j,
        {
            let stream: &Stream = &episode.streams[j];
            proof {
                let was = walk::pairs_before(eps, i as int, j as int);
                walk::lemma_pairs_step(eps, i as int, j as int);
                assert(was.push((*episode, *stream)).drop_last() =~= was);
                seqs::lemma_distinct_step(unhashed_names(was), seqs::text_order(), stream.name@);
            }
            if lacks_hash(&stream.frames) {
                let _new: bool = put_text(&mut names, stream.name.as_str());
            }
            j = j + 1;
        }
        i = i + 1;
    }
    assert(eps.take(i as int) =~= eps);
    names
}

/// Whether some episode is fully fingerprinted: the duplicate check needs a whole one.
pub open spec fn any_fully_fingerprinted(episodes: Seq<Episode>) -> bool {
    exists|i: int| 0 <= i < episodes.len() && fully_fingerprinted(#[trigger] episodes[i])
}

impl ContentMeasurability {
    /// What is reported of streams whose frames carry no content fingerprint: once for the dataset,
    /// since whether a payload is hashable is a property of the source layout.
    pub open spec fn unfingerprinted(dataset: &Dataset) -> Seq<FindingView> {
        let names = seqs::text_set(unhashed_names(walk::pairs(dataset.episodes@)));
        let note = if any_fully_fingerprinted(dataset.episodes@) { SOME_COMPLETE@ } else { NONE_COMPLETE@ };
        if names.len() == 0 {
            Seq::empty()
        } else {
            seq![
                check::finding(
                    CONTENT_ID@,
                    Category::Structure,
                    Severity::Info,
                    LocationView::Dataset,
                    UNFINGERPRINTED_CODE@,
                    text::dec(names.len())
                        + " stream(s) carry frames with no content fingerprint, so the stuck-stream and near-duplicate checks could not inspect them ("@
                        + lists::a_few(names) + "); "@ + note,
                    UNFINGERPRINTED_RISK@,
                    UNFINGERPRINTED_REMEDY@,
                ),
            ]
        }
    }

    /// Reports the streams whose frames carry no content fingerprint.
    fn check_fingerprints(&self, dataset: &Dataset) -> (r: Vec<Finding>)
        ensures
            check::views(r@) == Self::unfingerprinted(dataset),
    {
        let names: Vec<String> = collect_unhashed(&dataset.episodes);
        if names.len() == 0 {
            assert(text::texts(names@).len() == 0);
            return none();
        }
        let mut complete: bool = false;
        let mut i: usize = 0;
        while i < dataset.episodes.len()
            invariant
                i <= dataset.episodes@.len(),
                complete == (exists|k: int| 0 <= k < i && fully_fingerprinted(#[trigger] dataset.episodes@[k])),
            decreases dataset.episodes@.len() - i,
        {
            if is_fully_fingerprinted(&dataset.episodes[i]) {
                complete = true;
            }
            i = i + 1;
        }
        let note: &'static str = if complete { SOME_COMPLETE } else { NONE_COMPLETE };
        let message: String = cat5(
            dec_usize(names.len()).as_str(),
            " stream(s) carry frames with no content fingerprint, so the stuck-stream and near-duplicate checks could not inspect them (",
            list_a_few(&names).as_str(),
            "); ",
            note,
        );
        one(
            Finding::new(
                CONTENT_ID,
                Category::Structure,
                Severity::Info,
                Location::Dataset,
                UNFINGERPRINTED_CODE,
                message,
            ).with_risk(UNFINGERPRINTED_RISK).with_remedy(UNFINGERPRINTED_REMEDY),
        )
    }

    /// Reports what could not be compared.
    pub fn evaluate(&self, dataset: &Dataset) -> (r: Vec<Finding>)
        ensures
            check::views(r@) == uncompared_outcome(dataset) + Self::unfingerprinted(dataset),
    {
        broadcast use check::group_views;

        let mut findings: Vec<Finding> = uncompared_episodes_finding(dataset);
        let mut found: Vec<Finding> = self.check_fingerprints(dataset);
        findings.append(&mut found);
        findings
    }
}

impl Check for ContentMeasurability {
    open spec fn meta(&self) -> CheckMeta {
        CheckMeta {
            id: CONTENT_ID@,
            title: "Content and episodes were comparable"@,
            category: Category::Structure,
            default_severity: Severity::Info,
            scope: Scope::Dataset,
            version: "1"@,
            finding_codes: seq![UNFINGERPRINTED_CODE@, UNCOMPARED_CODE@],
        }
    }

    fn info(&self) -> (r: CheckInfo) {
        let finding_codes: &'static [&'static str] = &[UNFINGERPRINTED_CODE, UNCOMPARED_CODE];
        assert(text::str_texts(finding_codes@) =~= self.meta().finding_codes);
        CheckInfo {
            id: CONTENT_ID,
            title: "Content and episodes were comparable",
            category: Category::Structure,
            default_severity: Severity::Info,
            scope: Scope::Dataset,
            version: "1",
            finding_codes,
        }
    }

    open spec fn report(&self, dataset: &Dataset) -> Seq<FindingView> {
        uncompared_outcome(dataset) + Self::unfingerprinted(dataset)
    }

    open spec fn report_in(&self, dataset: &Dataset, frames_read: bool, attested: Seq<Seq<char>>) -> Seq<FindingView> {
        self.report(dataset)
    }

    fn run(&self, dataset: &Dataset) -> (r: Vec<Finding>) {
        self.evaluate(dataset)
    }

    fn run_in(&self, dataset: &Dataset, context: &CheckContext) -> (r: Vec<Finding>) {
        self.run(dataset)
    }
}

// ---- step alignment --------------------------------------------------------------------------

/// Streams in one episode indexed by the same **step counter** that disagree about how many steps
/// the episode has.
///
/// A step index is a row index: `action[i]` and `observation.state[i]` are the *same* moment by
/// construction, and the only thing that can make them not be is the two arrays holding different
/// numbers of rows.
///
/// **A difference of one is tolerated**, and only one. Several collectors store the terminal
/// observation a trajectory ends in, giving `observation` one row more than `action`: a real and
/// deliberate convention. Two rows is no convention.
#[derive(Debug, Clone, Copy)]
pub struct StepAlignment;

/// The id of [`StepAlignment`].
pub const STEP_ID: &'static str = "structural.step-alignment";

/// The code of its findings.
pub const STEP_CODE: &'static str = "STRUCTURAL.STEP_COUNT_MISMATCH";

pub const STEP_RISK: &'static str = "A step index is a row index, so these streams are paired by position. \
     With different lengths the pairing is wrong from the first missing row on: \
     every action is trained against an observation from a different moment, \
     which is the failure that produces a policy that looks trained and acts \
     out of phase.";

pub const STEP_REMEDY: &'static str = "Find which array is short — a truncated write, a filtered subset saved \
     beside an unfiltered one — and re-export the episode so every step-indexed \
     stream covers the same steps.";

/// Whether a stream is indexed by a step counter and has frames.
pub open spec fn is_stepped(stream: Stream) -> bool {
    stream.clock_kind is StepIndex && stream.frames@.len() > 0
}

/// The clocks of the step-indexed streams among some.
pub open spec fn step_clocks(streams: Seq<Stream>) -> Seq<Seq<char>>
    decreases streams.len(),
{
    if streams.len() == 0 {
        Seq::empty()
    } else if is_stepped(streams.last()) {
        step_clocks(streams.drop_last()).push(streams.last().clock_id@)
    } else {
        step_clocks(streams.drop_last())
    }
}

/// Whether stream `a` is shorter than stream `b`, or as long and named before it.
pub open spec fn is_shorter(a: Stream, b: Stream) -> bool {
    a.frames@.len() < b.frames@.len() || (a.frames@.len() == b.frames@.len() && text::str_lt(a.name@, b.name@))
}

/// The place of the shortest step-indexed stream on a clock, or none.
pub open spec fn shortest_on(streams: Seq<Stream>, clock: Seq<char>, n: int) -> int
    decreases n,
{
    if n <= 0 {
        -1
    } else {
        let best = shortest_on(streams, clock, n - 1);
        let s = streams[n - 1];
        if is_stepped(s) && s.clock_id@ == clock && (best < 0 || is_shorter(s, streams[best])) { n - 1 } else { best }
    }
}

/// The place of the longest step-indexed stream on a clock, or none.
pub open spec fn longest_on(streams: Seq<Stream>, clock: Seq<char>, n: int) -> int
    decreases n,
{
    if n <= 0 {
        -1
    } else {
        let best = longest_on(streams, clock, n - 1);
        let s = streams[n - 1];
        if is_stepped(s) && s.clock_id@ == clock && (best < 0 || !is_shorter(s, streams[best])) { n - 1 } else { best }
    }
}

/// What is reported of one clock of an episode: two step counters are two independent indexings, and
/// comparing a stream on one against a stream on the other compares nothing.
pub open spec fn of_step_clock(episode: Episode, clock: Seq<char>) -> Seq<FindingView> {
    let streams = episode.streams@;
    let a = shortest_on(streams, clock, streams.len() as int);
    let b = longest_on(streams, clock, streams.len() as int);
    if a < 0 || b < 0 || streams[b].frames@.len() < streams[a].frames@.len() + 2 {
        Seq::empty()
    } else {
        seq![
            check::finding(
                STEP_ID@,
                Category::Structure,
                Severity::Error,
                LocationView::Episode { episode: episode.index },
                STEP_CODE@,
                "episode "@ + text::dec(episode.index as nat) + ": on step index `"@ + clock + "`, stream `"@
                    + streams[b].name@ + "` holds "@ + text::dec(streams[b].frames@.len()) + " step(s) but `"@
                    + streams[a].name@ + "` holds "@ + text::dec(streams[a].frames@.len())
                    + " — they cannot both be this episode's length"@,
                STEP_RISK@,
                STEP_REMEDY@,
            ),
        ]
    }
}

/// What is reported of some clocks of an episode, in order.
pub open spec fn of_step_clocks(episode: Episode, clocks: Seq<Seq<char>>) -> Seq<FindingView>
    decreases clocks.len(),
{
    if clocks.len() == 0 {
        Seq::empty()
    } else {
        of_step_clocks(episode, clocks.drop_last()) + of_step_clock(episode, clocks.last())
    }
}

/// Whether a stream is indexed by a step counter and has frames.
fn stepped(stream: &Stream) -> (r: bool)
    ensures
        r == is_stepped(*stream),
{
    !stream.has_measured_time() && stream.frames.len() > 0
}

/// Whether stream `a` is shorter than stream `b`, or as long and named before it.
fn shorter(a: &Stream, b: &Stream) -> (r: bool)
    ensures
        r == is_shorter(*a, *b),
{
    a.frames.len() < b.frames.len() || (a.frames.len() == b.frames.len() && text::before(
        a.name.as_str(),
        b.name.as_str(),
    ))
}

/// Reports what is known of one clock of an episode.
fn check_step_clock(episode: &Episode, clock: &str) -> (r: Vec<Finding>)
    ensures
        check::views(r@) == of_step_clock(*episode, clock@),
{
    let streams: &Vec<Stream> = &episode.streams;
    let mut low: Option<usize> = None;
    let mut high: Option<usize> = None;
    let mut i: usize = 0;
    while i < streams.len()
        invariant
            i <= streams@.len(),
            match low {
                Some(k) => k < i && k as int == shortest_on(streams@, clock@, i as int),
                None => shortest_on(streams@, clock@, i as int) == -1,
            },
            match high {
                Some(k) => k < i && k as int == longest_on(streams@, clock@, i as int),
                None => longest_on(streams@, clock@, i as int) == -1,
            },
        decreases streams@.len() - i,
    {
        let s: &Stream = &streams[i];
        if stepped(s) && same(s.clock_id.as_str(), clock) {
            let lower: bool = match low {
                Some(k) => shorter(s, &streams[k]),
                None => true,
            };
            if lower {
                low = Some(i);
            }
            let higher: bool = match high {
                Some(k) => !shorter(s, &streams[k]),
                None => true,
            };
            if higher {
                high = Some(i);
            }
        }
        i = i + 1;
    }
    match (low, high) {
        (Some(a), Some(b)) => {
            let (n, m): (usize, usize) = (streams[a].frames.len(), streams[b].frames.len());
            if m < n || m - n < 2 {
                return none();
            }
            let head: String = cat9(
                "episode ",
                dec_u64(episode.index).as_str(),
                ": on step index `",
                clock,
                "`, stream `",
                streams[b].name.as_str(),
                "` holds ",
                dec_usize(m).as_str(),
                " step(s) but `",
            );
            let message: String = cat5(
                head.as_str(),
                streams[a].name.as_str(),
                "` holds ",
                dec_usize(n).as_str(),
                " — they cannot both be this episode's length",
            );
            one(
                Finding::new(
                    STEP_ID,
                    Category::Structure,
                    Severity::Error,
                    Location::Episode { episode: episode.index },
                    STEP_CODE,
                    message,
                ).with_risk(STEP_RISK).with_remedy(STEP_REMEDY),
            )
        },
        _ => none(),
    }
}

impl EpisodeRule for StepAlignment {
    open spec fn of_episode(&self, episode: Episode) -> Seq<FindingView> {
        of_step_clocks(episode, seqs::text_set(step_clocks(episode.streams@)))
    }

    fn check_episode(&self, episode: &Episode) -> (r: Vec<Finding>) {
        broadcast use check::group_views;

        let mut clocks: Vec<String> = Vec::new();
        let mut i: usize = 0;
        assert(text::texts(clocks@) =~= Seq::empty());
        while i < episode.streams.len()
            invariant
                i <= episode.streams@.len(),
                text::texts(clocks@) == seqs::text_set(step_clocks(episode.streams@.take(i as int))),
            decreases episode.streams@.len() - i,
        {
            let s: &Stream = &episode.streams[i];
            proof {
                let was = episode.streams@.take(i as int);
                assert(episode.streams@.take(i + 1).drop_last() =~= was);
                seqs::lemma_distinct_step(step_clocks(was), seqs::text_order(), s.clock_id@);
            }
            if stepped(s) {
                let _new: bool = put_text(&mut clocks, s.clock_id.as_str());
            }
            i = i + 1;
        }
        assert(episode.streams@.take(i as int) =~= episode.streams@);
        let ghost t = text::texts(clocks@);
        let mut out: Vec<Finding> = Vec::new();
        let mut k: usize = 0;
        while k < clocks.len()
            invariant
                k <= clocks@.len(),
                t == text::texts(clocks@),
                check::views(out@) == of_step_clocks(*episode, t.take(k as int)),
            decreases clocks@.len() - k,
        {
            assert(t.take(k + 1).drop_last() =~= t.take(k as int));
            assert(t[k as int] == clocks@[k as int]@);
            let mut found: Vec<Finding> = check_step_clock(episode, clocks[k].as_str());
            out.append(&mut found);
            k = k + 1;
        }
        assert(t.take(k as int) =~= t);
        out
    }
}

impl Check for StepAlignment {
    open spec fn meta(&self) -> CheckMeta {
        CheckMeta {
            id: STEP_ID@,
            title: "Step-indexed streams agree on the episode's length"@,
            category: Category::Structure,
            default_severity: Severity::Error,
            scope: Scope::Episode,
            version: "1"@,
            finding_codes: seq![STEP_CODE@],
        }
    }

    fn info(&self) -> (r: CheckInfo) {
        let finding_codes: &'static [&'static str] = &[STEP_CODE];
        assert(text::str_texts(finding_codes@) =~= self.meta().finding_codes);
        CheckInfo {
            id: STEP_ID,
            title: "Step-indexed streams agree on the episode's length",
            category: Category::Structure,
            default_severity: Severity::Error,
            scope: Scope::Episode,
            version: "1",
            finding_codes,
        }
    }

    open spec fn report(&self, dataset: &Dataset) -> Seq<FindingView> {
        walk::by_episode(*self, dataset.episodes@)
    }

    open spec fn report_in(&self, dataset: &Dataset, frames_read: bool, attested: Seq<Seq<char>>) -> Seq<FindingView> {
        self.report(dataset)
    }

    fn run(&self, dataset: &Dataset) -> (r: Vec<Finding>) {
        walk_episodes(self, dataset)
    }

    fn run_in(&self, dataset: &Dataset, context: &CheckContext) -> (r: Vec<Finding>) {
        self.run(dataset)
    }
}

// ---- frozen episodes -------------------------------------------------------------------------

/// An episode in which an actuator or proprioception stream never changed, in a dataset where that
/// same stream changes in most others: a recording where the robot did not move.
///
/// The evidence is frame content, not values: every frame of the stream in that episode carries the
/// same `content_hash`. Three guards keep it off honest data.
///
/// * **Only a vector.** A stream carrying more than one scalar per frame is an actuator or a sensor,
///   and one that never moves is broken. A single-scalar column is as likely to be a `reward` or a
///   `done` flag, which is legitimately constant.
/// * **Only a minority.** A stream frozen in most episodes is how the dataset is built, not an
///   anomaly in it.
/// * **Only on evidence.** At least 8 frames, at least three episodes to compare, and every frame of
///   the stream fingerprinted.
#[derive(Debug, Clone, Copy)]
pub struct FrozenEpisode;

/// The id of [`FrozenEpisode`].
pub const FROZEN_ID: &'static str = "structural.frozen-episode";

/// The code of its findings.
pub const FROZEN_CODE: &'static str = "STRUCTURAL.FROZEN_EPISODE";

/// Below this many frames "every frame is identical" is too easily true by chance.
pub const FROZEN_MIN_FRAMES: usize = 8;

pub const FROZEN_RISK: &'static str = "A recording where the actuator never moved teaches a policy that holding \
     still is sometimes correct, unconditioned on anything in the observation. \
     It is usually a teleoperation session that dropped, a controller that lost \
     its connection, or a file written before the robot was enabled.";

pub const FROZEN_REMEDY: &'static str = "Look at this episode: if the robot genuinely did not move, drop it from \
     the training set rather than leaving it to be sampled like any other.";

/// Whether a frame of a shape holds more than one scalar: no dimension is empty and one is longer
/// than one, so that the product exceeds one.
pub open spec fn is_vector_shape(shape: Seq<u64>) -> bool {
    &&& forall|i: int| 0 <= i < shape.len() ==> #[trigger] shape[i] > 0
    &&& exists|i: int| 0 <= i < shape.len() && #[trigger] shape[i] > 1
}

/// Whether a stream carries more than one scalar per frame. Read from the shape the source declares,
/// or from the dimension names it gives.
pub open spec fn carries_vector(stream: Stream) -> bool {
    ||| stream.shape is Some && is_vector_shape(stream.shape->0@)
    ||| stream.dim_names is Some && stream.dim_names->0@.len() > 1
}

/// Whether a frame of a shape holds more than one scalar.
fn vector_shape(shape: &Vec<u64>) -> (r: bool)
    ensures
        r == is_vector_shape(shape@),
{
    let mut wide: bool = false;
    let mut i: usize = 0;
    while i < shape.len()
        invariant
            i <= shape@.len(),
            forall|k: int| 0 <= k < i ==> #[trigger] shape@[k] > 0,
            wide == (exists|k: int| 0 <= k < i && #[trigger] shape@[k] > 1),
        decreases shape@.len() - i,
    {
        if shape[i] == 0 {
            return false;
        }
        if shape[i] > 1 {
            wide = true;
        }
        i = i + 1;
    }
    wide
}

/// Whether a stream carries more than one scalar per frame.
fn carries_a_vector(stream: &Stream) -> (r: bool)
    ensures
        r == carries_vector(*stream),
{
    let from_shape: bool = match &stream.shape {
        Some(shape) => vector_shape(shape),
        None => false,
    };
    let from_names: bool = match &stream.dim_names {
        Some(names) => names.len() > 1,
        None => false,
    };
    from_shape || from_names
}

/// Whether a stream proves anything about having moved: a vector of an actuator or of a state, with
/// enough frames, all fingerprinted.
pub open spec fn is_examined(stream: Stream) -> bool {
    &&& carries_vector(stream)
    &&& stream.modality is Action || stream.modality is ScalarState
    &&& stream.frames@.len() >= FROZEN_MIN_FRAMES
    &&& !lacks_fingerprint(stream.frames@)
}

/// Whether every frame carries the fingerprint of the first.
pub open spec fn is_frozen(frames: Seq<Frame>) -> bool {
    forall|k: int| 0 <= k < frames.len() ==> fingerprint(#[trigger] frames[k]) == fingerprint(frames[0])
}

/// Whether every frame carries the same content fingerprint; nothing where some frame carries none,
/// since such a stream proves nothing about whether it moved.
fn all_frames_identical(stream: &Stream) -> (r: Option<bool>)
    requires
        stream.frames@.len() > 0,
    ensures
        r is None <==> lacks_fingerprint(stream.frames@),
        r is Some ==> r->0 == is_frozen(stream.frames@),
{
    if lacks_hash(&stream.frames) {
        return None;
    }
    let frames: &Vec<Frame> = &stream.frames;
    assert(fingerprint(frames@[0]) is Some);
    let mut i: usize = 1;
    while i < frames.len()
        invariant
            1 <= i <= frames@.len(),
            *frames == stream.frames,
            !lacks_fingerprint(frames@),
            fingerprint(frames@[0]) is Some,
            forall|k: int| 0 <= k < i ==> fingerprint(#[trigger] frames@[k]) == fingerprint(frames@[0]),
        decreases frames@.len() - i,
    {
        assert(fingerprint(frames@[i as int]) is Some);
        if let (Some(a), Some(b)) = (&frames[i].value_ref.content_hash, &frames[0].value_ref.content_hash) {
            if !same_hash(a, b) {
                assert(fingerprint(frames@[i as int]) != fingerprint(frames@[0]));
                return Some(false);
            }
        }
        i = i + 1;
    }
    Some(true)
}

/// The names of the examined streams among some.
pub open spec fn examined_names(s: Seq<(Episode, Stream)>) -> Seq<Seq<char>>
    decreases s.len(),
{
    if s.len() == 0 {
        Seq::empty()
    } else if is_examined(s.last().1) {
        examined_names(s.drop_last()).push(s.last().1.name@)
    } else {
        examined_names(s.drop_last())
    }
}

/// How many of the examined streams have a name.
pub open spec fn examined_count(s: Seq<(Episode, Stream)>, name: Seq<char>) -> nat
    decreases s.len(),
{
    if s.len() == 0 {
        0
    } else {
        examined_count(s.drop_last(), name) + (if is_examined(s.last().1) && s.last().1.name@ == name {
            1nat
        } else {
            0nat
        })
    }
}

/// The indices of the episodes in which an examined stream of a name never changed.
pub open spec fn frozen_in(s: Seq<(Episode, Stream)>, name: Seq<char>) -> Seq<u64>
    decreases s.len(),
{
    if s.len() == 0 {
        Seq::empty()
    } else if is_examined(s.last().1) && s.last().1.name@ == name && is_frozen(s.last().1.frames@) {
        frozen_in(s.drop_last(), name).push(s.last().0.index)
    } else {
        frozen_in(s.drop_last(), name)
    }
}

/// The finding for one episode in which a stream never changed.
pub open spec fn frozen_finding(name: Seq<char>, episode: u64, moving: nat, examined: nat) -> FindingView {
    check::finding(
        FROZEN_ID@,
        Category::Structure,
        Severity::Warning,
        LocationView::Stream { episode, stream: name },
        FROZEN_CODE@,
        "episode "@ + text::dec(episode as nat) + ": every frame of `"@ + name
            + "` is byte-identical, while it changes in "@ + text::dec(moving) + " of the "@ + text::dec(examined)
            + " episode(s) carrying it — nothing moved in this recording"@,
        FROZEN_RISK@,
        FROZEN_REMEDY@,
    )
}

/// What is reported of one stream name: a minority, strictly, of the episodes that carry it.
pub open spec fn frozen_of_name(s: Seq<(Episode, Stream)>, name: Seq<char>) -> Seq<FindingView> {
    let frozen = frozen_in(s, name);
    let examined = examined_count(s, name);
    if examined < FROZEN_MIN_EPISODES || frozen.len() * 2 >= examined {
        Seq::empty()
    } else {
        frozen.map_values(|e: u64| frozen_finding(name, e, (examined - frozen.len()) as nat, examined))
    }
}

/// What is reported of some names, in order.
pub open spec fn frozen_of_names(s: Seq<(Episode, Stream)>, names: Seq<Seq<char>>) -> Seq<FindingView>
    decreases names.len(),
{
    if names.len() == 0 {
        Seq::empty()
    } else {
        frozen_of_names(s, names.drop_last()) + frozen_of_name(s, names.last())
    }
}

/// What has been seen of one stream name.
struct Sighting {
    /// The stream's name.
    name: String,
    /// The episodes in which it never changed.
    frozen: Vec<u64>,
    /// How many streams of that name were examined.
    examined: u128,
}

/// Whether a table of sightings, ordered by name, is what is known of some streams.
spec fn tallies(table: Seq<Sighting>, s: Seq<(Episode, Stream)>) -> bool {
    &&& sighting_names(table) == seqs::text_set(examined_names(s))
    &&& forall|i: int|
        0 <= i < table.len() ==> {
            &&& (#[trigger] table[i]).frozen@ == frozen_in(s, table[i].name@)
            &&& table[i].examined as nat == examined_count(s, table[i].name@)
            &&& table[i].examined <= s.len()
        }
    &&& forall|i: int, j: int| 0 <= i < j < table.len() ==> table[i].name@ != table[j].name@
}

/// The names of a table of sightings.
spec fn sighting_names(table: Seq<Sighting>) -> Seq<Seq<char>> {
    table.map_values(|t: Sighting| t.name@)
}

/// Of a name that no examined stream has, nothing is known.
proof fn lemma_unseen(s: Seq<(Episode, Stream)>, name: Seq<char>)
    requires
        !examined_names(s).contains(name),
    ensures
        frozen_in(s, name) == Seq::<u64>::empty(),
        examined_count(s, name) == 0,
    decreases s.len(),
{
    if s.len() > 0 {
        let rest = s.drop_last();
        let all = examined_names(s);
        assert forall|k: int| 0 <= k < examined_names(rest).len() implies examined_names(rest)[k] != name by {
            assert(all[k] == examined_names(rest)[k]);
        }
        lemma_unseen(rest, name);
        if is_examined(s.last().1) {
            assert(all[all.len() - 1] == s.last().1.name@);
        }
    }
}

/// Enters one examined stream in a table of sightings.
fn enter(table: &mut Vec<Sighting>, episode: &Episode, stream: &Stream, frozen: bool, Ghost(s): Ghost<Seq<(Episode, Stream)>>)
    requires
        tallies(old(table)@, s),
        is_examined(*stream),
        frozen == is_frozen(stream.frames@),
        s.len() < u128::MAX,
    ensures
        tallies(final(table)@, s.push((*episode, *stream))),
{
    let ghost was = table@;
    let ghost names = sighting_names(was);
    let ghost now = s.push((*episode, *stream));
    let name: &str = stream.name.as_str();
    let mut i: usize = 0;
    while i < table.len() && text::before(table[i].name.as_str(), name)
        invariant
            i <= table@.len(),
            table@ == was,
            names == sighting_names(was),
            forall|k: int| 0 <= k < i ==> text::str_lt(#[trigger] names[k], name@),
        decreases table@.len() - i,
    {
        assert(names[i as int] == was[i as int].name@);
        i = i + 1;
    }
    proof {
        assert(now.drop_last() =~= s);
        if i < was.len() {
            assert(names[i as int] == was[i as int].name@);
        }
        seqs::lemma_with_new_at(names, name@, seqs::text_order(), i as int);
        seqs::lemma_distinct_step(examined_names(s), seqs::text_order(), name@);
        text::lemma_str_trichotomy(name@, name@);
    }
    let mut found: Sighting = Sighting { name: String::from_str(name), frozen: Vec::new(), examined: 0 };
    let known: bool = i < table.len() && same(table[i].name.as_str(), name);
    if known {
        found = table.remove(i);
    } else {
        proof {
            assert(!names.contains(name@)) by {
                if names.contains(name@) {
                    seqs::lemma_with_new_contains(names, name@, seqs::text_order(), name@);
                    let j = choose|j: int| 0 <= j < names.len() && names[j] == name@;
                    seqs::lemma_text_set_ordered(examined_names(s));
                    if j < i {
                        assert(text::str_lt(names[j], name@));
                    } else if i < names.len() {
                        text::lemma_str_trichotomy(names[i as int], name@);
                        if j > i {
                            assert(text::str_lt(names[i as int], names[j]));
                        }
                    }
                }
            }
            seqs::lemma_distinct_contains(examined_names(s), seqs::text_order(), name@);
            lemma_unseen(s, name@);
        }
    }
    let ghost mid = table@;
    if frozen {
        found.frozen.push(episode.index);
    }
    found.examined = found.examined + 1;
    table.insert(i, found);
    proof {
        let t = table@;
        if known {
            assert(sighting_names(t) =~= names);
        } else {
            assert(sighting_names(t) =~= names.insert(i as int, name@));
        }
        assert forall|k: int| 0 <= k < t.len() implies {
            &&& (#[trigger] t[k]).frozen@ == frozen_in(now, t[k].name@)
            &&& t[k].examined as nat == examined_count(now, t[k].name@)
            &&& t[k].examined <= now.len()
        } by {
            if k != i {
                let j = if known || k < i { k } else { k - 1 };
                assert(t[k] == was[j]);
                if known {
                    assert(was[i as int].name@ != was[j].name@);
                } else {
                    assert(names[j] == was[j].name@);
                    assert(names.contains(was[j].name@));
                }
            }
        }
        assert forall|k: int, j: int| 0 <= k < j < t.len() implies t[k].name@ != t[j].name@ by {
            if known {
                let a = if k == i { was[i as int] } else { was[k] };
                let b = if j == i { was[i as int] } else { was[j] };
                assert(a.name@ == t[k].name@);
                assert(b.name@ == t[j].name@);
            } else {
                if k != i {
                    let kk = if k < i { k } else { k - 1 };
                    assert(t[k] == was[kk]);
                    assert(names[kk] == was[kk].name@);
                }
                if j != i {
                    let jj = if j < i { j } else { j - 1 };
                    assert(t[j] == was[jj]);
                    assert(names[jj] == was[jj].name@);
                }
            }
        }
    }
}

/// Everything that is known of the examined streams of a dataset.
fn tabulate(episodes: &Vec<Episode>) -> (r: Vec<Sighting>)
    ensures
        tallies(r@, walk::pairs(episodes@)),
{
    let mut table: Vec<Sighting> = Vec::new();
    let mut i: usize = 0;
    let ghost eps = episodes@;
    proof {
        assert(walk::pairs(eps.take(0)) =~= Seq::empty());
        assert(sighting_names(table@) =~= Seq::empty());
    }
    while i < episodes.len()
        invariant
            i <= episodes@.len(),
            eps == episodes@,
            tallies(table@, walk::pairs(eps.take(i as int))),
        decreases episodes@.len() - i,
    {
        let episode: &Episode = &episodes[i];
        proof {
            walk::lemma_pairs_next(eps, i as int);
        }
        let mut j: usize = 0;
        while j < episode.streams.len()
            invariant
                i < eps.len(),
                *episode == eps[i as int],
                eps.len() <= usize::MAX,
                j <= episode.streams@.len(),
                tallies(table@, walk::pairs_before(eps, i as int, j as int)),
            decreases episode.streams@.len() - j,
        {
            let stream: &Stream = &episode.streams[j];
            let ghost was = walk::pairs_before(eps, i as int, j as int);
            proof {
                walk::lemma_pairs_step(eps, i as int, j as int);
                assert(was.push((*episode, *stream)).drop_last() =~= was);
            }
            let fit: bool = carries_a_vector(stream) && (stream.modality == Modality::Action || stream.modality
                == Modality::ScalarState) && stream.frames.len() >= FROZEN_MIN_FRAMES;
            if fit {
                match all_frames_identical(stream) {
                    Some(frozen) => {
                        proof {
                            walk::lemma_pairs_len(eps, i as int, j as int);
                        }
                        enter(&mut table, episode, stream, frozen, Ghost(was));
                    },
                    None => {},
                }
            }
            j = j + 1;
        }
        i = i + 1;
    }
    assert(eps.take(i as int) =~= eps);
    table
}

impl FrozenEpisode {
    /// What the check reports.
    pub open spec fn outcome(dataset: &Dataset) -> Seq<FindingView> {
        if dataset.episodes@.len() < FROZEN_MIN_EPISODES {
            Seq::empty()
        } else {
            let s = walk::pairs(dataset.episodes@);
            frozen_of_names(s, seqs::text_set(examined_names(s)))
        }
    }

    /// Reports the episodes in which one stream never changed.
    fn check_sighting(&self, seen: &Sighting, Ghost(s): Ghost<Seq<(Episode, Stream)>>) -> (r: Vec<Finding>)
        requires
            seen.frozen@ == frozen_in(s, seen.name@),
            seen.examined as nat == examined_count(s, seen.name@),
        ensures
            check::views(r@) == frozen_of_name(s, seen.name@),
    {
        broadcast use check::group_views;

        let frozen: &Vec<u64> = &seen.frozen;
        let stuck: u128 = frozen.len() as u128;
        if seen.examined < FROZEN_MIN_EPISODES as u128 || stuck * 2 >= seen.examined {
            return none();
        }
        let moving: u128 = seen.examined - stuck;
        let ghost all = frozen_of_name(s, seen.name@);
        let mut out: Vec<Finding> = Vec::new();
        let mut i: usize = 0;
        while i < frozen.len()
            invariant
                i <= frozen@.len(),
                all == frozen@.map_values(
                    |e: u64| frozen_finding(seen.name@, e, moving as nat, seen.examined as nat),
                ),
                check::views(out@) == all.take(i as int),
            decreases frozen@.len() - i,
        {
            let message: String = cat9(
                "episode ",
                dec_u64(frozen[i]).as_str(),
                ": every frame of `",
                seen.name.as_str(),
                "` is byte-identical, while it changes in ",
                dec_u128(moving).as_str(),
                " of the ",
                dec_u128(seen.examined).as_str(),
                " episode(s) carrying it — nothing moved in this recording",
            );
            out.push(
                Finding::new(
                    FROZEN_ID,
                    Category::Structure,
                    Severity::Warning,
                    Location::Stream { episode: frozen[i], stream: seen.name.clone() },
                    FROZEN_CODE,
                    message,
                ).with_risk(FROZEN_RISK).with_remedy(FROZEN_REMEDY),
            );
            assert(all.take(i + 1) =~= all.take(i as int).push(all[i as int]));
            i = i + 1;
        }
        assert(all.take(i as int) =~= all);
        out
    }

    /// Reports the episodes in which a stream never changed that changes in most others.
    pub fn evaluate(&self, dataset: &Dataset) -> (r: Vec<Finding>)
        ensures
            check::views(r@) == Self::outcome(dataset),
    {
        broadcast use check::group_views;

        if dataset.episodes.len() < FROZEN_MIN_EPISODES {
            return none();
        }
        let table: Vec<Sighting> = tabulate(&dataset.episodes);
        let ghost s = walk::pairs(dataset.episodes@);
        let ghost names = sighting_names(table@);
        let mut out: Vec<Finding> = Vec::new();
        let mut i: usize = 0;
        while i < table.len()
            invariant
                i <= table@.len(),
                tallies(table@, s),
                names == sighting_names(table@),
                check::views(out@) == frozen_of_names(s, names.take(i as int)),
            decreases table@.len() - i,
        {
            assert(names.take(i + 1).drop_last() =~= names.take(i as int));
            assert(names[i as int] == table@[i as int].name@);
            let mut found: Vec<Finding> = self.check_sighting(&table[i], Ghost(s));
            out.append(&mut found);
            i = i + 1;
        }
        assert(names.take(i as int) =~= names);
        out
    }
}

impl Check for FrozenEpisode {
    open spec fn meta(&self) -> CheckMeta {
        CheckMeta {
            id: FROZEN_ID@,
            title: "An episode where the robot never moved"@,
            category: Category::Structure,
            default_severity: Severity::Warning,
            scope: Scope::Episode,
            version: "1"@,
            finding_codes: seq![FROZEN_CODE@],
        }
    }

    fn info(&self) -> (r: CheckInfo) {
        let finding_codes: &'static [&'static str] = &[FROZEN_CODE];
        assert(text::str_texts(finding_codes@) =~= self.meta().finding_codes);
        CheckInfo {
            id: FROZEN_ID,
            title: "An episode where the robot never moved",
            category: Category::Structure,
            default_severity: Severity::Warning,
            scope: Scope::Episode,
            version: "1",
            finding_codes,
        }
    }

    open spec fn report(&self, dataset: &Dataset) -> Seq<FindingView> {
        Self::outcome(dataset)
    }

    open spec fn report_in(&self, dataset: &Dataset, frames_read: bool, attested: Seq<Seq<char>>) -> Seq<FindingView> {
        self.report(dataset)
    }

    fn run(&self, dataset: &Dataset) -> (r: Vec<Finding>) {
        self.evaluate(dataset)
    }

    fn run_in(&self, dataset: &Dataset, context: &CheckContext) -> (r: Vec<Finding>) {
        self.run(dataset)
    }
}

// ---- shapes ----------------------------------------------------------------------------------

/// Cross-episode dtype/shape consistency. A stream name that keeps a different declared element
/// dtype or per-frame shape in different episodes cannot be stacked into a single training batch:
/// the loader will either error or silently truncate/pad. Streams that declare no dtype/shape are
/// skipped.
///
/// The first declared dtype and the first declared shape of a name are its baselines, tracked
/// **independently**: a stream whose first episode states a dtype but no shape still acquires a
/// baseline for its shape from the first episode that states one.
#[derive(Debug, Clone, Copy)]
pub struct ShapeConsistency;

/// The id of [`ShapeConsistency`].
pub const SHAPE_ID: &'static str = "structural.shape-consistency";

/// The code of its findings.
pub const SHAPE_CODE: &'static str = "STRUCTURAL.SHAPE_MISMATCH";

pub const SHAPE_RISK: &'static str = "Inconsistent tensor dtype/shape across episodes breaks batched \
     collation: the data loader errors or silently pads/truncates, \
     corrupting inputs.";

pub const SHAPE_REMEDY: &'static str = "Re-export the affected episodes with a consistent feature \
     schema, or drop the episodes that diverge.";

/// The element type that a stream declares.
pub open spec fn dtype_of(stream: Stream) -> Option<Seq<char>> {
    match stream.dtype {
        Some(d) => Some(d@),
        None => None,
    }
}

/// The shape that a stream declares.
pub open spec fn shape_of(stream: Stream) -> Option<Seq<u64>> {
    match stream.shape {
        Some(s) => Some(s@),
        None => None,
    }
}

/// The first element type that streams of a name declare, with the episode that declares it.
pub open spec fn first_dtype(s: Seq<(Episode, Stream)>, name: Seq<char>) -> Option<(Seq<char>, u64)>
    decreases s.len(),
{
    if s.len() == 0 {
        None
    } else {
        match first_dtype(s.drop_last(), name) {
            Some(base) => Some(base),
            None => match dtype_of(s.last().1) {
                Some(d) => if s.last().1.name@ == name { Some((d, s.last().0.index)) } else { None },
                None => None,
            },
        }
    }
}

/// The first shape that streams of a name declare, with the episode that declares it.
pub open spec fn first_shape(s: Seq<(Episode, Stream)>, name: Seq<char>) -> Option<(Seq<u64>, u64)>
    decreases s.len(),
{
    if s.len() == 0 {
        None
    } else {
        match first_shape(s.drop_last(), name) {
            Some(base) => Some(base),
            None => match shape_of(s.last().1) {
                Some(d) => if s.last().1.name@ == name { Some((d, s.last().0.index)) } else { None },
                None => None,
            },
        }
    }
}

/// A shape as a message writes it.
pub open spec fn shape_text(shape: Seq<u64>) -> Seq<char> {
    "shape ["@ + text::joined(lists::decimals(shape), ","@) + "]"@
}

/// How a stream departs from the streams before it: the episode of the baseline, the baseline, and
/// what the stream declares instead. A departing dtype is named before a departing shape.
pub open spec fn departure(
    s: Seq<(Episode, Stream)>,
    stream: Stream,
) -> Option<(u64, Seq<char>, Seq<char>)> {
    let by_dtype = match (dtype_of(stream), first_dtype(s, stream.name@)) {
        (Some(d), Some((b, at))) => if d != b { Some((at, b, d)) } else { None },
        _ => None,
    };
    match by_dtype {
        Some(found) => Some(found),
        None => match (shape_of(stream), first_shape(s, stream.name@)) {
            (Some(d), Some((b, at))) => if d != b { Some((at, shape_text(b), shape_text(d))) } else { None },
            _ => None,
        },
    }
}

/// Whether some stream of a name departs from the streams before it.
pub open spec fn has_departed(s: Seq<(Episode, Stream)>, name: Seq<char>) -> bool
    decreases s.len(),
{
    s.len() > 0 && (has_departed(s.drop_last(), name) || (s.last().1.name@ == name && departure(
        s.drop_last(),
        s.last().1,
    ) is Some))
}

/// The finding for a stream that departs.
pub open spec fn shape_finding(
    episode: Episode,
    stream: Stream,
    at: u64,
    base: Seq<char>,
    here: Seq<char>,
) -> FindingView {
    check::finding(
        SHAPE_ID@,
        Category::Structure,
        Severity::Error,
        LocationView::Stream { episode: episode.index, stream: stream.name@ },
        SHAPE_CODE@,
        "stream `"@ + stream.name@ + "` declares "@ + base + " in episode "@ + text::dec(at as nat) + " but "@ + here
            + " in episode "@ + text::dec(episode.index as nat),
        SHAPE_RISK@,
        SHAPE_REMEDY@,
    )
}

/// What is reported of some streams: the first departure of each name.
pub open spec fn shape_findings(s: Seq<(Episode, Stream)>) -> Seq<FindingView>
    decreases s.len(),
{
    if s.len() == 0 {
        Seq::empty()
    } else {
        let rest = s.drop_last();
        match departure(rest, s.last().1) {
            Some((at, base, here)) => if has_departed(rest, s.last().1.name@) {
                shape_findings(rest)
            } else {
                shape_findings(rest).push(shape_finding(s.last().0, s.last().1, at, base, here))
            },
            None => shape_findings(rest),
        }
    }
}

/// What the first streams of a name declare.
struct Baseline {
    /// The stream's name.
    name: String,
    /// The first declared dtype, and the episode that declares it.
    dtype: Option<(String, u64)>,
    /// The first declared shape, and the episode that declares it.
    shape: Option<(Vec<u64>, u64)>,
    /// Whether a departure was reported.
    reported: bool,
}

impl Baseline {
    /// The first declared dtype.
    spec fn dtype_view(self) -> Option<(Seq<char>, u64)> {
        match self.dtype {
            Some((d, at)) => Some((d@, at)),
            None => None,
        }
    }

    /// The first declared shape.
    spec fn shape_view(self) -> Option<(Seq<u64>, u64)> {
        match self.shape {
            Some((d, at)) => Some((d@, at)),
            None => None,
        }
    }

    /// Whether this is what some streams declare.
    spec fn fits(self, s: Seq<(Episode, Stream)>) -> bool {
        &&& self.dtype_view() == first_dtype(s, self.name@)
        &&& self.shape_view() == first_shape(s, self.name@)
        &&& self.reported == has_departed(s, self.name@)
    }
}

/// Whether a table holds what some streams declare.
spec fn baselines(table: Seq<Baseline>, s: Seq<(Episode, Stream)>) -> bool {
    &&& forall|i: int| 0 <= i < table.len() ==> (#[trigger] table[i]).fits(s)
    &&& forall|name: Seq<char>|
        (forall|i: int| 0 <= i < table.len() ==> (#[trigger] table[i]).name@ != name) ==> #[trigger] first_dtype(s, name) is None
            && first_shape(s, name) is None && !has_departed(s, name)
}

/// Whether two shapes are equal.
fn same_shape(a: &Vec<u64>, b: &Vec<u64>) -> (r: bool)
    ensures
        r == (a@ == b@),
{
    if a.len() != b.len() {
        return false;
    }
    let mut i: usize = 0;
    while i < a.len()
        invariant
            i <= a@.len(),
            a@.len() == b@.len(),
            forall|k: int| 0 <= k < i ==> a@[k] == b@[k],
        decreases a@.len() - i,
    {
        if a[i] != b[i] {
            return false;
        }
        i = i + 1;
    }
    assert(a@ =~= b@);
    true
}

/// A copy of a shape.
fn copy_shape(a: &Vec<u64>) -> (r: Vec<u64>)
    ensures
        r@ == a@,
{
    let mut out: Vec<u64> = Vec::new();
    let mut i: usize = 0;
    while i < a.len()
        invariant
            i <= a@.len(),
            out@ == a@.take(i as int),
        decreases a@.len() - i,
    {
        out.push(a[i]);
        i = i + 1;
    }
    assert(a@.take(i as int) =~= a@);
    out
}

/// A shape as a message writes it.
fn describe_shape(shape: &Vec<u64>) -> (r: String)
    ensures
        r@ == shape_text(shape@),
{
    broadcast use text::lemma_texts_push;

    let mut parts: Vec<String> = Vec::new();
    let mut i: usize = 0;
    assert(text::texts(parts@) =~= lists::decimals(shape@.take(0)));
    while i < shape.len()
        invariant
            i <= shape@.len(),
            text::texts(parts@) == lists::decimals(shape@.take(i as int)),
        decreases shape@.len() - i,
    {
        parts.push(dec_u64(shape[i]));
        assert(lists::decimals(shape@.take(i + 1)) =~= lists::decimals(shape@.take(i as int)).push(
            text::dec(shape@[i as int] as nat),
        ));
        i = i + 1;
    }
    assert(shape@.take(i as int) =~= shape@);
    cat3("shape [", text::join(&parts, ",").as_str(), "]")
}

/// How a stream departs from its baseline.
fn departs(base: &Baseline, stream: &Stream, Ghost(s): Ghost<Seq<(Episode, Stream)>>) -> (r: Option<(u64, String, String)>)
    requires
        base.fits(s),
        base.name@ == stream.name@,
    ensures
        match r {
            Some((at, b, h)) => departure(s, *stream) == Some((at, b@, h@)),
            None => departure(s, *stream) is None,
        },
{
    if let (Some(d), Some((b, at))) = (&stream.dtype, &base.dtype) {
        if !same(d.as_str(), b.as_str()) {
            return Some((*at, b.clone(), d.clone()));
        }
    }
    if let (Some(d), Some((b, at))) = (&stream.shape, &base.shape) {
        if !same_shape(d, b) {
            return Some((*at, describe_shape(b), describe_shape(d)));
        }
    }
    None
}

/// The place of a name in a table.
fn find_baseline(table: &Vec<Baseline>, name: &str) -> (r: Option<usize>)
    ensures
        match r {
            Some(i) => i < table@.len() && table@[i as int].name@ == name@,
            None => forall|i: int| 0 <= i < table@.len() ==> (#[trigger] table@[i]).name@ != name@,
        },
{
    let mut i: usize = 0;
    while i < table.len()
        invariant
            i <= table@.len(),
            forall|k: int| 0 <= k < i ==> (#[trigger] table@[k]).name@ != name@,
        decreases table@.len() - i,
    {
        if same(table[i].name.as_str(), name) {
            return Some(i);
        }
        i = i + 1;
    }
    None
}

/// Enters one stream in a table of baselines and reports its departure.
fn compare(
    table: &mut Vec<Baseline>,
    out: &mut Vec<Finding>,
    episode: &Episode,
    stream: &Stream,
    Ghost(s): Ghost<Seq<(Episode, Stream)>>,
)
    requires
        baselines(old(table)@, s),
        check::views(old(out)@) == shape_findings(s),
        forall|i: int, j: int| 0 <= i < j < old(table)@.len() ==> old(table)@[i].name@ != old(table)@[j].name@,
    ensures
        baselines(final(table)@, s.push((*episode, *stream))),
        check::views(final(out)@) == shape_findings(s.push((*episode, *stream))),
        forall|i: int, j: int| 0 <= i < j < final(table)@.len() ==> final(table)@[i].name@ != final(table)@[j].name@,
{
    broadcast use check::group_views;

    let ghost now = s.push((*episode, *stream));
    let ghost was = table@;
    assert(now.drop_last() =~= s);
    let found: Option<usize> = find_baseline(table, stream.name.as_str());
    let mut base: Baseline = Baseline { name: stream.name.clone(), dtype: None, shape: None, reported: false };
    let mut place: usize = table.len();
    if let Some(i) = found {
        base = table.remove(i);
        place = i;
    } else {
        assert(first_dtype(s, stream.name@) is None);
    }
    let ghost rest = table@;
    let departure_here: Option<(u64, String, String)> = departs(&base, stream, Ghost(s));
    if base.dtype.is_none() {
        if let Some(d) = &stream.dtype {
            base.dtype = Some((d.clone(), episode.index));
        }
    }
    if base.shape.is_none() {
        if let Some(d) = &stream.shape {
            base.shape = Some((copy_shape(d), episode.index));
        }
    }
    if let Some((at, b, h)) = departure_here {
        if !base.reported {
            base.reported = true;
            let message: String = cat9(
                "stream `",
                stream.name.as_str(),
                "` declares ",
                b.as_str(),
                " in episode ",
                dec_u64(at).as_str(),
                " but ",
                h.as_str(),
                cat2(" in episode ", dec_u64(episode.index).as_str()).as_str(),
            );
            proof {
                let m = "stream `"@ + stream.name@ + "` declares "@ + b@ + " in episode "@ + text::dec(at as nat)
                    + " but "@ + h@;
                assert(message@ =~= m + " in episode "@ + text::dec(episode.index as nat));
            }
            out.push(
                Finding::new(
                    SHAPE_ID,
                    Category::Structure,
                    Severity::Error,
                    Location::Stream { episode: episode.index, stream: stream.name.clone() },
                    SHAPE_CODE,
                    message,
                ).with_risk(SHAPE_RISK).with_remedy(SHAPE_REMEDY),
            );
        }
    }
    assert(base.fits(now));
    table.insert(place, base);
    proof {
        let t = table@;
        assert forall|k: int| 0 <= k < t.len() implies (#[trigger] t[k]).fits(now) by {
            if k != place {
                if found is None || k < place {
                    assert(t[k] == was[k]);
                    assert(was[k].fits(s));
                } else {
                    assert(t[k] == was[k]);
                    assert(was[k].fits(s));
                }
                assert(t[k].name@ != stream.name@);
            }
        }
        assert forall|name: Seq<char>|
            (forall|i: int| 0 <= i < t.len() ==> (#[trigger] t[i]).name@ != name) implies #[trigger] first_dtype(
            now,
            name,
        ) is None && first_shape(now, name) is None && !has_departed(now, name) by {
            assert(t[place as int].name@ != name);
            assert(first_dtype(s, name) is None && first_shape(s, name) is None && !has_departed(s, name)) by {
                assert forall|i: int| 0 <= i < was.len() implies (#[trigger] was[i]).name@ != name by {
                    assert(t[i].name@ != name);
                    if i != place {
                        assert(t[i] == was[i]);
                    }
                }
            }
        }
    }
}

impl ShapeConsistency {
    /// Reports the first departure of each stream name.
    pub fn evaluate(&self, dataset: &Dataset) -> (r: Vec<Finding>)
        ensures
            check::views(r@) == shape_findings(walk::pairs(dataset.episodes@)),
    {
        broadcast use check::group_views;

        let mut table: Vec<Baseline> = Vec::new();
        let mut out: Vec<Finding> = Vec::new();
        let mut i: usize = 0;
        let ghost eps = dataset.episodes@;
        assert(walk::pairs(eps.take(0)) =~= Seq::empty());
        while i < dataset.episodes.len()
            invariant
                i <= dataset.episodes@.len(),
                eps == dataset.episodes@,
                baselines(table@, walk::pairs(eps.take(i as int))),
                check::views(out@) == shape_findings(walk::pairs(eps.take(i as int))),
                forall|a: int, b: int| 0 <= a < b < table@.len() ==> table@[a].name@ != table@[b].name@,
            decreases dataset.episodes@.len() - i,
        {
            let episode: &Episode = &dataset.episodes[i];
            proof {
                walk::lemma_pairs_next(eps, i as int);
            }
            let mut j: usize = 0;
            while j < episode.streams.len()
                invariant
                    i < eps.len(),
                    *episode == eps[i as int],
                    j <= episode.streams@.len(),
                    baselines(table@, walk::pairs_before(eps, i as int, j as int)),
                    check::views(out@) == shape_findings(walk::pairs_before(eps, i as int, j as int)),
                    forall|a: int, b: int| 0 <= a < b < table@.len() ==> table@[a].name@ != table@[b].name@,
                decreases episode.streams@.len() - j,
            {
                let ghost was = walk::pairs_before(eps, i as int, j as int);
                proof {
                    walk::lemma_pairs_step(eps, i as int, j as int);
                }
                compare(&mut table, &mut out, episode, &episode.streams[j], Ghost(was));
                j = j + 1;
            }
            i = i + 1;
        }
        assert(eps.take(i as int) =~= eps);
        out
    }
}

impl Check for ShapeConsistency {
    open spec fn meta(&self) -> CheckMeta {
        CheckMeta {
            id: SHAPE_ID@,
            title: "Cross-episode dtype/shape consistency"@,
            category: Category::Structure,
            default_severity: Severity::Error,
            scope: Scope::Dataset,
            version: "1"@,
            finding_codes: seq![SHAPE_CODE@],
        }
    }

    fn info(&self) -> (r: CheckInfo) {
        let finding_codes: &'static [&'static str] = &[SHAPE_CODE];
        assert(text::str_texts(finding_codes@) =~= self.meta().finding_codes);
        CheckInfo {
            id: SHAPE_ID,
            title: "Cross-episode dtype/shape consistency",
            category: Category::Structure,
            default_severity: Severity::Error,
            scope: Scope::Dataset,
            version: "1",
            finding_codes,
        }
    }

    open spec fn report(&self, dataset: &Dataset) -> Seq<FindingView> {
        shape_findings(walk::pairs(dataset.episodes@))
    }

    open spec fn report_in(&self, dataset: &Dataset, frames_read: bool, attested: Seq<Seq<char>>) -> Seq<FindingView> {
        self.report(dataset)
    }

    fn run(&self, dataset: &Dataset) -> (r: Vec<Finding>) {
        self.evaluate(dataset)
    }

    fn run_in(&self, dataset: &Dataset, context: &CheckContext) -> (r: Vec<Finding>) {
        self.run(dataset)
    }
}

} // verus!
