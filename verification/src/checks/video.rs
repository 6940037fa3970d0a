//! Video and media checks: does the media file match the data it is paired with?
//!
//! A video dataset is two artifacts that nothing reconciles: the manifest declares an encoding and
//! the data table carries one row per frame, while the pixels live in a separate file. These checks
//! compare the two halves, by the container's headers only. They are silent on a stream without
//! separate media.

use vstd::prelude::*;
use vstd::string::*;

use crate::cat::{cat2, cat3, cat5, cat7, cat8, cat9, cat10};
use crate::cdm::{Dataset, Episode, Media, MediaStatus, Stream};
use crate::check;
use crate::check::{Category, Check, CheckContext, CheckInfo, CheckMeta, Finding, FindingView, Location, LocationView, Scope, Severity};
use crate::checks::walk;
use crate::decimal;
use crate::deviation;
use crate::number;
use crate::seqs;
use crate::text;
use crate::text::{before, same, dec_u128, dec_u64, dec_usize};

verus! {

broadcast use text::lemma_texts_push;

// ---- readable media --------------------------------------------------------------------------

/// The media file the manifest implies is on disk and parses as a video container.
///
/// A stream whose media is missing for *every* episode is one gap, not one per episode. A stream
/// missing media for only some episodes is the opposite: each of those episodes is separately wrong.
/// A stream whose files cannot be paired with episodes is reported once, informational: nothing about
/// its video was verified.
#[derive(Debug, Clone, Copy)]
pub struct MediaReadable;

/// The id of [`MediaReadable`].
pub const READABLE_ID: &'static str = "video.media-readable";

/// The code for a stream without any media file.
pub const ABSENT_CODE: &'static str = "VIDEO.MEDIA_ABSENT";

/// The code for an episode without its media file.
pub const MISSING_CODE: &'static str = "VIDEO.MEDIA_MISSING";

/// The code for a media file that cannot be read.
pub const UNREADABLE_CODE: &'static str = "VIDEO.MEDIA_UNREADABLE";

/// The code for media files that cannot be paired with episodes.
pub const UNATTRIBUTED_CODE: &'static str = "VIDEO.MEDIA_UNATTRIBUTED";

pub const UNATTRIBUTED_RISK: &'static str = "A desynced, re-encoded, or unreadable video in this \
     stream is not absent from this report — it was never looked for. The pairing these checks \
     verify is between a container and the episode whose actions it accompanies, and that pairing \
     is what the layout does not express.";

pub const UNATTRIBUTED_REMEDY: &'static str = "Re-export with one media file per episode \
     (`episode_<n>.<ext>`) if you want the video checked against the data it is paired with.";

/// The finding for media files that cannot be paired with episodes.
pub open spec fn unattributed_finding(episode: u64, name: Seq<char>, reason: Seq<char>) -> FindingView {
    check::finding(
        READABLE_ID@,
        Category::Video,
        Severity::Info,
        LocationView::Stream { episode, stream: name },
        UNATTRIBUTED_CODE@,
        "stream `"@ + name + "`: "@ + reason
            + ", so no container could be paired with the rows it belongs to and the video checks did not run on it"@,
        UNATTRIBUTED_RISK@,
        UNATTRIBUTED_REMEDY@,
    )
}

/// The finding for media files that cannot be paired with episodes.
fn make_unattributed(episode: u64, name: &str, reason: &str) -> (r: Finding)
    ensures
        r@ == unattributed_finding(episode, name@, reason@),
{
    let message: String = cat5(
        "stream `",
        name,
        "`: ",
        reason,
        ", so no container could be paired with the rows it belongs to and the video checks did not run on it",
    );
    Finding::new(READABLE_ID, Category::Video, Severity::Info, Location::Stream { episode, stream: String::from_str(name) }, UNATTRIBUTED_CODE, message).with_risk(
        UNATTRIBUTED_RISK,
    ).with_remedy(UNATTRIBUTED_REMEDY)
}

pub const ABSENT_RISK: &'static str = "Every episode's frames have timestamps and actions but no \
     imagery at all. Nothing in the manifest or the data table records this, so the dataset reads \
     as complete right up until a loader tries to open a video — the signature of an un-pulled \
     LFS pointer or an interrupted download.";

pub const ABSENT_REMEDY: &'static str = "Fetch the video files (for a Hugging Face repo, `git lfs \
     pull` or a full `snapshot_download`), or drop the video feature from `meta/info.json` if \
     this copy is deliberately data-only.";

/// The finding for a stream without any media file.
pub open spec fn absent_finding(episode: u64, name: Seq<char>, uri: Seq<char>, count: nat) -> FindingView {
    check::finding(
        READABLE_ID@,
        Category::Video,
        Severity::Error,
        LocationView::Stream { episode, stream: name },
        ABSENT_CODE@,
        "stream `"@ + name
            + "`: the manifest declares this stream's pixels live in video files, but none were found under `"@
            + uri + "` — no episode of "@ + text::dec(count) + " has any imagery"@,
        ABSENT_RISK@,
        ABSENT_REMEDY@,
    )
}

/// The finding for a stream without any media file.
fn make_absent(episode: u64, name: &str, uri: &str, count: u128) -> (r: Finding)
    ensures
        r@ == absent_finding(episode, name@, uri@, count as nat),
{
    let message: String = cat7(
        "stream `",
        name,
        "`: the manifest declares this stream's pixels live in video files, but none were found under `",
        uri,
        "` — no episode of ",
        dec_u128(count).as_str(),
        " has any imagery",
    );
    Finding::new(READABLE_ID, Category::Video, Severity::Error, Location::Stream { episode, stream: String::from_str(name) }, ABSENT_CODE, message).with_risk(
        ABSENT_RISK,
    ).with_remedy(ABSENT_REMEDY)
}

pub const MISSING_RISK: &'static str = "The episode's frames have timestamps and actions but no \
     imagery. A loader either fails on this episode or, worse, silently trains on the remaining \
     streams with the visual observation absent.";

pub const MISSING_REMEDY: &'static str = "Re-export or re-upload the missing video file, or drop the \
     episode from the manifest so the dataset stops claiming imagery it does not have.";

/// The finding for an episode without its media file.
pub open spec fn missing_finding(episode: u64, name: Seq<char>, uri: Seq<char>) -> FindingView {
    check::finding(
        READABLE_ID@,
        Category::Video,
        Severity::Error,
        LocationView::Stream { episode, stream: name },
        MISSING_CODE@,
        "episode "@ + text::dec(episode as nat) + " stream `"@ + name + "`: no media file at `"@ + uri
            + "`, though the dataset stores this stream's video per episode"@,
        MISSING_RISK@,
        MISSING_REMEDY@,
    )
}

/// The finding for an episode without its media file.
fn make_missing(episode: u64, name: &str, uri: &str) -> (r: Finding)
    ensures
        r@ == missing_finding(episode, name@, uri@),
{
    let message: String = cat7(
        "episode ",
        dec_u64(episode).as_str(),
        " stream `",
        name,
        "`: no media file at `",
        uri,
        "`, though the dataset stores this stream's video per episode",
    );
    Finding::new(READABLE_ID, Category::Video, Severity::Error, Location::Stream { episode, stream: String::from_str(name) }, MISSING_CODE, message).with_risk(
        MISSING_RISK,
    ).with_remedy(MISSING_REMEDY)
}

pub const UNREADABLE_RISK: &'static str = "A container that will not parse will not decode. Training \
     fails at this episode — usually hours in, once the loader reaches it.";

pub const UNREADABLE_REMEDY: &'static str = "Re-encode or re-upload the file; a truncated size \
     against the original is the usual cause of an interrupted transfer.";

/// The finding for a media file that cannot be read.
pub open spec fn unreadable_finding(
    episode: u64,
    name: Seq<char>,
    uri: Seq<char>,
    reason: Seq<char>,
) -> FindingView {
    check::finding(
        READABLE_ID@,
        Category::Video,
        Severity::Error,
        LocationView::Stream { episode, stream: name },
        UNREADABLE_CODE@,
        "episode "@ + text::dec(episode as nat) + " stream `"@ + name + "`: `"@ + uri
            + "` is not a readable video container ("@ + reason + ")"@,
        UNREADABLE_RISK@,
        UNREADABLE_REMEDY@,
    )
}

/// The finding for a media file that cannot be read.
fn make_unreadable(episode: u64, name: &str, uri: &str, reason: &str) -> (r: Finding)
    ensures
        r@ == unreadable_finding(episode, name@, uri@, reason@),
{
    let message: String = cat9(
        "episode ",
        dec_u64(episode).as_str(),
        " stream `",
        name,
        "`: `",
        uri,
        "` is not a readable video container (",
        reason,
        ")",
    );
    Finding::new(READABLE_ID, Category::Video, Severity::Error, Location::Stream { episode, stream: String::from_str(name) }, UNREADABLE_CODE, message).with_risk(
        UNREADABLE_RISK,
    ).with_remedy(UNREADABLE_REMEDY)
}

/// Whether a stream has a media file.
pub open spec fn has_media(stream: Stream, name: Seq<char>) -> bool {
    stream.media is Some && stream.name@ == name
}

/// Whether a stream's media file is missing.
pub open spec fn lacks_media(stream: Stream, name: Seq<char>) -> bool {
    has_media(stream, name) && stream.media->0.status is Missing
}

/// How many streams of a name have a media file.
pub open spec fn with_media(s: Seq<(Episode, Stream)>, name: Seq<char>) -> nat
    decreases s.len(),
{
    if s.len() == 0 {
        0
    } else {
        with_media(s.drop_last(), name) + (if has_media(s.last().1, name) { 1nat } else { 0 })
    }
}

/// How many streams of a name miss their media file.
pub open spec fn without_media(s: Seq<(Episode, Stream)>, name: Seq<char>) -> nat
    decreases s.len(),
{
    if s.len() == 0 {
        0
    } else {
        without_media(s.drop_last(), name) + (if lacks_media(s.last().1, name) { 1nat } else { 0 })
    }
}

/// Whether every stream of a name misses its media file.
pub open spec fn wholly_absent(all: Seq<(Episode, Stream)>, name: Seq<char>) -> bool {
    with_media(all, name) == without_media(all, name) && with_media(all, name) > 0
}

/// Whether what is wrong with a stream's media is wrong with all of its name, so that it is reported
/// once.
pub open spec fn is_shared(all: Seq<(Episode, Stream)>, stream: Stream) -> bool {
    match stream.media {
        Some(media) => media.status is Unattributable || (media.status is Missing && wholly_absent(all, stream.name@)),
        None => false,
    }
}

/// Whether some stream of a name was reported for all of them.
pub open spec fn was_reported(all: Seq<(Episode, Stream)>, s: Seq<(Episode, Stream)>, name: Seq<char>) -> bool
    decreases s.len(),
{
    s.len() > 0 && (was_reported(all, s.drop_last(), name) || (s.last().1.name@ == name && is_shared(
        all,
        s.last().1,
    )))
}

/// What is reported of one stream's media.
pub open spec fn media_findings(
    all: Seq<(Episode, Stream)>,
    s: Seq<(Episode, Stream)>,
    episode: Episode,
    stream: Stream,
) -> Seq<FindingView> {
    let (e, name) = (episode.index, stream.name@);
    match stream.media {
        None => Seq::empty(),
        Some(media) => if is_shared(all, stream) && was_reported(all, s, name) {
            Seq::empty()
        } else {
            match media.status {
                MediaStatus::Read => Seq::empty(),
                MediaStatus::Unattributable { reason } => seq![unattributed_finding(e, name, reason@)],
                MediaStatus::Missing => if wholly_absent(all, name) {
                    seq![absent_finding(e, name, media.uri@, with_media(all, name))]
                } else {
                    seq![missing_finding(e, name, media.uri@)]
                },
                MediaStatus::Unreadable { reason } => seq![unreadable_finding(e, name, media.uri@, reason@)],
            }
        },
    }
}

/// What is reported of the media of streams.
pub open spec fn readable_findings(all: Seq<(Episode, Stream)>, s: Seq<(Episode, Stream)>) -> Seq<FindingView>
    decreases s.len(),
{
    if s.len() == 0 {
        Seq::empty()
    } else {
        readable_findings(all, s.drop_last()) + media_findings(all, s.drop_last(), s.last().0, s.last().1)
    }
}

/// How many streams of a name have, and miss, a media file.
struct Tally {
    /// The name.
    name: String,
    /// How many have one.
    with: u128,
    /// How many miss it.
    without: u128,
}

/// Whether an entry counts the media files of the streams of its name.
spec fn counts(t: Tally, s: Seq<(Episode, Stream)>) -> bool {
    with_media(s, t.name@) == t.with && without_media(s, t.name@) == t.without
}

/// Whether no entry of a table has a name.
spec fn lacks(table: Seq<Tally>, name: Seq<char>) -> bool {
    forall|i: int| 0 <= i < table.len() ==> (#[trigger] table[i]).name@ != name
}

/// Whether a table counts the media files of streams.
spec fn tallied(table: Seq<Tally>, s: Seq<(Episode, Stream)>) -> bool {
    &&& forall|i: int| 0 <= i < table.len() ==> counts(#[trigger] table[i], s)
    &&& forall|i: int, j: int| 0 <= i < j < table.len() ==> (#[trigger] table[i]).name@ != (#[trigger] table[j]).name@
    &&& forall|name: Seq<char>| lacks(table, name) ==> #[trigger] with_media(s, name) == 0 && without_media(s, name) == 0
}

/// There are no more media files than streams.
proof fn lemma_media_bound(s: Seq<(Episode, Stream)>, name: Seq<char>)
    ensures
        without_media(s, name) <= with_media(s, name) <= s.len(),
    decreases s.len(),
{
    if s.len() > 0 {
        lemma_media_bound(s.drop_last(), name);
    }
}

/// The place of a name in a table.
fn find_tally(table: &Vec<Tally>, name: &str) -> (r: Option<usize>)
    ensures
        match r {
            Some(i) => i < table@.len() && table@[i as int].name@ == name@,
            None => forall|i: int| 0 <= i < table@.len() ==> (#[trigger] table@[i]).name@ != name@,
        },
{
    let mut i: usize = 0;
    while i < table.len()
        invariant
            i <= table@.len(),
            forall|k: int| 0 <= k < i ==> (#[trigger] table@[k]).name@ != name@,
        decreases table@.len() - i,
    {
        if same(table[i].name.as_str(), name) {
            return Some(i);
        }
        i = i + 1;
    }
    None
}

/// Counts one stream more.
fn tally(table: &mut Vec<Tally>, episode: &Episode, stream: &Stream, Ghost(s): Ghost<Seq<(Episode, Stream)>>)
    requires
        tallied(old(table)@, s),
        s.len() < u128::MAX,
    ensures
        tallied(final(table)@, s.push((*episode, *stream))),
{
    let ghost now = s.push((*episode, *stream));
    let ghost was = table@;
    assert(now.drop_last() =~= s);
    let mut at: Option<usize> = None;
    if let Some(media) = &stream.media {
        let missing: bool = match &media.status {
            MediaStatus::Missing => true,
            _ => false,
        };
        at = find_tally(table, stream.name.as_str());
        match at {
            Some(i) => {
                proof {
                    assert(counts(was[i as int], s));
                    lemma_media_bound(s, stream.name@);
                }
                let mut entry: Tally = table.remove(i);
                entry.with = entry.with + 1;
                if missing {
                    entry.without = entry.without + 1;
                }
                table.insert(i, entry);
            },
            None => {
                assert(with_media(s, stream.name@) == 0);
                table.push(
                    Tally { name: stream.name.clone(), with: 1, without: if missing {
                        1
                    } else {
                        0
                    } },
                );
            },
        }
    }
    proof {
        let t = table@;
        assert forall|k: int| 0 <= k < t.len() implies counts(#[trigger] t[k], now) by {
            if k < was.len() {
                assert(counts(was[k], s));
                assert(t[k].name@ == was[k].name@);
                if at is Some && k != at->0 {
                    assert(was[k].name@ != was[at->0 as int].name@);
                    assert(t[k] == was[k]);
                }
                if at is None && stream.media is Some {
                    assert(was[k].name@ != stream.name@);
                }
            }
        }
        assert forall|a: int, b: int| 0 <= a < b < t.len() implies (#[trigger] t[a]).name@ != (#[trigger] t[b]).name@ by {
            assert(was[a].name@ == t[a].name@);
            if b < was.len() {
                assert(was[b].name@ == t[b].name@);
            }
        }
        assert forall|name: Seq<char>|
            lacks(t, name) implies #[trigger] with_media(now, name) == 0 && without_media(now, name) == 0 by {
            assert forall|k: int| 0 <= k < was.len() implies (#[trigger] was[k]).name@ != name by {
                assert(t[k].name@ == was[k].name@);
            }
            assert(lacks(was, name));
            assert(with_media(s, name) == 0);
            if stream.media is Some && stream.name@ == name {
                match at {
                    Some(i) => {
                        assert(was[i as int].name@ == name);
                    },
                    None => {
                        assert(t[was.len() as int].name@ == name);
                    },
                }
            }
        }
        assert(now == s.push((*episode, *stream)));
        assert(tallied(t, now));
    }
}

/// Counts the media files of a dataset.
fn tally_all(dataset: &Dataset) -> (r: Vec<Tally>)
    ensures
        tallied(r@, walk::pairs(dataset.episodes@)),
{
    let ghost eps = dataset.episodes@;
    let mut table: Vec<Tally> = Vec::new();
    let mut i: usize = 0;
    assert(walk::pairs(eps.take(0)) =~= Seq::empty());
    while i < dataset.episodes.len()
        invariant
            i <= eps.len(),
            eps == dataset.episodes@,
            tallied(table@, walk::pairs(eps.take(i as int))),
        decreases eps.len() - i,
    {
        let episode: &Episode = &dataset.episodes[i];
        proof {
            walk::lemma_pairs_next(eps, i as int);
        }
        let mut j: usize = 0;
        while j < episode.streams.len()
            invariant
                i < eps.len(),
                eps == dataset.episodes@,
                *episode == eps[i as int],
                j <= episode.streams@.len(),
                tallied(table@, walk::pairs_before(eps, i as int, j as int)),
            decreases episode.streams@.len() - j,
        {
            proof {
                walk::lemma_pairs_step(eps, i as int, j as int);
                let n = dataset.episodes.len();
                walk::lemma_pairs_len(eps, i as int, j as int);
            }
            tally(&mut table, episode, &episode.streams[j], Ghost(walk::pairs_before(eps, i as int, j as int)));
            j = j + 1;
        }
        i = i + 1;
    }
    assert(eps.take(i as int) =~= eps);
    table
}

/// Reports one stream's media.
fn report_media(
    table: &Vec<Tally>,
    reported: &mut Vec<String>,
    out: &mut Vec<Finding>,
    episode: &Episode,
    stream: &Stream,
    Ghost(all): Ghost<Seq<(Episode, Stream)>>,
    Ghost(s): Ghost<Seq<(Episode, Stream)>>,
)
    requires
        tallied(table@, all),
        check::views(old(out)@) == readable_findings(all, s),
        forall|n: Seq<char>| #[trigger] text::texts(old(reported)@).contains(n) <==> was_reported(all, s, n),
    ensures
        check::views(final(out)@) == readable_findings(all, s.push((*episode, *stream))),
        forall|n: Seq<char>| #[trigger]
            text::texts(final(reported)@).contains(n) <==> was_reported(all, s.push((*episode, *stream)), n),
{
    broadcast use check::group_views;

    let ghost now = s.push((*episode, *stream));
    let ghost was = check::views(out@);
    proof {
        assert(now.drop_last() =~= s);
        text::lemma_pushed_contains(text::texts(reported@), stream.name@);
        assert forall|n: Seq<char>| was_reported(all, now, n) == (was_reported(all, s, n) || (stream.name@ == n && is_shared(
            all,
            *stream,
        ))) by {
        }
    }
    if let Some(media) = &stream.media {
        let name: &str = stream.name.as_str();
        let (with, without): (u128, u128) = match find_tally(table, name) {
            Some(i) => {
                assert(counts(table@[i as int], all));
                (table[i].with, table[i].without)
            },
            None => (0, 0),
        };
        assert(with == with_media(all, name@) && without == without_media(all, name@));
        let absent: bool = with == without && with > 0;
        let shared: bool = match &media.status {
            MediaStatus::Unattributable { .. } => true,
            MediaStatus::Missing => absent,
            _ => false,
        };
        if shared {
            if text::holds(reported, name) {
                assert(check::views(out@) =~= readable_findings(all, now));
                return;
            }
            reported.push(stream.name.clone());
        }
        match &media.status {
            MediaStatus::Read => {},
            MediaStatus::Unattributable { reason } => {
                out.push(make_unattributed(episode.index, name, reason.as_str()));
            },
            MediaStatus::Missing => {
                if absent {
                    out.push(make_absent(episode.index, name, media.uri.as_str(), with));
                } else {
                    out.push(make_missing(episode.index, name, media.uri.as_str()));
                }
            },
            MediaStatus::Unreadable { reason } => {
                out.push(make_unreadable(episode.index, name, media.uri.as_str(), reason.as_str()));
            },
        }
    }
    assert(check::views(out@) =~= readable_findings(all, now));
}

impl MediaReadable {
    /// The codes that stand for something that could not be judged.
    pub fn abstention_codes(&self) -> (r: &'static [&'static str])
        ensures
            text::str_texts(r@) == seq![UNREADABLE_CODE@],
    {
        let codes: &'static [&'static str] = &[UNREADABLE_CODE];
        assert(text::str_texts(codes@) =~= seq![UNREADABLE_CODE@]);
        codes
    }

    /// Reports the media files that are missing, cannot be read or cannot be paired.
    pub fn evaluate(&self, dataset: &Dataset) -> (r: Vec<Finding>)
        ensures
            check::views(r@) == readable_findings(walk::pairs(dataset.episodes@), walk::pairs(dataset.episodes@)),
    {
        broadcast use check::group_views;

        let ghost eps = dataset.episodes@;
        let ghost all = walk::pairs(eps);
        let table: Vec<Tally> = tally_all(dataset);
        let mut reported: Vec<String> = Vec::new();
        let mut out: Vec<Finding> = Vec::new();
        let mut i: usize = 0;
        assert(walk::pairs(eps.take(0)) =~= Seq::empty());
        assert(text::texts(reported@) =~= Seq::empty());
        while i < dataset.episodes.len()
            invariant
                i <= eps.len(),
                eps == dataset.episodes@,
                tallied(table@, all),
                check::views(out@) == readable_findings(all, walk::pairs(eps.take(i as int))),
                forall|n: Seq<char>| #[trigger]
                    text::texts(reported@).contains(n) <==> was_reported(all, walk::pairs(eps.take(i as int)), n),
            decreases eps.len() - i,
        {
            let episode: &Episode = &dataset.episodes[i];
            proof {
                walk::lemma_pairs_next(eps, i as int);
            }
            let mut j: usize = 0;
            while j < episode.streams.len()
                invariant
                    i < eps.len(),
                    *episode == eps[i as int],
                    j <= episode.streams@.len(),
                    tallied(table@, all),
                    check::views(out@) == readable_findings(all, walk::pairs_before(eps, i as int, j as int)),
                    forall|n: Seq<char>| #[trigger]
                        text::texts(reported@).contains(n) <==> was_reported(
                            all,
                            walk::pairs_before(eps, i as int, j as int),
                            n,
                        ),
                decreases episode.streams@.len() - j,
            {
                let ghost s = walk::pairs_before(eps, i as int, j as int);
                proof {
                    walk::lemma_pairs_step(eps, i as int, j as int);
                }
                report_media(&table, &mut reported, &mut out, episode, &episode.streams[j], Ghost(all), Ghost(s));
                j = j + 1;
            }
            i = i + 1;
        }
        assert(eps.take(i as int) =~= eps);
        out
    }
}

impl Check for MediaReadable {
    open spec fn meta(&self) -> CheckMeta {
        CheckMeta {
            id: READABLE_ID@,
            title: "Media file present and readable"@,
            category: Category::Video,
            default_severity: Severity::Error,
            scope: Scope::Stream,
            version: "1"@,
            finding_codes: seq![ABSENT_CODE@, MISSING_CODE@, UNREADABLE_CODE@, UNATTRIBUTED_CODE@],
        }
    }

    fn info(&self) -> (r: CheckInfo) {
        let finding_codes: &'static [&'static str] = &[ABSENT_CODE, MISSING_CODE, UNREADABLE_CODE, UNATTRIBUTED_CODE];
        assert(text::str_texts(finding_codes@) =~= self.meta().finding_codes);
        CheckInfo {
            id: READABLE_ID,
            title: "Media file present and readable",
            category: Category::Video,
            default_severity: Severity::Error,
            scope: Scope::Stream,
            version: "1",
            finding_codes,
        }
    }

    open spec fn report(&self, dataset: &Dataset) -> Seq<FindingView> {
        readable_findings(walk::pairs(dataset.episodes@), walk::pairs(dataset.episodes@))
    }

    open spec fn report_in(&self, dataset: &Dataset, frames_read: bool, attested: Seq<Seq<char>>) -> Seq<FindingView> {
        self.report(dataset)
    }

    fn run(&self, dataset: &Dataset) -> (r: Vec<Finding>) {
        self.evaluate(dataset)
    }

    fn run_in(&self, dataset: &Dataset, context: &CheckContext) -> (r: Vec<Finding>) {
        self.run(dataset)
    }
}

// ---- a systematic difference in length -------------------------------------------------------

/// By how many frames a stream's container is longer than its rows, where both were measured. An
/// episode whose file is missing, whose container would not parse, or whose container declares no
/// sample count was never weighed.
pub open spec fn length_delta(stream: Stream) -> Option<int> {
    match stream.media {
        Some(media) => match media.frame_count {
            Some(n) => if media.status is Read { Some(n - stream.frames@.len()) } else { None },
            None => None,
        },
        None => None,
    }
}

/// Whether a stream's length was measured.
pub open spec fn is_measured(stream: Stream, name: Seq<char>) -> bool {
    stream.name@ == name && length_delta(stream) is Some
}

/// The episode of the last measured stream of a name.
pub open spec fn last_measured(s: Seq<(Episode, Stream)>, name: Seq<char>) -> Option<u64>
    decreases s.len(),
{
    if s.len() == 0 {
        None
    } else if is_measured(s.last().1, name) {
        Some(s.last().0.index)
    } else {
        last_measured(s.drop_last(), name)
    }
}

/// How many episodes measured a stream of a name. A name may appear twice in one episode: the
/// episode counts once.
pub open spec fn measured_episodes(s: Seq<(Episode, Stream)>, name: Seq<char>) -> nat
    decreases s.len(),
{
    if s.len() == 0 {
        0
    } else {
        let rest = s.drop_last();
        measured_episodes(rest, name) + (if is_measured(s.last().1, name) && last_measured(rest, name) != Some(
            s.last().0.index,
        ) {
            1nat
        } else {
            0
        })
    }
}

/// The difference that every measured stream of a name shows, where it is not zero.
pub open spec fn common_delta(s: Seq<(Episode, Stream)>, name: Seq<char>) -> Option<int>
    decreases s.len(),
{
    if s.len() == 0 {
        None
    } else {
        let rest = s.drop_last();
        if is_measured(s.last().1, name) {
            let d = length_delta(s.last().1);
            if d != Some(0int) && (last_measured(rest, name) is None || common_delta(rest, name) == d) {
                d
            } else {
                None
            }
        } else {
            common_delta(rest, name)
        }
    }
}

/// The difference that every measured episode of a stream shows, where at least two were measured:
/// the fingerprint of a systematic export defect. One measurement is not a pattern.
pub open spec fn systematic_delta(s: Seq<(Episode, Stream)>, name: Seq<char>) -> Option<int> {
    if measured_episodes(s, name) > 1 { common_delta(s, name) } else { None }
}

/// A common difference is that of every measured stream of the name, and not zero.
pub proof fn law_common_delta_is_common(s: Seq<(Episode, Stream)>, name: Seq<char>, i: int)
    requires
        common_delta(s, name) is Some,
        0 <= i < s.len(),
        is_measured(s[i].1, name),
    ensures
        length_delta(s[i].1) == common_delta(s, name),
        common_delta(s, name) != Some(0int),
    decreases s.len(),
{
    let rest = s.drop_last();
    if i < rest.len() {
        lemma_last_measured(rest, name, i);
        law_common_delta_is_common(rest, name, i);
    }
}

/// Where a stream was measured, a last one was.
proof fn lemma_last_measured(s: Seq<(Episode, Stream)>, name: Seq<char>, i: int)
    requires
        0 <= i < s.len(),
        is_measured(s[i].1, name),
    ensures
        last_measured(s, name) is Some,
    decreases s.len(),
{
    if !is_measured(s.last().1, name) {
        lemma_last_measured(s.drop_last(), name, i);
    }
}

/// What one stream's episodes have shown so far.
struct Pattern {
    /// The stream's name.
    name: String,
    /// The common difference.
    delta: Option<i128>,
    /// How many episodes were measured.
    measured: u128,
    /// The last of them.
    last_episode: u64,
}

/// Whether an entry says what the streams of its name have shown.
spec fn shows(p: Pattern, s: Seq<(Episode, Stream)>) -> bool {
    &&& measured_episodes(s, p.name@) == p.measured
    &&& last_measured(s, p.name@) == Some(p.last_episode)
    &&& match p.delta {
        Some(d) => common_delta(s, p.name@) == Some(d as int),
        None => common_delta(s, p.name@) is None,
    }
}

/// Whether a table says what streams have shown.
spec fn patterned(table: Seq<Pattern>, s: Seq<(Episode, Stream)>) -> bool {
    &&& forall|i: int| 0 <= i < table.len() ==> shows(#[trigger] table[i], s)
    &&& forall|i: int, j: int| 0 <= i < j < table.len() ==> (#[trigger] table[i]).name@ != (#[trigger] table[j]).name@
    &&& forall|name: Seq<char>|
        (forall|i: int| 0 <= i < table.len() ==> (#[trigger] table[i]).name@ != name) ==> #[trigger] last_measured(s, name) is None
            && measured_episodes(s, name) == 0 && common_delta(s, name) is None
}

/// There are no more measured episodes than streams.
proof fn lemma_measured_bound(s: Seq<(Episode, Stream)>, name: Seq<char>)
    ensures
        measured_episodes(s, name) <= s.len(),
    decreases s.len(),
{
    if s.len() > 0 {
        lemma_measured_bound(s.drop_last(), name);
    }
}

/// By how many frames a stream's container is longer than its rows.
fn measure(stream: &Stream) -> (r: Option<i128>)
    ensures
        match r {
            Some(d) => length_delta(*stream) == Some(d as int),
            None => length_delta(*stream) is None,
        },
{
    match &stream.media {
        Some(media) => match (&media.status, media.frame_count) {
            (MediaStatus::Read, Some(n)) => Some(n as i128 - stream.frames.len() as i128),
            _ => None,
        },
        None => None,
    }
}

/// The place of a name in a table.
fn find_pattern(table: &Vec<Pattern>, name: &str) -> (r: Option<usize>)
    ensures
        match r {
            Some(i) => i < table@.len() && table@[i as int].name@ == name@,
            None => forall|i: int| 0 <= i < table@.len() ==> (#[trigger] table@[i]).name@ != name@,
        },
{
    let mut i: usize = 0;
    while i < table.len()
        invariant
            i <= table@.len(),
            forall|k: int| 0 <= k < i ==> (#[trigger] table@[k]).name@ != name@,
        decreases table@.len() - i,
    {
        if same(table[i].name.as_str(), name) {
            return Some(i);
        }
        i = i + 1;
    }
    None
}

/// Weighs one stream more.
fn weigh(table: &mut Vec<Pattern>, episode: &Episode, stream: &Stream, Ghost(s): Ghost<Seq<(Episode, Stream)>>)
    requires
        patterned(old(table)@, s),
        s.len() < u128::MAX,
    ensures
        patterned(final(table)@, s.push((*episode, *stream))),
{
    let ghost now = s.push((*episode, *stream));
    let ghost was = table@;
    assert(now.drop_last() =~= s);
    let mut at: Option<usize> = None;
    let delta: Option<i128> = measure(stream);
    if let Some(d) = delta {
        at = find_pattern(table, stream.name.as_str());
        match at {
            Some(i) => {
                proof {
                    assert(shows(was[i as int], s));
                    lemma_measured_bound(s, stream.name@);
                }
                let mut entry: Pattern = table.remove(i);
                if entry.last_episode != episode.index {
                    entry.measured = entry.measured + 1;
                    entry.last_episode = episode.index;
                }
                entry.delta = match entry.delta {
                    Some(x) => if x == d && d != 0 {
                        Some(d)
                    } else {
                        None
                    },
                    None => None,
                };
                table.insert(i, entry);
            },
            None => {
                assert(last_measured(s, stream.name@) is None);
                table.push(
                    Pattern {
                        name: stream.name.clone(),
                        delta: if d == 0 {
                            None
                        } else {
                            Some(d)
                        },
                        measured: 1,
                        last_episode: episode.index,
                    },
                );
            },
        }
    }
    proof {
        let t = table@;
        assert forall|k: int| 0 <= k < t.len() implies shows(#[trigger] t[k], now) by {
            if k < was.len() {
                assert(shows(was[k], s));
                assert(t[k].name@ == was[k].name@);
                if at is Some && k != at->0 {
                    assert(was[k].name@ != was[at->0 as int].name@);
                    assert(t[k] == was[k]);
                }
                if at is None && delta is Some {
                    assert(was[k].name@ != stream.name@);
                }
            }
        }
        assert forall|a: int, b: int| 0 <= a < b < t.len() implies (#[trigger] t[a]).name@ != (#[trigger] t[b]).name@ by {
            assert(was[a].name@ == t[a].name@);
            if b < was.len() {
                assert(was[b].name@ == t[b].name@);
            }
        }
        assert forall|name: Seq<char>|
            (forall|k: int| 0 <= k < t.len() ==> (#[trigger] t[k]).name@ != name) implies #[trigger] last_measured(
            now,
            name,
        ) is None && measured_episodes(now, name) == 0 && common_delta(now, name) is None by {
            assert forall|k: int| 0 <= k < was.len() implies (#[trigger] was[k]).name@ != name by {
                assert(t[k].name@ == was[k].name@);
            }
            assert(last_measured(s, name) is None);
            if delta is Some && stream.name@ == name {
                match at {
                    Some(i) => {
                        assert(was[i as int].name@ == name);
                    },
                    None => {
                        assert(t[was.len() as int].name@ == name);
                    },
                }
            }
        }
    }
}

/// Weighs the streams of a dataset.
fn systematic_frame_delta(dataset: &Dataset) -> (r: Vec<Pattern>)
    ensures
        patterned(r@, walk::pairs(dataset.episodes@)),
{
    let ghost eps = dataset.episodes@;
    let mut table: Vec<Pattern> = Vec::new();
    let mut i: usize = 0;
    assert(walk::pairs(eps.take(0)) =~= Seq::empty());
    while i < dataset.episodes.len()
        invariant
            i <= eps.len(),
            eps == dataset.episodes@,
            patterned(table@, walk::pairs(eps.take(i as int))),
        decreases eps.len() - i,
    {
        let episode: &Episode = &dataset.episodes[i];
        proof {
            walk::lemma_pairs_next(eps, i as int);
        }
        let mut j: usize = 0;
        while j < episode.streams.len()
            invariant
                i < eps.len(),
                eps == dataset.episodes@,
                *episode == eps[i as int],
                j <= episode.streams@.len(),
                patterned(table@, walk::pairs_before(eps, i as int, j as int)),
            decreases episode.streams@.len() - j,
        {
            proof {
                walk::lemma_pairs_step(eps, i as int, j as int);
                let n = dataset.episodes.len();
                walk::lemma_pairs_len(eps, i as int, j as int);
            }
            weigh(&mut table, episode, &episode.streams[j], Ghost(walk::pairs_before(eps, i as int, j as int)));
            j = j + 1;
        }
        i = i + 1;
    }
    assert(eps.take(i as int) =~= eps);
    table
}

/// The systematic difference of a stream.
fn delta_of(table: &Vec<Pattern>, name: &str, Ghost(s): Ghost<Seq<(Episode, Stream)>>) -> (r: Option<i128>)
    requires
        patterned(table@, s),
    ensures
        match r {
            Some(d) => systematic_delta(s, name@) == Some(d as int),
            None => systematic_delta(s, name@) is None,
        },
{
    match find_pattern(table, name) {
        Some(i) => {
            assert(shows(table@[i as int], s));
            if table[i].measured > 1 {
                table[i].delta
            } else {
                None
            }
        },
        None => {
            assert(last_measured(s, name@) is None);
            None
        },
    }
}

// ---- conforming media ------------------------------------------------------------------------

/// The media file holds what the dataset says it holds: as many frames as the data stream, at the
/// declared resolution, codec, and rate.
///
/// Frame count is normally a per-episode fact and is reported per episode, except where every
/// episode's video is off by the same amount. Resolution, codec, and rate are always properties of
/// the export, so they are charged once per stream per distinct value.
#[derive(Debug)]
pub struct MediaConformance {
    /// Relative tolerance on the frames-per-second comparison.
    pub fps_tolerance: u64,
}

/// The id of [`MediaConformance`].
pub const CONFORMANCE_ID: &'static str = "video.media-conformance";

/// The code for a video of another length.
pub const FRAME_COUNT_CODE: &'static str = "VIDEO.FRAME_COUNT_MISMATCH";

/// The code for a video of another resolution.
pub const RESOLUTION_CODE: &'static str = "VIDEO.RESOLUTION_MISMATCH";

/// The code for a video in another codec.
pub const CODEC_CODE: &'static str = "VIDEO.CODEC_MISMATCH";

/// The code for a video of another frame rate.
pub const FPS_CODE: &'static str = "VIDEO.FPS_MISMATCH";

pub const FRAME_COUNT_RISK: &'static str = "A loader pairs video frame i with data row i. When the \
     two lengths differ, every pair past the shorter one is wrong or absent — the policy learns \
     actions against images from a different moment.";

pub const FRAME_COUNT_REMEDY: &'static str = "Re-export the episode so the video and the data table \
     are written from the same run; a video shorter than the table is usually an encode that \
     stopped early.";

/// The finding for an episode whose video has another length.
pub open spec fn frame_count_finding(
    episode: u64,
    name: Seq<char>,
    uri: Seq<char>,
    held: u64,
    recorded: nat,
) -> FindingView {
    check::finding(
        CONFORMANCE_ID@,
        Category::Video,
        Severity::Error,
        LocationView::Stream { episode, stream: name },
        FRAME_COUNT_CODE@,
        "episode "@ + text::dec(episode as nat) + " stream `"@ + name + "`: `"@ + uri + "` holds "@
            + text::dec(held as nat) + " frames but the episode records "@ + text::dec(recorded),
        FRAME_COUNT_RISK@,
        FRAME_COUNT_REMEDY@,
    )
}

/// The finding for an episode whose video has another length.
fn make_frame_count(episode: u64, name: &str, uri: &str, held: u64, recorded: u64) -> (r: Finding)
    ensures
        r@ == frame_count_finding(episode, name@, uri@, held, recorded as nat),
{
    let message: String = cat10(
        "episode ",
        dec_u64(episode).as_str(),
        " stream `",
        name,
        "`: `",
        uri,
        "` holds ",
        dec_u64(held).as_str(),
        " frames but the episode records ",
        dec_u64(recorded).as_str(),
    );
    Finding::new(CONFORMANCE_ID, Category::Video, Severity::Error, Location::Stream { episode, stream: String::from_str(name) }, FRAME_COUNT_CODE, message).with_risk(
        FRAME_COUNT_RISK,
    ).with_remedy(FRAME_COUNT_REMEDY)
}

/// A way in which an export departs from its manifest.
#[derive(Debug, Clone, Copy, PartialEq, Eq, Structural)]
pub enum Defect {
    /// Another codec.
    Codec,
    /// Another frame rate.
    Fps,
    /// Another length, by the same amount in every episode.
    FrameCount,
    /// Another resolution.
    Resolution,
}

/// Why another length matters.
pub const LENGTH_RISK: &'static str = "A loader pairs video frame i with data row i. When the two \
     lengths differ, every pair past the shorter one is wrong or absent — the policy learns actions \
     against images from a different moment. That every episode is off by the same amount points at \
     the export step rather than at any one recording.";

/// What to do about another length.
pub const LENGTH_REMEDY: &'static str = "Re-export so the video and the data table are written \
     from the same run; a constant offset across every episode is usually an encoder dropping a \
     leading frame or a converter counting from one.";

/// Why another resolution matters.
pub const RESOLUTION_RISK: &'static str = "The manifest's resolution is what preprocessing \
     pipelines size their tensors from. A container at a different resolution is silently rescaled \
     or crops the wrong region, so the policy sees a different image than the dataset promises.";

/// What to do about another resolution.
pub const RESOLUTION_REMEDY: &'static str = "Re-encode the video at the declared resolution, or \
     correct the declaration in the manifest — whichever of the two is the one that is wrong.";

/// Why another codec matters.
pub const CODEC_RISK: &'static str = "Consumers select a decoder from the declared codec. A file \
     in a different one either fails to open or takes a fallback path with different colour \
     handling, so the pixels differ from the ones the dataset was validated on.";

/// What to do about another codec.
pub const CODEC_REMEDY: &'static str = "Correct the declared codec in the manifest, or re-encode to it.";

/// Why another frame rate matters.
pub const FPS_RISK: &'static str = "Frame rate is how video time is converted to data time. A \
     container playing at a different rate drifts against the action timeline it is paired with, \
     growing the further into the episode it goes.";

/// What to do about another frame rate.
pub const FPS_REMEDY: &'static str = "Re-export the video at the declared rate, or correct the \
     declared rate — the data table's own timestamps say which one is right.";

impl Defect {
    /// Where the defect's code stands among the codes in byte order.
    pub open spec fn level(self) -> int {
        match self {
            Defect::Codec => 0,
            Defect::Fps => 1,
            Defect::FrameCount => 2,
            Defect::Resolution => 3,
        }
    }

    /// Where the defect's code stands among the codes in byte order.
    fn rank(self) -> (r: u8)
        ensures
            r as int == self.level(),
    {
        match self {
            Defect::Codec => 0,
            Defect::Fps => 1,
            Defect::FrameCount => 2,
            Defect::Resolution => 3,
        }
    }

    /// The defect's severity. Rolling a defect up changes how often it is reported, never how
    /// serious it is.
    pub open spec fn spec_severity(self) -> Severity {
        match self {
            Defect::FrameCount => Severity::Error,
            _ => Severity::Warning,
        }
    }

    /// The defect's severity.
    fn severity(self) -> (r: Severity)
        ensures
            r == self.spec_severity(),
    {
        match self {
            Defect::FrameCount => Severity::Error,
            _ => Severity::Warning,
        }
    }

    /// What the defect's findings say: code, subject, risk and remedy.
    pub open spec fn spec_wording(self) -> (Seq<char>, Seq<char>, Seq<char>, Seq<char>) {
        match self {
            Defect::Codec => (CODEC_CODE@, "video codec"@, CODEC_RISK@, CODEC_REMEDY@),
            Defect::Fps => (FPS_CODE@, "video frame rate"@, FPS_RISK@, FPS_REMEDY@),
            Defect::FrameCount => (FRAME_COUNT_CODE@, "video length"@, LENGTH_RISK@, LENGTH_REMEDY@),
            Defect::Resolution => (RESOLUTION_CODE@, "video resolution"@, RESOLUTION_RISK@, RESOLUTION_REMEDY@),
        }
    }

    /// What the defect's findings say: code, subject, risk and remedy.
    fn wording(self) -> (r: (&'static str, &'static str, &'static str, &'static str))
        ensures
            (r.0@, r.1@, r.2@, r.3@) == self.spec_wording(),
    {
        match self {
            Defect::Codec => (CODEC_CODE, "video codec", CODEC_RISK, CODEC_REMEDY),
            Defect::Fps => (FPS_CODE, "video frame rate", FPS_RISK, FPS_REMEDY),
            Defect::FrameCount => (FRAME_COUNT_CODE, "video length", LENGTH_RISK, LENGTH_REMEDY),
            Defect::Resolution => (RESOLUTION_CODE, "video resolution", RESOLUTION_RISK, RESOLUTION_REMEDY),
        }
    }
}

/// What an export defect is told apart by. Two episodes encoded at different wrong resolutions are
/// two defects.
pub struct DefectKeyView {
    /// The stream's name.
    pub name: Seq<char>,
    /// The defect.
    pub defect: Defect,
    /// What is different.
    pub detail: Seq<char>,
}

/// Whether a defect comes before another.
pub open spec fn key_lt(a: DefectKeyView, b: DefectKeyView) -> bool {
    if a.name != b.name {
        text::str_lt(a.name, b.name)
    } else if a.defect != b.defect {
        a.defect.level() < b.defect.level()
    } else {
        text::str_lt(a.detail, b.detail)
    }
}

/// The order of defects, as a function.
pub open spec fn key_order() -> spec_fn(DefectKeyView, DefectKeyView) -> bool {
    |a: DefectKeyView, b: DefectKeyView| key_lt(a, b)
}

/// A defect that an episode shows.
pub struct RecordView {
    /// The defect.
    pub key: DefectKeyView,
    /// The episode.
    pub episode: u64,
}

/// What a systematic difference in length is.
pub open spec fn length_detail(delta: int) -> Seq<char> {
    "every episode with a readable video is "@ + text::dec((if delta < 0 { -delta } else { delta }) as nat)
        + " frame(s) "@ + (if delta < 0 { "shorter"@ } else { "longer"@ }) + " than its rows"@
}

/// The systematic difference in length that a stream shows.
pub open spec fn length_defect(all: Seq<(Episode, Stream)>, stream: Stream) -> Option<Seq<char>> {
    match (length_delta(stream), systematic_delta(all, stream.name@)) {
        (Some(here), Some(delta)) => if here != 0 { Some(length_detail(delta)) } else { None },
        _ => None,
    }
}

/// The difference in resolution that a media file shows.
pub open spec fn resolution_defect(media: Media) -> Option<Seq<char>> {
    match (media.declared.width, media.declared.height, media.observed.width, media.observed.height) {
        (Some(dw), Some(dh), Some(ow), Some(oh)) => if dw != ow || dh != oh {
            Some(
                "declared "@ + text::dec(dw as nat) + "x"@ + text::dec(dh as nat) + ", container holds "@ + text::dec(
                    ow as nat,
                ) + "x"@ + text::dec(oh as nat),
            )
        } else {
            None
        },
        _ => None,
    }
}

/// The difference in codec that a media file shows. Both names must be known: encoder names are an
/// open namespace, and an unrecognized spelling means "cannot tell", which is not "differ".
pub open spec fn codec_defect(media: Media) -> Option<Seq<char>> {
    match (media.declared.codec, media.observed.codec) {
        (Some(d), Some(o)) => match (d.canonical, o.canonical) {
            (Some(x), Some(y)) => if x@ != y@ {
                Some("declared `"@ + d.name@ + "`, container holds `"@ + o.name@ + "`"@)
            } else {
                None
            },
            _ => None,
        },
        _ => None,
    }
}

/// The difference in frame rate that a media file shows. A declared rate that is no positive finite
/// number is corrupt metadata, which is reported elsewhere.
pub open spec fn fps_defect(tolerance: u64, media: Media) -> Option<Seq<char>> {
    match (media.declared.fps, media.observed.fps) {
        (Some(d), Some(o)) => if number::is_positive_finite(d) && number::is_positive_finite(o) && deviation::is_off(
            o as int,
            d as int,
            tolerance,
        ) {
            Some(
                "declared "@ + decimal::fixed_text(d, 3) + " fps, container plays at "@ + decimal::fixed_text(o, 3)
                    + " fps ("@ + deviation::percent_text(o as int, d as int) + "% off)"@,
            )
        } else {
            None
        },
        _ => None,
    }
}

/// One record, or none.
pub open spec fn maybe(detail: Option<Seq<char>>, defect: Defect, name: Seq<char>, episode: u64) -> Seq<RecordView> {
    match detail {
        Some(detail) => seq![RecordView { key: DefectKeyView { name, defect, detail }, episode }],
        None => Seq::empty(),
    }
}

/// The export defects that a stream shows.
pub open spec fn records_of(
    all: Seq<(Episode, Stream)>,
    tolerance: u64,
    episode: Episode,
    stream: Stream,
) -> Seq<RecordView> {
    match stream.media {
        Some(media) => if media.status is Read {
            let (name, e) = (stream.name@, episode.index);
            maybe(length_defect(all, stream), Defect::FrameCount, name, e) + maybe(
                resolution_defect(media),
                Defect::Resolution,
                name,
                e,
            ) + maybe(codec_defect(media), Defect::Codec, name, e) + maybe(
                fps_defect(tolerance, media),
                Defect::Fps,
                name,
                e,
            )
        } else {
            Seq::empty()
        },
        None => Seq::empty(),
    }
}

/// The export defects that streams show, in order.
pub open spec fn all_records(all: Seq<(Episode, Stream)>, tolerance: u64, s: Seq<(Episode, Stream)>) -> Seq<RecordView>
    decreases s.len(),
{
    if s.len() == 0 {
        Seq::empty()
    } else {
        all_records(all, tolerance, s.drop_last()) + records_of(all, tolerance, s.last().0, s.last().1)
    }
}

/// What is reported of one stream alone.
pub open spec fn own_findings(all: Seq<(Episode, Stream)>, episode: Episode, stream: Stream) -> Seq<FindingView> {
    match length_delta(stream) {
        Some(d) => if d != 0 && systematic_delta(all, stream.name@) is None {
            seq![
                frame_count_finding(
                    episode.index,
                    stream.name@,
                    stream.media->0.uri@,
                    stream.media->0.frame_count->0,
                    stream.frames@.len(),
                ),
            ]
        } else {
            Seq::empty()
        },
        None => Seq::empty(),
    }
}

/// What is reported of streams one by one.
pub open spec fn each_findings(all: Seq<(Episode, Stream)>, s: Seq<(Episode, Stream)>) -> Seq<FindingView>
    decreases s.len(),
{
    if s.len() == 0 {
        Seq::empty()
    } else {
        each_findings(all, s.drop_last()) + own_findings(all, s.last().0, s.last().1)
    }
}

/// The defects of records, as they come.
pub open spec fn record_keys(records: Seq<RecordView>) -> Seq<DefectKeyView> {
    records.map_values(|r: RecordView| r.key)
}

/// The first and the last episode that shows a defect, and how many do.
pub open spec fn occurrence(records: Seq<RecordView>, key: DefectKeyView) -> Option<(u64, u64, nat)>
    decreases records.len(),
{
    if records.len() == 0 {
        None
    } else {
        let rest = occurrence(records.drop_last(), key);
        let r = records.last();
        if r.key == key {
            match rest {
                Some((first, last, n)) => if last != r.episode {
                    Some((first, r.episode, n + 1))
                } else {
                    rest
                },
                None => Some((r.episode, r.episode, 1)),
            }
        } else {
            rest
        }
    }
}

/// Where a defect was seen.
pub open spec fn seen_text(first: u64, episodes: nat) -> Seq<char> {
    if episodes == 1 {
        "episode "@ + text::dec(first as nat)
    } else {
        text::dec(episodes) + " episodes, first at episode "@ + text::dec(first as nat)
    }
}

/// The finding for an export defect.
pub open spec fn export_finding(key: DefectKeyView, first: u64, episodes: nat) -> FindingView {
    let (code, subject, risk, remedy) = key.defect.spec_wording();
    check::finding(
        CONFORMANCE_ID@,
        Category::Video,
        key.defect.spec_severity(),
        LocationView::Stream { episode: first, stream: key.name },
        code,
        "stream `"@ + key.name + "`: "@ + subject + " disagrees with the manifest — "@ + key.detail + " ("@ + seen_text(
            first,
            episodes,
        ) + ")"@,
        risk,
        remedy,
    )
}

/// What is reported of export defects.
pub open spec fn export_findings(records: Seq<RecordView>, keys: Seq<DefectKeyView>) -> Seq<FindingView>
    decreases keys.len(),
{
    if keys.len() == 0 {
        Seq::empty()
    } else {
        let rest = export_findings(records, keys.drop_last());
        match occurrence(records, keys.last()) {
            Some((first, _, n)) => rest.push(export_finding(keys.last(), first, n)),
            None => rest,
        }
    }
}

/// What an export defect is told apart by.
struct DefectKey {
    /// The stream's name.
    name: String,
    /// The defect.
    defect: Defect,
    /// What is different.
    detail: String,
}

impl View for DefectKey {
    type V = DefectKeyView;

    closed spec fn view(&self) -> DefectKeyView {
        DefectKeyView { name: self.name@, defect: self.defect, detail: self.detail@ }
    }
}

/// A defect that an episode shows.
struct Record {
    /// The defect.
    key: DefectKey,
    /// The episode.
    episode: u64,
}

impl View for Record {
    type V = RecordView;

    closed spec fn view(&self) -> RecordView {
        RecordView { key: self.key@, episode: self.episode }
    }
}

/// What records are.
spec fn record_views(s: Seq<Record>) -> Seq<RecordView> {
    s.map_values(|r: Record| r@)
}

/// What defects are.
spec fn key_views(s: Seq<DefectKey>) -> Seq<DefectKeyView> {
    s.map_values(|k: DefectKey| k@)
}

/// Whether a defect comes before another.
fn key_before(a: &DefectKey, b: &DefectKey) -> (r: bool)
    ensures
        r == key_lt(a@, b@),
{
    proof {
        text::lemma_str_trichotomy(a.name@, b.name@);
    }
    if before(a.name.as_str(), b.name.as_str()) {
        true
    } else if before(b.name.as_str(), a.name.as_str()) {
        false
    } else if a.defect.rank() != b.defect.rank() {
        a.defect.rank() < b.defect.rank()
    } else {
        before(a.detail.as_str(), b.detail.as_str())
    }
}

/// Whether two defects are one.
fn same_key(a: &DefectKey, b: &DefectKey) -> (r: bool)
    ensures
        r == (a@ == b@),
{
    a.defect.rank() == b.defect.rank() && same(a.name.as_str(), b.name.as_str()) && same(
        a.detail.as_str(),
        b.detail.as_str(),
    )
}

/// Puts a defect in its place in an ordered list.
fn put_key(list: &mut Vec<DefectKey>, key: &DefectKey)
    ensures
        key_views(final(list)@) == seqs::with_new(key_views(old(list)@), key@, key_order()),
{
    let ghost v = key_views(list@);
    let mut i: usize = 0;
    while i < list.len() && key_before(&list[i], key)
        invariant
            i <= list@.len(),
            list@ == old(list)@,
            v == key_views(list@),
            forall|k: int| 0 <= k < i ==> key_lt(#[trigger] v[k], key@),
        decreases list@.len() - i,
    {
        assert(v[i as int] == list@[i as int]@);
        i = i + 1;
    }
    proof {
        if i < list@.len() {
            assert(v[i as int] == list@[i as int]@);
        }
        seqs::lemma_with_new_at(v, key@, key_order(), i as int);
    }
    if !(i < list.len() && same_key(&list[i], key)) {
        let copy: DefectKey = DefectKey {
            name: key.name.clone(),
            defect: key.defect,
            detail: key.detail.clone(),
        };
        assert(copy@ == key@);
        let ghost was = list@;
        list.insert(i, copy);
        assert(key_views(list@) =~= v.insert(i as int, key@));
    }
}

/// Adds a record.
fn note(records: &mut Vec<Record>, name: &str, defect: Defect, detail: String, episode: u64)
    ensures
        record_views(final(records)@) == record_views(old(records)@) + maybe(Some(detail@), defect, name@, episode),
{
    let ghost was = records@;
    let r: Record = Record { key: DefectKey { name: String::from_str(name), defect, detail }, episode };
    let ghost v = r@;
    records.push(r);
    assert(record_views(records@) =~= record_views(was).push(v));
    assert(record_views(was).push(v) =~= record_views(was) + seq![v]);
}

/// What a systematic difference in length is.
fn describe_length(delta: i128) -> (r: String)
    requires
        -0x1_0000_0000_0000_0000 <= delta <= 0x1_0000_0000_0000_0000,
    ensures
        r@ == length_detail(delta as int),
{
    let size: u128 = if delta < 0 { (-delta) as u128 } else { delta as u128 };
    let direction: &str = if delta < 0 { "shorter" } else { "longer" };
    cat5(
        "every episode with a readable video is ",
        dec_u128(size).as_str(),
        " frame(s) ",
        direction,
        " than its rows",
    )
}

/// A common difference fits.
proof fn lemma_delta_bound(s: Seq<(Episode, Stream)>, name: Seq<char>)
    ensures
        common_delta(s, name) matches Some(d) ==> -0x1_0000_0000_0000_0000 <= d <= 0x1_0000_0000_0000_0000,
    decreases s.len(),
{
    if s.len() > 0 {
        lemma_delta_bound(s.drop_last(), name);
        let n = s.last().1.frames.len();
        assert(n == s.last().1.frames@.len());
    }
}

/// Records how a media file's encoding departs from the declared one.
fn inspect_encoding(records: &mut Vec<Record>, tolerance: u64, name: &str, media: &Media, episode: u64)
    ensures
        record_views(final(records)@) == record_views(old(records)@) + maybe(
            resolution_defect(*media),
            Defect::Resolution,
            name@,
            episode,
        ) + maybe(codec_defect(*media), Defect::Codec, name@, episode) + maybe(
            fps_defect(tolerance, *media),
            Defect::Fps,
            name@,
            episode,
        ),
{
    let ghost v0 = record_views(records@);
    if let (Some(dw), Some(dh), Some(ow), Some(oh)) = (
        media.declared.width,
        media.declared.height,
        media.observed.width,
        media.observed.height,
    ) {
        if dw != ow || dh != oh {
            let detail: String = cat8(
                "declared ",
                dec_u64(dw).as_str(),
                "x",
                dec_u64(dh).as_str(),
                ", container holds ",
                dec_u64(ow).as_str(),
                "x",
                dec_u64(oh).as_str(),
            );
            note(records, name, Defect::Resolution, detail, episode);
        }
    }
    let ghost v1 = record_views(records@);
    assert(v1 =~= v0 + maybe(resolution_defect(*media), Defect::Resolution, name@, episode));
    if let (Some(d), Some(o)) = (&media.declared.codec, &media.observed.codec) {
        if let (Some(x), Some(y)) = (&d.canonical, &o.canonical) {
            if !same(x.as_str(), y.as_str()) {
                let detail: String = cat5(
                    "declared `",
                    d.name.as_str(),
                    "`, container holds `",
                    o.name.as_str(),
                    "`",
                );
                note(records, name, Defect::Codec, detail, episode);
            }
        }
    }
    let ghost v2 = record_views(records@);
    assert(v2 =~= v1 + maybe(codec_defect(*media), Defect::Codec, name@, episode));
    if let (Some(d), Some(o)) = (media.declared.fps, media.observed.fps) {
        if number::positive_finite(d) && number::positive_finite(o) && deviation::off(o as i128, d as i128, tolerance) {
            let detail: String = cat7(
                "declared ",
                decimal::fixed(d, 3).as_str(),
                " fps, container plays at ",
                decimal::fixed(o, 3).as_str(),
                " fps (",
                deviation::percent(o as i128, d as i128).as_str(),
                "% off)",
            );
            note(records, name, Defect::Fps, detail, episode);
        }
    }
    assert(record_views(records@) =~= v2 + maybe(fps_defect(tolerance, *media), Defect::Fps, name@, episode));
}

/// Inspects one stream: reports its own defect, and records those of the export.
fn inspect(
    tolerance: u64,
    table: &Vec<Pattern>,
    out: &mut Vec<Finding>,
    records: &mut Vec<Record>,
    episode: &Episode,
    stream: &Stream,
    Ghost(all): Ghost<Seq<(Episode, Stream)>>,
)
    requires
        patterned(table@, all),
    ensures
        check::views(final(out)@) == check::views(old(out)@) + own_findings(all, *episode, *stream),
        record_views(final(records)@) == record_views(old(records)@) + records_of(all, tolerance, *episode, *stream),
{
    broadcast use check::group_views;

    let ghost was = check::views(out@);
    let ghost v0 = record_views(records@);
    let name: &str = stream.name.as_str();
    if let Some(media) = &stream.media {
        if let MediaStatus::Read = &media.status {
            if let (Some(held), Some(d)) = (media.frame_count, measure(stream)) {
                if d != 0 {
                    match delta_of(table, name, Ghost(all)) {
                        Some(delta) => {
                            proof {
                                lemma_delta_bound(all, name@);
                            }
                            note(records, name, Defect::FrameCount, describe_length(delta), episode.index);
                        },
                        None => {
                            out.push(
                                make_frame_count(
                                    episode.index,
                                    name,
                                    media.uri.as_str(),
                                    held,
                                    stream.frames.len() as u64,
                                ),
                            );
                        },
                    }
                }
            }
            let ghost v1 = record_views(records@);
            assert(v1 =~= v0 + maybe(length_defect(all, *stream), Defect::FrameCount, name@, episode.index));
            inspect_encoding(records, tolerance, name, media, episode.index);
        }
    }
    assert(check::views(out@) =~= was + own_findings(all, *episode, *stream));
    assert(record_views(records@) =~= v0 + records_of(all, tolerance, *episode, *stream));
}

/// The first and the last episode that shows a defect, and how many do.
fn find_occurrence(records: &Vec<Record>, key: &DefectKey) -> (r: Option<(u64, usize)>)
    ensures
        match r {
            Some((first, n)) => occurrence(record_views(records@), key@) matches Some((a, _, m)) && a == first && m == n,
            None => occurrence(record_views(records@), key@) is None,
        },
{
    let ghost v = record_views(records@);
    let mut found: Option<(u64, u64, usize)> = None;
    let mut i: usize = 0;
    while i < records.len()
        invariant
            i <= records@.len(),
            v == record_views(records@),
            match found {
                Some((first, last, n)) => n <= i && occurrence(v.take(i as int), key@) == Some((first, last, n as nat)),
                None => occurrence(v.take(i as int), key@) is None,
            },
        decreases records@.len() - i,
    {
        assert(v[i as int] == records@[i as int]@);
        assert(v.take(i + 1).drop_last() =~= v.take(i as int));
        let e: u64 = records[i].episode;
        if same_key(&records[i].key, key) {
            found = match found {
                Some((first, last, n)) => if last != e {
                    Some((first, e, n + 1))
                } else {
                    Some((first, last, n))
                },
                None => Some((e, e, 1)),
            };
        }
        i = i + 1;
    }
    assert(v.take(i as int) =~= v);
    match found {
        Some((first, _, n)) => Some((first, n)),
        None => None,
    }
}

/// The finding for an export defect.
fn make_export(key: &DefectKey, first: u64, episodes: usize) -> (r: Finding)
    ensures
        r@ == export_finding(key@, first, episodes as nat),
{
    let (code, subject, risk, remedy): (&'static str, &'static str, &'static str, &'static str) = key.defect.wording();
    let seen: String = if episodes == 1 {
        cat2("episode ", dec_u64(first).as_str())
    } else {
        cat3(dec_usize(episodes).as_str(), " episodes, first at episode ", dec_u64(first).as_str())
    };
    let message: String = cat9(
        "stream `",
        key.name.as_str(),
        "`: ",
        subject,
        " disagrees with the manifest — ",
        key.detail.as_str(),
        " (",
        seen.as_str(),
        ")",
    );
    Finding::new(
        CONFORMANCE_ID,
        Category::Video,
        key.defect.severity(),
        Location::Stream { episode: first, stream: key.name.clone() },
        code,
        message,
    ).with_risk(risk).with_remedy(remedy)
}

/// The defects of records, in order.
fn collect_keys(records: &Vec<Record>) -> (r: Vec<DefectKey>)
    ensures
        key_views(r@) == seqs::distinct(record_keys(record_views(records@)), key_order()),
{
    let ghost k = record_keys(record_views(records@));
    let mut out: Vec<DefectKey> = Vec::new();
    let mut i: usize = 0;
    assert(key_views(out@) =~= Seq::empty());
    while i < records.len()
        invariant
            i <= records@.len(),
            k == record_keys(record_views(records@)),
            key_views(out@) == seqs::distinct(k.take(i as int), key_order()),
        decreases records@.len() - i,
    {
        proof {
            assert(record_views(records@)[i as int] == records@[i as int]@);
            assert(k[i as int] == records@[i as int].key@);
            assert(k.take(i + 1) =~= k.take(i as int).push(k[i as int]));
            seqs::lemma_distinct_step(k.take(i as int), key_order(), k[i as int]);
        }
        put_key(&mut out, &records[i].key);
        i = i + 1;
    }
    assert(k.take(i as int) =~= k);
    out
}

/// Reports the export defects.
fn report_exports(records: &Vec<Record>) -> (r: Vec<Finding>)
    ensures
        check::views(r@) == export_findings(
            record_views(records@),
            seqs::distinct(record_keys(record_views(records@)), key_order()),
        ),
{
    broadcast use check::group_views;

    let keys: Vec<DefectKey> = collect_keys(records);
    let ghost v = record_views(records@);
    let ghost k = key_views(keys@);
    let mut out: Vec<Finding> = Vec::new();
    let mut i: usize = 0;
    while i < keys.len()
        invariant
            i <= keys@.len(),
            v == record_views(records@),
            k == key_views(keys@),
            check::views(out@) == export_findings(v, k.take(i as int)),
        decreases keys@.len() - i,
    {
        assert(k[i as int] == keys@[i as int]@);
        assert(k.take(i + 1).drop_last() =~= k.take(i as int));
        if let Some((first, n)) = find_occurrence(records, &keys[i]) {
            out.push(make_export(&keys[i], first, n));
        }
        i = i + 1;
    }
    assert(k.take(i as int) =~= k);
    out
}

impl MediaConformance {
    /// What the check reports.
    pub open spec fn outcome(&self, dataset: &Dataset) -> Seq<FindingView> {
        let all = walk::pairs(dataset.episodes@);
        let records = all_records(all, self.fps_tolerance, all);
        each_findings(all, all) + export_findings(records, seqs::distinct(record_keys(records), key_order()))
    }

    /// Reports the media files that do not hold what the dataset says they hold.
    pub fn evaluate(&self, dataset: &Dataset) -> (r: Vec<Finding>)
        ensures
            check::views(r@) == self.outcome(dataset),
    {
        broadcast use check::group_views;

        let ghost eps = dataset.episodes@;
        let ghost all = walk::pairs(eps);
        let tolerance: u64 = self.fps_tolerance;
        let table: Vec<Pattern> = systematic_frame_delta(dataset);
        let mut records: Vec<Record> = Vec::new();
        let mut out: Vec<Finding> = Vec::new();
        let mut i: usize = 0;
        assert(walk::pairs(eps.take(0)) =~= Seq::empty());
        assert(record_views(records@) =~= Seq::empty());
        while i < dataset.episodes.len()
            invariant
                i <= eps.len(),
                eps == dataset.episodes@,
                patterned(table@, all),
                check::views(out@) == each_findings(all, walk::pairs(eps.take(i as int))),
                record_views(records@) == all_records(all, tolerance, walk::pairs(eps.take(i as int))),
            decreases eps.len() - i,
        {
            let episode: &Episode = &dataset.episodes[i];
            proof {
                walk::lemma_pairs_next(eps, i as int);
            }
            let mut j: usize = 0;
            while j < episode.streams.len()
                invariant
                    i < eps.len(),
                    *episode == eps[i as int],
                    j <= episode.streams@.len(),
                    patterned(table@, all),
                    check::views(out@) == each_findings(all, walk::pairs_before(eps, i as int, j as int)),
                    record_views(records@) == all_records(all, tolerance, walk::pairs_before(eps, i as int, j as int)),
                decreases episode.streams@.len() - j,
            {
                proof {
                    let s = walk::pairs_before(eps, i as int, j as int);
                    walk::lemma_pairs_step(eps, i as int, j as int);
                    assert(s.push((*episode, episode.streams@[j as int])).drop_last() =~= s);
                }
                inspect(tolerance, &table, &mut out, &mut records, episode, &episode.streams[j], Ghost(all));
                j = j + 1;
            }
            i = i + 1;
        }
        assert(eps.take(i as int) =~= eps);
        let mut more: Vec<Finding> = report_exports(&records);
        out.append(&mut more);
        out
    }
}

impl Check for MediaConformance {
    open spec fn meta(&self) -> CheckMeta {
        CheckMeta {
            id: CONFORMANCE_ID@,
            title: "Media matches its declared encoding and paired data"@,
            category: Category::Video,
            default_severity: Severity::Error,
            scope: Scope::Stream,
            version: "1"@,
            finding_codes: seq![FRAME_COUNT_CODE@, RESOLUTION_CODE@, CODEC_CODE@, FPS_CODE@],
        }
    }

    fn info(&self) -> (r: CheckInfo) {
        let finding_codes: &'static [&'static str] = &[FRAME_COUNT_CODE, RESOLUTION_CODE, CODEC_CODE, FPS_CODE];
        assert(text::str_texts(finding_codes@) =~= self.meta().finding_codes);
        CheckInfo {
            id: CONFORMANCE_ID,
            title: "Media matches its declared encoding and paired data",
            category: Category::Video,
            default_severity: Severity::Error,
            scope: Scope::Stream,
            version: "1",
            finding_codes,
        }
    }

    open spec fn report(&self, dataset: &Dataset) -> Seq<FindingView> {
        self.outcome(dataset)
    }

    open spec fn report_in(&self, dataset: &Dataset, frames_read: bool, attested: Seq<Seq<char>>) -> Seq<FindingView> {
        self.report(dataset)
    }

    fn run(&self, dataset: &Dataset) -> (r: Vec<Finding>) {
        self.evaluate(dataset)
    }

    fn run_in(&self, dataset: &Dataset, context: &CheckContext) -> (r: Vec<Finding>) {
        self.run(dataset)
    }
}

} // verus!
