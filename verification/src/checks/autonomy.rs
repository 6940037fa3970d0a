//! Autonomy sensor-rig checks: time sync, positioning, completeness and the ego trajectory.

use vstd::prelude::*;
use vstd::string::*;

use crate::cat::{cat5, cat13, cat15};
use crate::cdm::{Dataset, DimStats, Episode, Modality, Stream, StreamStats};
use crate::check;
use crate::check::{none, one, Category, Check, CheckContext, CheckInfo, CheckMeta, Finding, FindingView, Location, LocationView, Scope, Severity};
use crate::checks::frames;
use crate::checks::timeline;
use crate::checks::walk;
use crate::checks::walk::{walk_episode_streams, walk_episodes, walk_streams, EpisodeRule, StreamRule};
use crate::decimal;
use crate::double;
use crate::number;
use crate::seqs;
use crate::sort::sort_numbers;
use crate::text;
use crate::text::{before, dec_i64, dec_u64, dec_usize};

verus! {

// ---- rigs ------------------------------------------------------------------------------------

/// Number of AV-native rig sensors (LiDAR/IMU/GNSS/CAN/ego-pose) an episode must carry to be treated
/// as a sensor rig. At this threshold the dataset is unambiguously an autonomy rig, not a
/// manipulation dataset, so cross-sensor sync is reported rig-wide rather than pairwise.
pub const RIG_SENSOR_THRESHOLD: usize = 3;

/// How many streams are of a rig sensor.
pub open spec fn rig_sensors(streams: Seq<Stream>) -> nat
    decreases streams.len(),
{
    if streams.len() == 0 {
        0
    } else {
        rig_sensors(streams.drop_last()) + (if streams.last().modality.spec_is_rig_sensor() { 1nat } else { 0 })
    }
}

/// Whether streams are of rig sensors of at least two kinds.
pub open spec fn mixes_rig_sensors(streams: Seq<Stream>) -> bool {
    exists|i: int, j: int|
        0 <= i < streams.len() && 0 <= j < streams.len() && (#[trigger] streams[i]).modality.spec_is_rig_sensor()
            && (#[trigger] streams[j]).modality.spec_is_rig_sensor() && streams[i].modality != streams[j].modality
}

/// Whether an episode is an autonomy sensor rig: it carries at least [`RIG_SENSOR_THRESHOLD`] rig
/// sensors, of at least two kinds. A bus log is dozens of signals off one bus, not several sensors
/// observing the world from different places.
pub open spec fn is_rig(episode: Episode) -> bool {
    rig_sensors(episode.streams@) >= RIG_SENSOR_THRESHOLD && mixes_rig_sensors(episode.streams@)
}

/// Whether an episode is an autonomy sensor rig.
pub fn is_rig_episode(ep: &Episode) -> (r: bool)
    ensures
        r == is_rig(*ep),
{
    let mut count: usize = 0;
    let mut first: Option<usize> = None;
    let mut mixed: bool = false;
    let mut i: usize = 0;
    let ghost s = ep.streams@;
    while i < ep.streams.len()
        invariant
            i <= s.len(),
            s == ep.streams@,
            count <= i,
            count as nat == rig_sensors(s.take(i as int)),
            match first {
                Some(a) => a < i && s[a as int].modality.spec_is_rig_sensor(),
                None => forall|k: int| 0 <= k < i ==> !(#[trigger] s[k]).modality.spec_is_rig_sensor(),
            },
            mixed ==> mixes_rig_sensors(s),
            !mixed ==> forall|k: int|
                0 <= k < i && (#[trigger] s[k]).modality.spec_is_rig_sensor() ==> first is Some && s[k].modality
                    == s[first->0 as int].modality,
        decreases s.len() - i,
    {
        assert(s.take(i + 1).drop_last() =~= s.take(i as int));
        let m: Modality = ep.streams[i].modality;
        if m.is_rig_sensor() {
            count = count + 1;
            match first {
                Some(a) => {
                    if ep.streams[a].modality != m {
                        assert(s[a as int].modality != s[i as int].modality);
                        mixed = true;
                    }
                },
                None => {
                    first = Some(i);
                },
            }
        }
        i = i + 1;
    }
    assert(s.take(i as int) =~= s);
    count >= RIG_SENSOR_THRESHOLD && mixed
}

// ---- rig-wide time sync ----------------------------------------------------------------------

/// **Rig-wide time sync.** Across an autonomy rig's sensors, the streams recorded over one drive
/// segment should span the same real-time duration. The rig-wide *spread* — the widest sensor span
/// minus the tightest — is the worst cross-sensor drift; when it exceeds the tolerance a sensor came
/// online late, dropped out early, or ran on a drifting clock. It emits **one** finding per episode
/// naming the tightest- and widest-spanning sensors, and it compares *durations*, so it needs no
/// shared epoch across differing clocks.
#[derive(Debug, Clone, Copy)]
pub struct RigSync {
    /// Maximum tolerated spread (widest − tightest span) across the rig's sensors, in nanoseconds.
    pub tolerance_ns: i64,
}

impl Default for RigSync {
    /// Fifty milliseconds.
    fn default() -> (r: Self)
        ensures
            r.tolerance_ns == 50_000_000,
    {
        RigSync { tolerance_ns: 50_000_000 }
    }
}

/// The id of [`RigSync`].
pub const RIG_SYNC_ID: &'static str = "autonomy.rig-sync";

/// The code of its findings.
pub const RIG_SYNC_CODE: &'static str = "AUTONOMY.RIG_SYNC";

pub const RIG_SYNC_RISK: &'static str = "A sensor out of sync with the rest of the rig mis-aligns \
     its observations from every other sensor and from the ego trajectory, so fused perception \
     and world-model training learn from inconsistent snapshots of the scene.";

pub const RIG_SYNC_REMEDY: &'static str = "Re-synchronize the rig against a common time base, or \
     record and apply per-sensor trigger/latency offsets before fusing.";

/// The finding for a rig out of sync.
pub open spec fn rig_sync_finding(
    episode: u64,
    tight: Seq<char>,
    tight_ns: nat,
    wide: Seq<char>,
    wide_ns: nat,
    spread: nat,
    sensors: nat,
) -> FindingView {
    check::finding(
        RIG_SYNC_ID@,
        Category::Autonomy,
        Severity::Error,
        LocationView::Episode { episode },
        RIG_SYNC_CODE@,
        "episode "@ + text::dec(episode as nat) + ": rig sensors are out of sync — `"@ + tight
            + "` spans "@ + number::millis_text(tight_ns) + " ms but `"@ + wide + "` spans "@
            + number::millis_text(wide_ns) + " ms, a "@ + number::millis_text(spread)
            + " ms drift across "@ + text::dec(sensors) + " sensors"@,
        RIG_SYNC_RISK@,
        RIG_SYNC_REMEDY@,
    )
}

/// The finding for a rig out of sync.
fn make_rig_sync(
    episode: u64,
    tight: &str,
    tight_ns: u64,
    wide: &str,
    wide_ns: u64,
    spread: u64,
    sensors: usize,
) -> (r: Finding)
    ensures
        r@ == rig_sync_finding(episode, tight@, tight_ns as nat, wide@, wide_ns as nat, spread as nat, sensors as nat),
{
    let message: String = cat15(
        "episode ",
        dec_u64(episode).as_str(),
        ": rig sensors are out of sync — `",
        tight,
        "` spans ",
        number::millis(tight_ns).as_str(),
        " ms but `",
        wide,
        "` spans ",
        number::millis(wide_ns).as_str(),
        " ms, a ",
        number::millis(spread).as_str(),
        " ms drift across ",
        dec_usize(sensors).as_str(),
        " sensors",
    );
    Finding::new(RIG_SYNC_ID, Category::Autonomy, Severity::Error, Location::Episode { episode }, RIG_SYNC_CODE, message).with_risk(
        RIG_SYNC_RISK,
    ).with_remedy(RIG_SYNC_REMEDY)
}

/// What a sensor's timeline spans.
pub struct SpanView {
    /// The sensor's name.
    pub name: Seq<char>,
    /// The span, in nanoseconds.
    pub span: int,
    /// The sampling period, in nanoseconds.
    pub period: int,
}

/// The order of spans: by length, then by name.
pub open spec fn span_lt(a: SpanView, b: SpanView) -> bool {
    a.span < b.span || (a.span == b.span && text::str_lt(a.name, b.name))
}

/// The order of spans, as a function.
pub open spec fn span_order() -> spec_fn(SpanView, SpanView) -> bool {
    |a: SpanView, b: SpanView| span_lt(a, b)
}

/// Whether a stream is of a sensor with a measurable span. A log topic, a parameter event or a
/// latched transform tree samples nothing.
pub open spec fn has_span(s: Stream) -> bool {
    !(s.modality is Other) && s.frames@.len() > 0 && timeline::span(s.frames@) > 0
}

/// The span of a stream.
pub open spec fn span_of(s: Stream) -> SpanView {
    SpanView { name: s.name@, span: timeline::span(s.frames@), period: timeline::period(s) }
}

/// The spans of the sensors, as they come.
pub open spec fn spans_of(streams: Seq<Stream>) -> Seq<SpanView>
    decreases streams.len(),
{
    if streams.len() == 0 {
        Seq::empty()
    } else if has_span(streams.last()) {
        spans_of(streams.drop_last()).push(span_of(streams.last()))
    } else {
        spans_of(streams.drop_last())
    }
}

/// The sum of two numbers, kept within 64 bits from above.
pub open spec fn capped_sum(a: int, b: int) -> int {
    if a + b > i64::MAX { i64::MAX as int } else { a + b }
}

/// The greater of two numbers.
pub open spec fn greater(a: int, b: int) -> int {
    if a >= b { a } else { b }
}

/// What a sensor's timeline spans.
struct Span {
    /// The sensor's name.
    name: String,
    /// The span.
    span: i64,
    /// The sampling period.
    period: i64,
}

impl View for Span {
    type V = SpanView;

    closed spec fn view(&self) -> SpanView {
        SpanView { name: self.name@, span: self.span as int, period: self.period as int }
    }
}

/// What spans are.
spec fn span_views(s: Seq<Span>) -> Seq<SpanView> {
    s.map_values(|x: Span| x@)
}

/// Whether spans are positive and ascend.
spec fn spans_ascend(s: Seq<Span>) -> bool {
    &&& forall|i: int| 0 <= i < s.len() ==> (#[trigger] s[i]).span > 0 && s[i].period >= 0
    &&& forall|i: int, j: int| 0 <= i < j < s.len() ==> (#[trigger] s[i]).span <= (#[trigger] s[j]).span
}

/// The spans of the sensors, sorted.
fn sorted_spans(streams: &Vec<Stream>) -> (r: Vec<Span>)
    ensures
        span_views(r@) == seqs::sorted(spans_of(streams@), span_order()),
        spans_ascend(r@),
        r@.len() <= streams@.len(),
{
    let mut out: Vec<Span> = Vec::new();
    let mut i: usize = 0;
    let ghost s = streams@;
    assert(span_views(out@) =~= Seq::empty());
    while i < streams.len()
        invariant
            i <= s.len(),
            s == streams@,
            span_views(out@) == seqs::sorted(spans_of(s.take(i as int)), span_order()),
            spans_ascend(out@),
            out@.len() <= i,
        decreases s.len() - i,
    {
        let stream: &Stream = &streams[i];
        assert(s.take(i + 1).drop_last() =~= s.take(i as int));
        if stream.modality.is_sensor() {
            if let Some((lo, hi)) = timeline::span_bounds(stream) {
                let span: i64 = timeline::gap_of(lo, hi);
                if span > 0 {
                    let x: Span = Span {
                        name: stream.name.clone(),
                        span,
                        period: timeline::sampling_period_ns(stream),
                    };
                    let ghost v = x@;
                    let ghost was = span_views(out@);
                    let ghost had = spans_of(s.take(i as int));
                    let mut k: usize = 0;
                    while k < out.len() && !(x.span < out[k].span || (x.span == out[k].span && before(
                        x.name.as_str(),
                        out[k].name.as_str(),
                    )))
                        invariant
                            k <= out@.len(),
                            was == span_views(out@),
                            v == x@,
                            forall|j: int| 0 <= j < k ==> !span_lt(v, #[trigger] was[j]),
                        decreases out@.len() - k,
                    {
                        assert(was[k as int] == out@[k as int]@);
                        k = k + 1;
                    }
                    proof {
                        if k < out@.len() {
                            assert(was[k as int] == out@[k as int]@);
                        }
                        seqs::lemma_placed_at(was, v, span_order(), k as int);
                        assert(had.push(v).drop_last() =~= had);
                    }
                    let ghost old_list = out@;
                    out.insert(k, x);
                    proof {
                        assert(span_views(out@) =~= was.insert(k as int, v));
                        assert forall|p: int, q: int| 0 <= p < q < out@.len() implies (#[trigger] out@[p]).span
                            <= (#[trigger] out@[q]).span by {
                            if p == k {
                                assert(out@[q] == old_list[q - 1]);
                                assert(was[k as int] == old_list[k as int]@);
                                if q - 1 > k {
                                    assert(old_list[k as int].span <= old_list[q - 1].span);
                                }
                            } else if q == k {
                                assert(out@[p] == old_list[p]);
                                assert(was[p] == old_list[p]@);
                                assert(!span_lt(v, was[p]));
                            } else {
                                let pp = if p < k { p } else { p - 1 };
                                let qq = if q < k { q } else { q - 1 };
                                assert(out@[p] == old_list[pp]);
                                assert(out@[q] == old_list[qq]);
                            }
                        }
                    }
                }
            }
        }
        i = i + 1;
    }
    assert(s.take(i as int) =~= s);
    out
}

impl EpisodeRule for RigSync {
    open spec fn of_episode(&self, episode: Episode) -> Seq<FindingView> {
        let spans = seqs::sorted(spans_of(episode.streams@), span_order());
        if !is_rig(episode) || spans.len() < 2 {
            Seq::empty()
        } else {
            let (tight, wide) = (spans[0], spans.last());
            let spread = wide.span - tight.span;
            if spread > capped_sum(self.tolerance_ns as int, greater(tight.period, wide.period)) {
                seq![
                    rig_sync_finding(
                        episode.index,
                        tight.name,
                        tight.span as nat,
                        wide.name,
                        wide.span as nat,
                        spread as nat,
                        spans.len(),
                    ),
                ]
            } else {
                Seq::empty()
            }
        }
    }

    fn check_episode(&self, episode: &Episode) -> (r: Vec<Finding>) {
        if !is_rig_episode(episode) {
            return none();
        }
        let spans: Vec<Span> = sorted_spans(&episode.streams);
        let ghost v = span_views(spans@);
        assert(v.len() == spans@.len());
        if spans.len() < 2 {
            return none();
        }
        let tight: &Span = &spans[0];
        let wide: &Span = &spans[spans.len() - 1];
        proof {
            assert(v[0] == tight@);
            assert(v.last() == wide@);
            assert(spans@[0].span <= spans@[spans@.len() - 1].span);
            assert(spans@[0].span > 0);
        }
        let spread: i64 = wide.span - tight.span;
        let quantum: i64 = if tight.period >= wide.period { tight.period } else { wide.period };
        let sum: i128 = self.tolerance_ns as i128 + quantum as i128;
        if spread as i128 > sum {
            one(
                make_rig_sync(
                    episode.index,
                    tight.name.as_str(),
                    tight.span as u64,
                    wide.name.as_str(),
                    wide.span as u64,
                    spread as u64,
                    spans.len(),
                ),
            )
        } else {
            none()
        }
    }
}

impl Check for RigSync {
    open spec fn meta(&self) -> CheckMeta {
        CheckMeta {
            id: RIG_SYNC_ID@,
            title: "Rig-wide time sync"@,
            category: Category::Autonomy,
            default_severity: Severity::Error,
            scope: Scope::Episode,
            version: "1"@,
            finding_codes: seq![RIG_SYNC_CODE@],
        }
    }

    fn info(&self) -> (r: CheckInfo) {
        let finding_codes: &'static [&'static str] = &[RIG_SYNC_CODE];
        assert(text::str_texts(finding_codes@) =~= self.meta().finding_codes);
        CheckInfo {
            id: RIG_SYNC_ID,
            title: "Rig-wide time sync",
            category: Category::Autonomy,
            default_severity: Severity::Error,
            scope: Scope::Episode,
            version: "1",
            finding_codes,
        }
    }

    open spec fn report(&self, dataset: &Dataset) -> Seq<FindingView> {
        walk::by_episode(*self, dataset.episodes@)
    }

    open spec fn report_in(&self, dataset: &Dataset, frames_read: bool, attested: Seq<Seq<char>>) -> Seq<FindingView> {
        self.report(dataset)
    }

    fn run(&self, dataset: &Dataset) -> (r: Vec<Finding>) {
        walk_episodes(self, dataset)
    }

    fn run_in(&self, dataset: &Dataset, context: &CheckContext) -> (r: Vec<Finding>) {
        self.run(dataset)
    }
}

// ---- positioning -----------------------------------------------------------------------------

/// **GNSS plausibility.** A latitude outside ±90° or a longitude outside ±180° is not a place. When
/// one appears, the receiver, the unit conversion, or the field order is wrong, and every downstream
/// use of the trajectory is wrong with it, silently, because the numbers look like coordinates.
///
/// The second case is a fix at exactly `(0, 0)` for the whole recording, judged by **exact equality
/// across every frame**: a receiver that never acquired a fix reports precisely zero.
///
/// Reads the per-dimension statistics of the decoded fixes. Silent on a rig whose GNSS was never
/// decoded: a check that cannot see the values must not report them plausible.
#[derive(Debug, Clone, Copy)]
pub struct GnssPlausibility;

/// The id of [`GnssPlausibility`].
pub const GNSS_ID: &'static str = "autonomy.gnss-plausibility";

/// The code of an impossible coordinate.
pub const GNSS_IMPLAUSIBLE_CODE: &'static str = "AUTONOMY.GNSS_IMPLAUSIBLE";

/// The code of a receiver without a fix.
pub const GNSS_UNSET_CODE: &'static str = "AUTONOMY.GNSS_UNSET";

/// The double 90.
pub const NINETY: u64 = 0x4056_8000_0000_0000;

/// The double −90.
pub const MINUS_NINETY: u64 = 0xc056_8000_0000_0000;

/// The double 180.
pub const STRAIGHT: u64 = 0x4066_8000_0000_0000;

/// The double −180.
pub const MINUS_STRAIGHT: u64 = 0xc066_8000_0000_0000;

pub const GNSS_IMPLAUSIBLE_RISK: &'static str = "A coordinate outside the possible range means the \
     receiver, the unit conversion, or the field order is wrong. Every use of the trajectory — \
     geo-referencing, map association, cross-drive alignment — is wrong with it, and silently, \
     because the numbers still look like coordinates.";

pub const GNSS_IMPLAUSIBLE_REMEDY: &'static str = "Check the receiver's output units and the message \
     field order (degrees, not radians or scaled integers), then re-record or re-convert the \
     affected segment.";

/// The finding for an impossible coordinate.
pub open spec fn gnss_implausible_finding(
    episode: u64,
    name: Seq<char>,
    axis: Seq<char>,
    value: Seq<char>,
    low: Seq<char>,
    high: Seq<char>,
) -> FindingView {
    check::finding(
        GNSS_ID@,
        Category::Autonomy,
        Severity::Error,
        LocationView::Stream { episode, stream: name },
        GNSS_IMPLAUSIBLE_CODE@,
        "episode "@ + text::dec(episode as nat) + ": stream `"@ + name + "` records a "@ + axis
            + " of "@ + value + ", outside the possible range ["@ + low + ", "@ + high
            + "] — that is not a place"@,
        GNSS_IMPLAUSIBLE_RISK@,
        GNSS_IMPLAUSIBLE_REMEDY@,
    )
}

/// The finding for an impossible coordinate.
fn make_gnss_implausible(
    episode: u64,
    name: &str,
    axis: &str,
    value: &str,
    low: &str,
    high: &str,
) -> (r: Finding)
    ensures
        r@ == gnss_implausible_finding(episode, name@, axis@, value@, low@, high@),
{
    let message: String = cat13(
        "episode ",
        dec_u64(episode).as_str(),
        ": stream `",
        name,
        "` records a ",
        axis,
        " of ",
        value,
        ", outside the possible range [",
        low,
        ", ",
        high,
        "] — that is not a place",
    );
    Finding::new(GNSS_ID, Category::Autonomy, Severity::Error, Location::Stream { episode, stream: String::from_str(name) }, GNSS_IMPLAUSIBLE_CODE, message).with_risk(
        GNSS_IMPLAUSIBLE_RISK,
    ).with_remedy(GNSS_IMPLAUSIBLE_REMEDY)
}

pub const GNSS_UNSET_RISK: &'static str = "A trajectory anchored at Null Island places the whole \
     recording somewhere the vehicle never was. Anything that fuses the drive with a map, or \
     compares it against another drive, is aligned to the wrong point on Earth.";

pub const GNSS_UNSET_REMEDY: &'static str = "Confirm the receiver had a fix for the recording (its \
     `status` field says so) and drop or re-record the segment that did not.";

/// The finding for a receiver without a fix.
pub open spec fn gnss_unset_finding(episode: u64, name: Seq<char>) -> FindingView {
    check::finding(
        GNSS_ID@,
        Category::Autonomy,
        Severity::Warning,
        LocationView::Stream { episode, stream: name },
        GNSS_UNSET_CODE@,
        "episode "@ + text::dec(episode as nat) + ": stream `"@ + name
            + "` reports latitude and longitude of exactly 0 for every frame — a receiver that never acquired a fix, not a drive through the Gulf of Guinea"@,
        GNSS_UNSET_RISK@,
        GNSS_UNSET_REMEDY@,
    )
}

/// The finding for a receiver without a fix.
fn make_gnss_unset(episode: u64, name: &str) -> (r: Finding)
    ensures
        r@ == gnss_unset_finding(episode, name@),
{
    let message: String = cat5(
        "episode ",
        dec_u64(episode).as_str(),
        ": stream `",
        name,
        "` reports latitude and longitude of exactly 0 for every frame — a receiver that never acquired a fix, not a drive through the Gulf of Guinea",
    );
    Finding::new(GNSS_ID, Category::Autonomy, Severity::Warning, Location::Stream { episode, stream: String::from_str(name) }, GNSS_UNSET_CODE, message).with_risk(
        GNSS_UNSET_RISK,
    ).with_remedy(GNSS_UNSET_REMEDY)
}

/// The summary of a dimension.
pub open spec fn dim_at(dims: Seq<DimStats>, i: int) -> Option<StreamStats>
    decreases dims.len(),
{
    if dims.len() == 0 {
        None
    } else if dims[0].dim == i {
        Some(dims[0].stats)
    } else {
        dim_at(dims.skip(1), i)
    }
}

/// The summary of the dimension with a name.
pub open spec fn dim_named(names: Seq<Seq<char>>, dims: Seq<DimStats>, wanted: Seq<char>) -> Option<StreamStats> {
    let i = frames::place(names, wanted);
    if i < names.len() { dim_at(dims, i) } else { None }
}

/// The summary of the dimension with a name.
fn stat_for<'a>(names: &Vec<String>, dims: &'a Vec<DimStats>, wanted: &str) -> (r: Option<&'a StreamStats>)
    ensures
        match r {
            Some(s) => dim_named(text::texts(names@), dims@, wanted@) == Some(*s),
            None => dim_named(text::texts(names@), dims@, wanted@) is None,
        },
{
    let i: usize = frames::find(names, wanted);
    if i >= names.len() {
        return None;
    }
    let mut k: usize = 0;
    assert(dims@.skip(0) =~= dims@);
    while k < dims.len()
        invariant
            k <= dims@.len(),
            i < names@.len(),
            i as int == frames::place(text::texts(names@), wanted@),
            text::texts(names@).len() == names@.len(),
            dim_at(dims@, i as int) == dim_at(dims@.skip(k as int), i as int),
        decreases dims@.len() - k,
    {
        assert(dims@.skip(k as int)[0] == dims@[k as int]);
        assert(dims@.skip(k as int).skip(1) =~= dims@.skip(k + 1));
        if dims[k].dim == i as u64 {
            return Some(&dims[k].stats);
        }
        k = k + 1;
    }
    None
}

/// What is reported of a coordinate against its bounds.
pub open spec fn axis_findings(
    episode: u64,
    name: Seq<char>,
    axis: Seq<char>,
    stats: Option<StreamStats>,
    low: u64,
    low_text: Seq<char>,
    high: u64,
    high_text: Seq<char>,
) -> Seq<FindingView> {
    match stats {
        Some(s) => if number::less(s.min, low) {
            seq![gnss_implausible_finding(episode, name, axis, decimal::plain_text(s.min), low_text, high_text)]
        } else if number::less(high, s.max) {
            seq![gnss_implausible_finding(episode, name, axis, decimal::plain_text(s.max), low_text, high_text)]
        } else {
            Seq::empty()
        },
        None => Seq::empty(),
    }
}

/// Holds a coordinate against its bounds.
fn check_axis(
    episode: u64,
    name: &str,
    axis: &str,
    stats: Option<&StreamStats>,
    low: u64,
    low_text: &str,
    high: u64,
    high_text: &str,
) -> (r: Vec<Finding>)
    ensures
        check::views(r@) == axis_findings(
            episode,
            name@,
            axis@,
            match stats {
                Some(s) => Some(*s),
                None => None,
            },
            low,
            low_text@,
            high,
            high_text@,
        ),
{
    match stats {
        Some(s) => if number::lt(s.min, low) {
            one(make_gnss_implausible(episode, name, axis, decimal::plain(s.min).as_str(), low_text, high_text))
        } else if number::lt(high, s.max) {
            one(make_gnss_implausible(episode, name, axis, decimal::plain(s.max).as_str(), low_text, high_text))
        } else {
            none()
        },
        None => none(),
    }
}

/// Whether a coordinate was zero throughout.
pub open spec fn is_zero(stats: Option<StreamStats>) -> bool {
    match stats {
        Some(s) => number::equal(s.min, 0) && number::equal(s.max, 0),
        None => false,
    }
}

/// Whether a coordinate was zero throughout.
fn zero_throughout(stats: Option<&StreamStats>) -> (r: bool)
    ensures
        r == is_zero(match stats {
            Some(s) => Some(*s),
            None => None,
        }),
{
    match stats {
        Some(s) => number::eq(s.min, 0) && number::eq(s.max, 0),
        None => false,
    }
}

impl StreamRule for GnssPlausibility {
    open spec fn of_stream(&self, episode: Episode, stream: Stream) -> Seq<FindingView> {
        match (stream.dim_names, stream.observed_dim_stats) {
            (Some(names), Some(dims)) => if stream.modality is Gnss {
                let lat = dim_named(text::texts(names@), dims@, "latitude"@);
                let lon = dim_named(text::texts(names@), dims@, "longitude"@);
                axis_findings(episode.index, stream.name@, "latitude"@, lat, MINUS_NINETY, "-90"@, NINETY, "90"@)
                    + axis_findings(
                    episode.index,
                    stream.name@,
                    "longitude"@,
                    lon,
                    MINUS_STRAIGHT,
                    "-180"@,
                    STRAIGHT,
                    "180"@,
                ) + (if is_zero(lat) && is_zero(lon) {
                    seq![gnss_unset_finding(episode.index, stream.name@)]
                } else {
                    Seq::empty()
                })
            } else {
                Seq::empty()
            },
            _ => Seq::empty(),
        }
    }

    fn check_stream(&self, episode: &Episode, stream: &Stream) -> (r: Vec<Finding>) {
        broadcast use check::group_views;

        if stream.modality != Modality::Gnss {
            return none();
        }
        match (&stream.dim_names, &stream.observed_dim_stats) {
            (Some(names), Some(dims)) => {
                let name: &str = stream.name.as_str();
                let lat: Option<&StreamStats> = stat_for(names, dims, "latitude");
                let lon: Option<&StreamStats> = stat_for(names, dims, "longitude");
                let mut out: Vec<Finding> = check_axis(episode.index, name, "latitude", lat, MINUS_NINETY, "-90", NINETY, "90");
                let mut more: Vec<Finding> = check_axis(
                    episode.index,
                    name,
                    "longitude",
                    lon,
                    MINUS_STRAIGHT,
                    "-180",
                    STRAIGHT,
                    "180",
                );
                out.append(&mut more);
                let mut last: Vec<Finding> = if zero_throughout(lat) && zero_throughout(lon) {
                    one(make_gnss_unset(episode.index, name))
                } else {
                    none()
                };
                out.append(&mut last);
                out
            },
            _ => none(),
        }
    }
}

impl Check for GnssPlausibility {
    open spec fn meta(&self) -> CheckMeta {
        CheckMeta {
            id: GNSS_ID@,
            title: "GNSS coordinate plausibility"@,
            category: Category::Autonomy,
            default_severity: Severity::Error,
            scope: Scope::Stream,
            version: "1"@,
            finding_codes: seq![GNSS_IMPLAUSIBLE_CODE@, GNSS_UNSET_CODE@],
        }
    }

    fn info(&self) -> (r: CheckInfo) {
        let finding_codes: &'static [&'static str] = &[GNSS_IMPLAUSIBLE_CODE, GNSS_UNSET_CODE];
        assert(text::str_texts(finding_codes@) =~= self.meta().finding_codes);
        CheckInfo {
            id: GNSS_ID,
            title: "GNSS coordinate plausibility",
            category: Category::Autonomy,
            default_severity: Severity::Error,
            scope: Scope::Stream,
            version: "1",
            finding_codes,
        }
    }

    open spec fn report(&self, dataset: &Dataset) -> Seq<FindingView> {
        walk::by_streams(*self, dataset.episodes@)
    }

    open spec fn report_in(&self, dataset: &Dataset, frames_read: bool, attested: Seq<Seq<char>>) -> Seq<FindingView> {
        self.report(dataset)
    }

    fn run(&self, dataset: &Dataset) -> (r: Vec<Finding>) {
        walk_streams(self, dataset)
    }

    fn run_in(&self, dataset: &Dataset, context: &CheckContext) -> (r: Vec<Finding>) {
        self.run(dataset)
    }
}

// ---- sequence completeness -------------------------------------------------------------------

/// **Rig sequence completeness.** Over an episode, each rig sensor should deliver frames steadily at
/// its own cadence; a sensor that quietly drops a fraction of its frames leaves the rig with
/// incomplete per-tick snapshots. This measures the **aggregate** drop rate: the frames that the
/// gaps at multiples of the sensor's own median interval swallowed, flagging a shortfall beyond
/// [`SequenceComplete::max_drop_fraction`].
///
/// Only rig episodes are checked, and only streams with enough frames for a stable median and a
/// cadence steady enough to fall short of.
#[derive(Debug)]
pub struct SequenceComplete {
    /// Maximum tolerated fraction of expected frames a sensor may be missing before it is flagged.
    pub max_drop_fraction: u64,
}

impl Default for SequenceComplete {
    /// A twentieth.
    fn default() -> (r: Self)
        ensures
            r.max_drop_fraction == FIVE_HUNDREDTHS,
    {
        SequenceComplete { max_drop_fraction: FIVE_HUNDREDTHS }
    }
}

/// The double 0.05.
pub const FIVE_HUNDREDTHS: u64 = 0x3fa9_9999_9999_999a;

/// Above this coefficient of variation, the double 0.4, the stream has no steady cadence to fall
/// short of, and the check abstains.
pub const MAX_INTERVAL_CV: i128 = 0x3fd9_9999_9999_999a;

/// Minimum frames for a stable median interval.
pub const SEQUENCE_MIN_FRAMES: usize = 8;

/// How far an interval may sit from an exact multiple of the cadence and still be read as swallowed
/// frames, in units of the cadence: the significand of the double 0.15, which is this many times two
/// to the power −55.
pub const MULTIPLE_TOLERANCE: u128 = 0x13_3333_3333_3333;

/// Beyond this many a double no longer counts one by one.
pub const MAX_COUNT: u64 = 0x20_0000_0000_0000;

/// The id of [`SequenceComplete`].
pub const SEQUENCE_ID: &'static str = "autonomy.sequence-complete";

/// The code of its findings.
pub const SEQUENCE_CODE: &'static str = "AUTONOMY.SEQUENCE_COMPLETE";

pub const SEQUENCE_RISK: &'static str = "A sensor missing a fraction of its frames leaves the rig \
     with incomplete per-tick snapshots: fusion and world-model training fill or skip the holes, \
     learning from moments where that modality was absent.";

pub const SEQUENCE_REMEDY: &'static str = "Investigate the recorder/transport for that sensor \
     (bandwidth, buffer overruns, cabling); re-record or mark the affected segments.";

/// The finding for a sensor that dropped frames.
pub open spec fn sequence_finding(
    episode: u64,
    name: Seq<char>,
    percent: Seq<char>,
    arrived: nat,
    cadence: nat,
    missing: nat,
) -> FindingView {
    check::finding(
        SEQUENCE_ID@,
        Category::Autonomy,
        Severity::Warning,
        LocationView::Stream { episode, stream: name },
        SEQUENCE_CODE@,
        "episode "@ + text::dec(episode as nat) + ": sensor `"@ + name + "` dropped ~"@ + percent
            + "% of its frames — "@ + text::dec(arrived)
            + " arrived, and the gaps at multiples of its ~"@ + number::millis_text(cadence)
            + " ms cadence account for ~"@ + text::dec(missing) + " more"@,
        SEQUENCE_RISK@,
        SEQUENCE_REMEDY@,
    )
}

/// The finding for a sensor that dropped frames.
fn make_sequence(
    episode: u64,
    name: &str,
    percent: &str,
    arrived: usize,
    cadence: u64,
    missing: u64,
) -> (r: Finding)
    ensures
        r@ == sequence_finding(episode, name@, percent@, arrived as nat, cadence as nat, missing as nat),
{
    let message: String = cat13(
        "episode ",
        dec_u64(episode).as_str(),
        ": sensor `",
        name,
        "` dropped ~",
        percent,
        "% of its frames — ",
        dec_usize(arrived).as_str(),
        " arrived, and the gaps at multiples of its ~",
        number::millis(cadence).as_str(),
        " ms cadence account for ~",
        dec_u64(missing).as_str(),
        " more",
    );
    Finding::new(SEQUENCE_ID, Category::Autonomy, Severity::Warning, Location::Stream { episode, stream: String::from_str(name) }, SEQUENCE_CODE, message).with_risk(
        SEQUENCE_RISK,
    ).with_remedy(SEQUENCE_REMEDY)
}

/// The whole number nearest to a double; of two equally near ones, the greater.
pub open spec fn nearest_whole(bits: u64) -> nat {
    let (num, den) = (number::numerator(bits), number::denominator(bits));
    (2 * num + den) / (2 * den)
}

/// The distance of two numbers.
pub open spec fn apart(a: int, b: int) -> nat {
    if a >= b { (a - b) as nat } else { (b - a) as nat }
}

/// How many frames an interval swallowed, where it is `bits` times the cadence: one fewer than the
/// multiple that it is near.
pub open spec fn swallowed(bits: u64) -> nat {
    let (num, den) = (number::numerator(bits), number::denominator(bits));
    let k = nearest_whole(bits);
    if k >= 2 && apart(num as int, (k * den) as int) * 0x80_0000_0000_0000 <= MULTIPLE_TOLERANCE * den {
        (k - 1) as nat
    } else {
        0
    }
}

/// An interval in units of the cadence, both taken as doubles.
pub open spec fn in_cadences(d: u64, cadence: u64) -> u64 {
    number::nearest_bits(number::significant(d as nat), number::significant(cadence as nat)) as u64
}

/// How many frames intervals swallowed, counted as far as a double counts.
pub open spec fn missing_frames(gaps: Seq<u64>, cadence: u64) -> nat
    decreases gaps.len(),
{
    if gaps.len() == 0 {
        0
    } else {
        let n = missing_frames(gaps.drop_last(), cadence) + swallowed(in_cadences(gaps.last(), cadence));
        if n > MAX_COUNT { MAX_COUNT as nat } else { n }
    }
}

/// Whether intervals have no steady cadence.
pub open spec fn is_unsteady(gaps: Seq<u64>) -> bool {
    match timeline::variation(gaps) {
        Some(cv) => MAX_INTERVAL_CV < cv,
        None => false,
    }
}

/// How many frames an interval swallowed.
fn count_swallowed(bits: u64) -> (r: u128)
    requires
        bits <= 1087 * number::EXPONENT_UNIT,
    ensures
        r as nat == swallowed(bits),
        r <= 0x2_0000_0000_0000_0000,
{
    if bits < 1023 * number::EXPONENT_UNIT {
        proof {
            number::lemma_below_one(bits);
            let (num, den) = (number::numerator(bits) as int, number::denominator(bits) as int);
            vstd::arithmetic::div_mod::lemma_multiply_divide_lt(2 * num + den, 2 * den, 2);
        }
        return 0;
    }
    let (num, den): (u128, u128) = number::ratio(bits);
    proof {
        number::lemma_ratio_bound(bits);
        vstd::arithmetic::div_mod::lemma_multiply_divide_lt(
            2 * num + den,
            2 * den as int,
            0x2_0000_0000_0000_0000,
        );
        vstd::arithmetic::div_mod::lemma_fundamental_div_mod(2 * num + den, 2 * den as int);
    }
    let k: u128 = (2 * num + den) / (2 * den);
    proof {
        let (n, d, q) = (num as int, den as int, k as int);
        assert(2 * n + d == (2 * d) * q + (2 * n + d) % (2 * d));
        assert((2 * d) * q == 2 * (q * d)) by (nonlinear_arith);
        assert(apart(n, q * d) <= d);
        assert(q * d <= 2 * n + d);
    }
    let near: u128 = if num >= k * den { num - k * den } else { k * den - num };
    if k >= 2 && near * 0x80_0000_0000_0000 <= MULTIPLE_TOLERANCE * den {
        k - 1
    } else {
        0
    }
}

/// How many frames intervals swallowed.
fn count_missing(gaps: &Vec<u64>, cadence: u64) -> (r: u64)
    requires
        cadence > 0,
        forall|k: int| 0 <= k < gaps@.len() ==> #[trigger] gaps@[k] <= i64::MAX,
    ensures
        r as nat == missing_frames(gaps@, cadence),
        r <= MAX_COUNT,
{
    let mut n: u64 = 0;
    let mut i: usize = 0;
    let m: u128 = number::to_double(cadence);
    while i < gaps.len()
        invariant
            i <= gaps@.len(),
            m as nat == number::significant(cadence as nat),
            0 < m <= 0x1_0000_0000_0000_0000,
            forall|k: int| 0 <= k < gaps@.len() ==> #[trigger] gaps@[k] <= i64::MAX,
            n as nat == missing_frames(gaps@.take(i as int), cadence),
            n <= MAX_COUNT,
        decreases gaps@.len() - i,
    {
        assert(gaps@.take(i + 1).drop_last() =~= gaps@.take(i as int));
        let d: u128 = number::to_double(gaps[i]);
        let bits: u64 = number::nearest(d, m);
        proof {
            number::lemma_nearest_bound(d as nat, m as nat);
        }
        let sum: u128 = n as u128 + count_swallowed(bits);
        n = if sum > MAX_COUNT as u128 { MAX_COUNT } else { sum as u64 };
        i = i + 1;
    }
    assert(gaps@.take(i as int) =~= gaps@);
    n
}

impl StreamRule for SequenceComplete {
    open spec fn of_stream(&self, episode: Episode, stream: Stream) -> Seq<FindingView> {
        let gaps = seqs::sorted(timeline::positive_gaps(stream.frames@), seqs::number_order());
        if stream.frames@.len() < SEQUENCE_MIN_FRAMES || gaps.len() == 0 || is_unsteady(gaps) {
            Seq::empty()
        } else {
            let cadence = gaps[gaps.len() as int / 2];
            let missing = missing_frames(gaps, cadence);
            let share = number::nearest_bits(missing, stream.frames@.len() + missing) as u64;
            if missing > 0 && number::less(self.max_drop_fraction, share) {
                seq![
                    sequence_finding(
                        episode.index,
                        stream.name@,
                        number::percent_text(share),
                        stream.frames@.len(),
                        cadence as nat,
                        missing,
                    ),
                ]
            } else {
                Seq::empty()
            }
        }
    }

    fn check_stream(&self, episode: &Episode, stream: &Stream) -> (r: Vec<Finding>) {
        if stream.frames.len() < SEQUENCE_MIN_FRAMES {
            return none();
        }
        let raw: Vec<u64> = timeline::collect_gaps(&stream.frames);
        let gaps: Vec<u64> = sort_numbers(&raw);
        proof {
            seqs::lemma_sorted_multiset(raw@, seqs::number_order());
            assert forall|k: int| 0 <= k < gaps@.len() implies 0 < #[trigger] gaps@[k] <= i64::MAX by {
                lemma_sorted_from(raw@, gaps@[k]);
                assert(gaps@.contains(gaps@[k]));
            }
        }
        if gaps.len() == 0 {
            return none();
        }
        if let Some((_, cv)) = timeline::measure_variation(&gaps) {
            if MAX_INTERVAL_CV < cv {
                return none();
            }
        }
        let cadence: u64 = gaps[gaps.len() / 2];
        let missing: u64 = count_missing(&gaps, cadence);
        if missing == 0 {
            return none();
        }
        let expected: u128 = stream.frames.len() as u128 + missing as u128;
        let share: u64 = number::nearest(missing as u128, expected);
        proof {
            number::lemma_share(missing as nat, expected as nat);
        }
        if number::lt(self.max_drop_fraction, share) {
            one(
                make_sequence(
                    episode.index,
                    stream.name.as_str(),
                    number::percent(share).as_str(),
                    stream.frames.len(),
                    cadence,
                    missing,
                ),
            )
        } else {
            none()
        }
    }
}

/// A sorted list holds what was sorted.
proof fn lemma_sorted_from(s: Seq<u64>, x: u64)
    ensures
        seqs::sorted(s, seqs::number_order()).contains(x) <==> s.contains(x),
{
    broadcast use vstd::seq_lib::group_to_multiset_ensures;

    seqs::lemma_sorted_multiset(s, seqs::number_order());
    let t = seqs::sorted(s, seqs::number_order());
    assert(t.contains(x) <==> t.to_multiset().count(x) > 0);
    assert(s.contains(x) <==> s.to_multiset().count(x) > 0);
}

impl EpisodeRule for SequenceComplete {
    open spec fn of_episode(&self, episode: Episode) -> Seq<FindingView> {
        if is_rig(episode) { walk::by_stream(*self, episode, episode.streams@) } else { Seq::empty() }
    }

    fn check_episode(&self, episode: &Episode) -> (r: Vec<Finding>) {
        if is_rig_episode(episode) {
            walk_episode_streams(self, episode)
        } else {
            none()
        }
    }
}

impl Check for SequenceComplete {
    open spec fn meta(&self) -> CheckMeta {
        CheckMeta {
            id: SEQUENCE_ID@,
            title: "Rig sequence completeness"@,
            category: Category::Autonomy,
            default_severity: Severity::Warning,
            scope: Scope::Episode,
            version: "1"@,
            finding_codes: seq![SEQUENCE_CODE@],
        }
    }

    fn info(&self) -> (r: CheckInfo) {
        let finding_codes: &'static [&'static str] = &[SEQUENCE_CODE];
        assert(text::str_texts(finding_codes@) =~= self.meta().finding_codes);
        CheckInfo {
            id: SEQUENCE_ID,
            title: "Rig sequence completeness",
            category: Category::Autonomy,
            default_severity: Severity::Warning,
            scope: Scope::Episode,
            version: "1",
            finding_codes,
        }
    }

    open spec fn report(&self, dataset: &Dataset) -> Seq<FindingView> {
        walk::by_episode(*self, dataset.episodes@)
    }

    open spec fn report_in(&self, dataset: &Dataset, frames_read: bool, attested: Seq<Seq<char>>) -> Seq<FindingView> {
        self.report(dataset)
    }

    fn run(&self, dataset: &Dataset) -> (r: Vec<Finding>) {
        walk_episodes(self, dataset)
    }

    fn run_in(&self, dataset: &Dataset, context: &CheckContext) -> (r: Vec<Finding>) {
        self.run(dataset)
    }
}

// ---- the ego trajectory ----------------------------------------------------------------------

/// **Ego-pose continuity.** Between consecutive poses the implied speed must stay physically
/// plausible. A jump — a GPS glitch, a localization reset, a stitched-together log — teleports the
/// ego frame, so every sensor observation after it is registered against a wrong pose. A step whose
/// length cannot be computed is counted and reported too: a trajectory that cannot be measured is
/// unverifiable, not verified.
#[derive(Debug)]
pub struct EgoPoseContinuity {
    /// Maximum plausible ego speed in metres per second; a step
    /// implying more is a discontinuity.
    pub max_speed_mps: u64,
}

/// The double 100.
pub const HUNDRED: u64 = 0x4059_0000_0000_0000;

impl Default for EgoPoseContinuity {
    /// A hundred metres per second: far above any ground vehicle, so only a true teleport or reset
    /// trips it.
    fn default() -> (r: Self)
        ensures
            r.max_speed_mps == HUNDRED,
    {
        EgoPoseContinuity { max_speed_mps: HUNDRED }
    }
}

/// The id of [`EgoPoseContinuity`].
pub const EGO_ID: &'static str = "autonomy.ego-pose-continuity";

/// The code of a jump.
pub const EGO_JUMP_CODE: &'static str = "AUTONOMY.EGO_POSE_CONTINUITY";

/// The code of a step that cannot be measured.
pub const EGO_NON_FINITE_CODE: &'static str = "AUTONOMY.EGO_POSE_NON_FINITE";

pub const EGO_NON_FINITE_RISK: &'static str = "A NaN or infinite pose breaks every geometric use of \
     the trajectory, and it hides the discontinuities on either side of it: the comparison that \
     would catch a teleport silently evaluates to false against a NaN.";

pub const EGO_NON_FINITE_REMEDY: &'static str = "Find where the localization output went non-finite \
     and drop or repair those poses before training on the segment.";

/// The finding for steps that cannot be measured.
pub open spec fn ego_non_finite_finding(episode: u64, steps: nat) -> FindingView {
    check::finding(
        EGO_ID@,
        Category::Autonomy,
        Severity::Error,
        LocationView::Episode { episode },
        EGO_NON_FINITE_CODE@,
        "episode "@ + text::dec(episode as nat) + ": "@ + text::dec(steps)
            + " ego-trajectory step(s) have a non-finite position, so the distance travelled over them cannot be computed — the trajectory's continuity is unverifiable across those steps, not verified"@,
        EGO_NON_FINITE_RISK@,
        EGO_NON_FINITE_REMEDY@,
    )
}

/// The finding for steps that cannot be measured.
fn make_ego_non_finite(episode: u64, steps: usize) -> (r: Finding)
    ensures
        r@ == ego_non_finite_finding(episode, steps as nat),
{
    let message: String = cat5(
        "episode ",
        dec_u64(episode).as_str(),
        ": ",
        dec_usize(steps).as_str(),
        " ego-trajectory step(s) have a non-finite position, so the distance travelled over them cannot be computed — the trajectory's continuity is unverifiable across those steps, not verified",
    );
    Finding::new(EGO_ID, Category::Autonomy, Severity::Error, Location::Episode { episode }, EGO_NON_FINITE_CODE, message).with_risk(
        EGO_NON_FINITE_RISK,
    ).with_remedy(EGO_NON_FINITE_REMEDY)
}

pub const EGO_JUMP_RISK: &'static str = "A jump in the ego pose teleports the vehicle frame: every \
     sensor observation after it is registered against the wrong world pose, so fused maps and \
     any world model trained on them are geometrically inconsistent.";

pub const EGO_JUMP_REMEDY: &'static str = "Inspect the localization/GNSS source for resets or \
     glitches; drop or re-solve the affected segment, or split the log where it was stitched.";

/// The finding for a trajectory that jumps.
pub open spec fn ego_jump_finding(
    episode: u64,
    jumps: nat,
    plural: Seq<char>,
    speed: Seq<char>,
    at: int,
    max: Seq<char>,
) -> FindingView {
    check::finding(
        EGO_ID@,
        Category::Autonomy,
        Severity::Error,
        LocationView::Episode { episode },
        EGO_JUMP_CODE@,
        "episode "@ + text::dec(episode as nat) + ": ego trajectory has "@ + text::dec(jumps)
            + " discontinuit"@ + plural + " — the worst implies "@ + speed + " m/s at ts "@
            + text::int_text(at) + " (max plausible "@ + max + " m/s)"@,
        EGO_JUMP_RISK@,
        EGO_JUMP_REMEDY@,
    )
}

/// The finding for a trajectory that jumps.
fn make_ego_jump(episode: u64, jumps: usize, plural: &str, speed: &str, at: i64, max: &str) -> (r: Finding)
    ensures
        r@ == ego_jump_finding(episode, jumps as nat, plural@, speed@, at as int, max@),
{
    let message: String = cat13(
        "episode ",
        dec_u64(episode).as_str(),
        ": ego trajectory has ",
        dec_usize(jumps).as_str(),
        " discontinuit",
        plural,
        " — the worst implies ",
        speed,
        " m/s at ts ",
        dec_i64(at).as_str(),
        " (max plausible ",
        max,
        " m/s)",
    );
    Finding::new(EGO_ID, Category::Autonomy, Severity::Error, Location::Episode { episode }, EGO_JUMP_CODE, message).with_risk(
        EGO_JUMP_RISK,
    ).with_remedy(EGO_JUMP_REMEDY)
}

/// What a trajectory's steps amount to.
pub struct StepsView {
    /// How many steps cannot be measured.
    pub non_finite: nat,
    /// How many imply an implausible speed.
    pub jumps: nat,
    /// The place of the pose that the worst of them leads to.
    pub worst: Option<int>,
}

/// Whether a position is made of finite numbers.
pub open spec fn is_placed(pose: crate::cdm::EgoPose) -> bool {
    number::is_finite(pose.translation@[0]) && number::is_finite(pose.translation@[1]) && number::is_finite(
        pose.translation@[2],
    )
}

/// How far apart two poses are on an axis, squared.
pub open spec fn squared_step(a: crate::cdm::EgoPose, b: crate::cdm::EgoPose, axis: int) -> int {
    let d = double::minus(number::rank(b.translation@[axis]), number::rank(a.translation@[axis]));
    double::times(d, d)
}

/// The seconds from one pose to another.
pub open spec fn step_time(a: crate::cdm::EgoPose, b: crate::cdm::EgoPose) -> int {
    double::over(double::whole(timeline::gap(a.ts, b.ts)), double::BILLION as int)
}

/// The speed in metres per second that a step between two poses implies: the distance over the time.
/// Nothing where a position is not finite, or the speed is too large for a double.
pub open spec fn step_speed(a: crate::cdm::EgoPose, b: crate::cdm::EgoPose) -> Option<int> {
    let squares = double::plus(
        double::plus(squared_step(a, b, 0), squared_step(a, b, 1)),
        squared_step(a, b, 2),
    );
    let speed = double::over(double::square_root(squares), step_time(a, b));
    if is_placed(a) && is_placed(b) && double::is_finite(speed) { Some(speed) } else { None }
}

/// Whether a position is made of finite numbers.
fn has_place(pose: &crate::cdm::EgoPose) -> (r: bool)
    ensures
        r == is_placed(*pose),
{
    number::finite(pose.translation[0]) && number::finite(pose.translation[1]) && number::finite(pose.translation[2])
}

/// How far apart two poses are on an axis, squared.
fn square_step(a: &crate::cdm::EgoPose, b: &crate::cdm::EgoPose, axis: usize) -> (r: i128)
    requires
        is_placed(*a),
        is_placed(*b),
        axis < 3,
    ensures
        r as int == squared_step(*a, *b, axis as int),
        double::is_rank(r as int),
{
    assert(number::is_finite(a.translation@[axis as int]) && number::is_finite(b.translation@[axis as int])) by {
        assert(axis == 0 || axis == 1 || axis == 2);
    }
    let d: i128 = double::difference(double::rank(b.translation[axis]), double::rank(a.translation[axis]));
    double::product(d, d)
}

/// The speed that a step between two poses implies.
fn measure_speed(a: &crate::cdm::EgoPose, b: &crate::cdm::EgoPose, time: i128) -> (r: Option<i128>)
    requires
        time as int == step_time(*a, *b),
        0 < time <= double::TOP,
    ensures
        match r {
            Some(x) => step_speed(*a, *b) == Some(x as int) && double::is_rank(x as int),
            None => step_speed(*a, *b) is None,
        },
{
    if !has_place(a) || !has_place(b) {
        return None;
    }
    let squares: i128 = double::sum(
        double::sum(square_step(a, b, 0), square_step(a, b, 1)),
        square_step(a, b, 2),
    );
    let speed: i128 = double::quotient(double::find_square_root(squares), time);
    if -double::TOP < speed && speed < double::TOP {
        Some(speed)
    } else {
        None
    }
}

/// The speed, in doubles, that is the worst so far.
pub open spec fn worst_speed(poses: Seq<crate::cdm::EgoPose>, worst: Option<int>) -> int {
    match worst {
        Some(i) => step_speed(poses[i - 1], poses[i])->0,
        None => 0,
    }
}

/// What the steps to the first `n` poses amount to. A step that takes no time is not judged here.
pub open spec fn steps(poses: Seq<crate::cdm::EgoPose>, max: u64, n: int) -> StepsView
    decreases n,
{
    if n < 2 {
        StepsView { non_finite: 0, jumps: 0, worst: None }
    } else {
        let rest = steps(poses, max, n - 1);
        if step_time(poses[n - 2], poses[n - 1]) <= 0 {
            rest
        } else {
            match step_speed(poses[n - 2], poses[n - 1]) {
                Some(speed) => if !number::is_nan(max) && number::rank(max) < speed {
                    StepsView {
                        jumps: rest.jumps + 1,
                        worst: if worst_speed(poses, rest.worst) < speed { Some(n - 1) } else { rest.worst },
                        ..rest
                    }
                } else {
                    rest
                },
                None => StepsView { non_finite: rest.non_finite + 1, ..rest },
            }
        }
    }
}

/// What some steps amount to.
struct Steps {
    /// How many have no finite speed.
    non_finite: usize,
    /// How many are too fast.
    jumps: usize,
    /// The pose that the fastest of them leads to.
    worst: Option<usize>,
    /// The speed of that step, as a double.
    most: i128,
}

/// Whether this is what the steps to the first `n` poses amount to.
spec fn tallies(t: Steps, poses: Seq<crate::cdm::EgoPose>, max: u64, n: int) -> bool {
    let s = steps(poses, max, n);
    &&& t.non_finite as nat == s.non_finite
    &&& t.jumps as nat == s.jumps
    &&& match t.worst {
        Some(w) => w < n && s.worst == Some(w as int),
        None => s.worst is None,
    }
    &&& t.most as int == worst_speed(poses, s.worst)
    &&& double::is_rank(t.most as int)
}

/// Adds the step to one more pose.
fn add_step(t: Steps, poses: &Vec<crate::cdm::EgoPose>, max: u64, i: usize) -> (r: Steps)
    requires
        1 <= i < poses@.len(),
        tallies(t, poses@, max, i as int),
        t.non_finite + t.jumps < i,
    ensures
        tallies(r, poses@, max, i + 1),
        r.non_finite + r.jumps < i + 1,
{
    let gap: i64 = timeline::gap_of(poses[i - 1].ts, poses[i].ts);
    let time: i128 = double::quotient(double::to_whole(gap as i128), double::BILLION);
    if time <= 0 {
        return t;
    }
    match measure_speed(&poses[i - 1], &poses[i], time) {
        Some(speed) => if number::le(max, max) && number::order(max) < speed {
            if t.most < speed {
                Steps { non_finite: t.non_finite, jumps: t.jumps + 1, worst: Some(i), most: speed }
            } else {
                Steps { non_finite: t.non_finite, jumps: t.jumps + 1, worst: t.worst, most: t.most }
            }
        } else {
            t
        },
        None => Steps { non_finite: t.non_finite + 1, jumps: t.jumps, worst: t.worst, most: t.most },
    }
}

/// What the steps between poses amount to.
fn tally_steps(poses: &Vec<crate::cdm::EgoPose>, max: u64) -> (r: Steps)
    requires
        poses@.len() >= 1,
    ensures
        tallies(r, poses@, max, poses@.len() as int),
{
    let mut t: Steps = Steps { non_finite: 0, jumps: 0, worst: None, most: 0 };
    let mut i: usize = 1;
    while i < poses.len()
        invariant
            1 <= i <= poses@.len(),
            t.non_finite + t.jumps < i,
            tallies(t, poses@, max, i as int),
        decreases poses@.len() - i,
    {
        t = add_step(t, poses, max, i);
        i = i + 1;
    }
    t
}

/// The text of the worst speed: zero where no step exceeds a standstill.
pub open spec fn worst_text(poses: Seq<crate::cdm::EgoPose>, worst: Option<int>) -> Seq<char> {
    match worst {
        Some(_) => decimal::fixed_text(decimal::bits_of(worst_speed(poses, worst)), 0),
        None => "0"@,
    }
}

/// When the worst step happened.
pub open spec fn worst_ts(poses: Seq<crate::cdm::EgoPose>, worst: Option<int>) -> int {
    match worst {
        Some(i) => poses[i].ts as int,
        None => 0,
    }
}

impl EpisodeRule for EgoPoseContinuity {
    open spec fn of_episode(&self, episode: Episode) -> Seq<FindingView> {
        match episode.ego_poses {
            Some(poses) => {
                let s = steps(poses@, self.max_speed_mps, poses@.len() as int);
                (if s.non_finite > 0 {
                    seq![ego_non_finite_finding(episode.index, s.non_finite)]
                } else {
                    Seq::empty()
                }) + (if s.jumps > 0 {
                    seq![
                        ego_jump_finding(
                            episode.index,
                            s.jumps,
                            if s.jumps == 1 { "y"@ } else { "ies"@ },
                            worst_text(poses@, s.worst),
                            worst_ts(poses@, s.worst),
                            decimal::fixed_text(self.max_speed_mps, 0),
                        ),
                    ]
                } else {
                    Seq::empty()
                })
            },
            None => Seq::empty(),
        }
    }

    fn check_episode(&self, episode: &Episode) -> (r: Vec<Finding>) {
        broadcast use check::group_views;

        let poses: &Vec<crate::cdm::EgoPose> = match &episode.ego_poses {
            Some(p) => p,
            None => {
                return none();
            },
        };
        if poses.len() < 2 {
            assert(Seq::<FindingView>::empty() + Seq::<FindingView>::empty() =~= Seq::<FindingView>::empty());
            return none();
        }
        let max: u64 = self.max_speed_mps;
        let tally: Steps = tally_steps(poses, max);
        let (non_finite, jumps): (usize, usize) = (tally.non_finite, tally.jumps);
        let (worst, most): (Option<usize>, i128) = (tally.worst, tally.most);
        let mut out: Vec<Finding> = if non_finite > 0 {
            one(make_ego_non_finite(episode.index, non_finite))
        } else {
            none()
        };
        if jumps > 0 {
            let plural: &str = if jumps == 1 {
                "y"
            } else {
                "ies"
            };
            let limit_text: String = decimal::fixed(max, 0);
            let finding: Finding = match worst {
                Some(w) => make_ego_jump(
                    episode.index,
                    jumps,
                    plural,
                    decimal::fixed_rank(most, 0).as_str(),
                    poses[w].ts,
                    limit_text.as_str(),
                ),
                None => make_ego_jump(episode.index, jumps, plural, "0", 0, limit_text.as_str()),
            };
            let mut more: Vec<Finding> = one(finding);
            out.append(&mut more);
        } else {
            let mut more: Vec<Finding> = none();
            out.append(&mut more);
        }
        out
    }
}

impl Check for EgoPoseContinuity {
    open spec fn meta(&self) -> CheckMeta {
        CheckMeta {
            id: EGO_ID@,
            title: "Ego-pose continuity"@,
            category: Category::Autonomy,
            default_severity: Severity::Error,
            scope: Scope::Episode,
            version: "1"@,
            finding_codes: seq![EGO_JUMP_CODE@, EGO_NON_FINITE_CODE@],
        }
    }

    fn info(&self) -> (r: CheckInfo) {
        let finding_codes: &'static [&'static str] = &[EGO_JUMP_CODE, EGO_NON_FINITE_CODE];
        assert(text::str_texts(finding_codes@) =~= self.meta().finding_codes);
        CheckInfo {
            id: EGO_ID,
            title: "Ego-pose continuity",
            category: Category::Autonomy,
            default_severity: Severity::Error,
            scope: Scope::Episode,
            version: "1",
            finding_codes,
        }
    }

    open spec fn report(&self, dataset: &Dataset) -> Seq<FindingView> {
        walk::by_episode(*self, dataset.episodes@)
    }

    open spec fn report_in(&self, dataset: &Dataset, frames_read: bool, attested: Seq<Seq<char>>) -> Seq<FindingView> {
        self.report(dataset)
    }

    fn run(&self, dataset: &Dataset) -> (r: Vec<Finding>) {
        walk_episodes(self, dataset)
    }

    fn run_in(&self, dataset: &Dataset, context: &CheckContext) -> (r: Vec<Finding>) {
        self.run(dataset)
    }
}

} // verus!
