//! Check types: the vocabulary that the validation engine runs and aggregates.
//!
//! The engine knows nothing about specific checks; a [`Check`] declares its identity and scope and
//! inspects a [`Dataset`], emitting [`Finding`]s.

use vstd::prelude::*;
use vstd::string::*;

use crate::cdm::Dataset;
use crate::seqs;
use crate::text;
use crate::text::before;

verus! {

/// Finding severity. Ordered `Info < Warning < Error`; the maximum severity present drives the
/// verdict's status.
#[derive(Debug, Clone, Copy, PartialEq, Eq, Structural)]
pub enum Severity {
    /// Informational; never fails a run.
    Info,
    /// A problem worth surfacing but not disqualifying.
    Warning,
    /// A disqualifying problem.
    Error,
}

impl Severity {
    /// The stable canonical tag for this severity.
    pub open spec fn spec_tag(self) -> Seq<char> {
        match self {
            Severity::Info => "info"@,
            Severity::Warning => "warning"@,
            Severity::Error => "error"@,
        }
    }

    /// The stable canonical tag for this severity.
    pub fn tag(self) -> (r: &'static str)
        ensures
            r@ == self.spec_tag(),
    {
        match self {
            Severity::Info => "info",
            Severity::Warning => "warning",
            Severity::Error => "error",
        }
    }

    /// The severity's place in the order.
    pub open spec fn level(self) -> int {
        match self {
            Severity::Info => 0,
            Severity::Warning => 1,
            Severity::Error => 2,
        }
    }

    /// The severity's place in the order.
    pub fn rank(self) -> (r: u8)
        ensures
            r as int == self.level(),
    {
        match self {
            Severity::Info => 0,
            Severity::Warning => 1,
            Severity::Error => 2,
        }
    }
}

/// The category a check belongs to (exactly one).
#[derive(Debug, Clone, Copy, PartialEq, Eq, Structural)]
pub enum Category {
    /// Episode/stream/shape integrity.
    Structure,
    /// Timestamps, rates, cross-stream synchronization.
    Temporal,
    /// Distributions, ranges, saturation.
    Statistical,
    /// Language/annotation semantics.
    Semantic,
    /// Video-specific checks.
    Video,
    /// Provenance presence and consistency.
    Provenance,
    /// Autonomy sensor-rig checks (rig-wide sync, spatial calibration, ego-pose, sequence).
    Autonomy,
}

impl Category {
    /// The stable canonical tag for this category.
    pub open spec fn spec_tag(self) -> Seq<char> {
        match self {
            Category::Structure => "structural"@,
            Category::Temporal => "temporal"@,
            Category::Statistical => "statistical"@,
            Category::Semantic => "semantic"@,
            Category::Video => "video"@,
            Category::Provenance => "provenance"@,
            Category::Autonomy => "autonomy"@,
        }
    }

    /// The stable canonical tag for this category.
    pub fn tag(self) -> (r: &'static str)
        ensures
            r@ == self.spec_tag(),
    {
        match self {
            Category::Structure => "structural",
            Category::Temporal => "temporal",
            Category::Statistical => "statistical",
            Category::Semantic => "semantic",
            Category::Video => "video",
            Category::Provenance => "provenance",
            Category::Autonomy => "autonomy",
        }
    }

    /// The category's place in the order.
    pub open spec fn level(self) -> int {
        match self {
            Category::Structure => 0,
            Category::Temporal => 1,
            Category::Statistical => 2,
            Category::Semantic => 3,
            Category::Video => 4,
            Category::Provenance => 5,
            Category::Autonomy => 6,
        }
    }

    /// The category's place in the order.
    pub fn rank(self) -> (r: u8)
        ensures
            r as int == self.level(),
    {
        match self {
            Category::Structure => 0,
            Category::Temporal => 1,
            Category::Statistical => 2,
            Category::Semantic => 3,
            Category::Video => 4,
            Category::Provenance => 5,
            Category::Autonomy => 6,
        }
    }
}

/// The CDM scope a check applies to.
#[derive(Debug, Clone, Copy, PartialEq, Eq, Structural)]
pub enum Scope {
    /// The whole dataset.
    Dataset,
    /// Each episode.
    Episode,
    /// Each stream.
    Stream,
}

impl Scope {
    /// The stable canonical tag for this scope.
    pub open spec fn spec_tag(self) -> Seq<char> {
        match self {
            Scope::Dataset => "dataset"@,
            Scope::Episode => "episode"@,
            Scope::Stream => "stream"@,
        }
    }

    /// The stable canonical tag for this scope.
    pub fn tag(self) -> (r: &'static str)
        ensures
            r@ == self.spec_tag(),
    {
        match self {
            Scope::Dataset => "dataset",
            Scope::Episode => "episode",
            Scope::Stream => "stream",
        }
    }
}

/// The precise CDM location a finding concerns. Precise enough to navigate to without rerunning.
#[derive(Debug)]
pub enum Location {
    /// The dataset as a whole.
    Dataset,
    /// A single episode.
    Episode {
        /// Episode index.
        episode: u64,
    },
    /// A single stream within an episode.
    Stream {
        /// Episode index.
        episode: u64,
        /// Stream name.
        stream: String,
    },
    /// A contiguous frame range within a stream.
    FrameRange {
        /// Episode index.
        episode: u64,
        /// Stream name.
        stream: String,
        /// Inclusive start frame index.
        start_frame: u64,
        /// Inclusive end frame index.
        end_frame: u64,
    },
    /// A time range within a stream (nanoseconds on that stream's clock).
    TimeRange {
        /// Episode index.
        episode: u64,
        /// Stream name.
        stream: String,
        /// Inclusive start timestamp.
        start_ts: i64,
        /// Inclusive end timestamp.
        end_ts: i64,
    },
}

/// What a location is, with its stream's name as text.
pub enum LocationView {
    /// The dataset as a whole.
    Dataset,
    /// A single episode.
    Episode {
        /// Episode index.
        episode: u64,
    },
    /// A single stream within an episode.
    Stream {
        /// Episode index.
        episode: u64,
        /// Stream name.
        stream: Seq<char>,
    },
    /// A contiguous frame range within a stream.
    FrameRange {
        /// Episode index.
        episode: u64,
        /// Stream name.
        stream: Seq<char>,
        /// Inclusive start frame index.
        start_frame: u64,
        /// Inclusive end frame index.
        end_frame: u64,
    },
    /// A time range within a stream.
    TimeRange {
        /// Episode index.
        episode: u64,
        /// Stream name.
        stream: Seq<char>,
        /// Inclusive start timestamp.
        start_ts: i64,
        /// Inclusive end timestamp.
        end_ts: i64,
    },
}

impl View for Location {
    type V = LocationView;

    open spec fn view(&self) -> LocationView {
        match *self {
            Location::Dataset => LocationView::Dataset,
            Location::Episode { episode } => LocationView::Episode { episode },
            Location::Stream { episode, stream } => LocationView::Stream { episode, stream: stream@ },
            Location::FrameRange { episode, stream, start_frame, end_frame } => LocationView::FrameRange {
                episode,
                stream: stream@,
                start_frame,
                end_frame,
            },
            Location::TimeRange { episode, stream, start_ts, end_ts } => LocationView::TimeRange {
                episode,
                stream: stream@,
                start_ts,
                end_ts,
            },
        }
    }
}

impl Clone for Location {
    fn clone(&self) -> (r: Self)
        ensures
            r@ == self@,
    {
        match self {
            Location::Dataset => Location::Dataset,
            Location::Episode { episode } => Location::Episode { episode: *episode },
            Location::Stream { episode, stream } => Location::Stream {
                episode: *episode,
                stream: stream.clone(),
            },
            Location::FrameRange { episode, stream, start_frame, end_frame } => Location::FrameRange {
                episode: *episode,
                stream: stream.clone(),
                start_frame: *start_frame,
                end_frame: *end_frame,
            },
            Location::TimeRange { episode, stream, start_ts, end_ts } => Location::TimeRange {
                episode: *episode,
                stream: stream.clone(),
                start_ts: *start_ts,
                end_ts: *end_ts,
            },
        }
    }
}

/// A frame number where it stands in the order of locations: the same 64 bits, read as signed.
pub open spec fn signed(n: u64) -> int {
    if n <= i64::MAX { n as int } else { n - 0x1_0000_0000_0000_0000 }
}

impl LocationView {
    /// The episode index this location concerns, if any.
    pub open spec fn episode(self) -> Option<u64> {
        match self {
            LocationView::Dataset => None,
            LocationView::Episode { episode } => Some(episode),
            LocationView::Stream { episode, .. } => Some(episode),
            LocationView::FrameRange { episode, .. } => Some(episode),
            LocationView::TimeRange { episode, .. } => Some(episode),
        }
    }

    /// The place of the location in the order: variant, episode, stream, and two numbers within it.
    pub open spec fn sort_key(self) -> (int, int, Seq<char>, int, int) {
        match self {
            LocationView::Dataset => (0, 0, Seq::empty(), 0, 0),
            LocationView::Episode { episode } => (1, episode as int, Seq::empty(), 0, 0),
            LocationView::Stream { episode, stream } => (2, episode as int, stream, 0, 0),
            LocationView::FrameRange { episode, stream, start_frame, end_frame } => (
                3,
                episode as int,
                stream,
                signed(start_frame),
                signed(end_frame),
            ),
            LocationView::TimeRange { episode, stream, start_ts, end_ts } => (
                4,
                episode as int,
                stream,
                start_ts as int,
                end_ts as int,
            ),
        }
    }
}

impl Location {
    /// The episode index this location concerns, if any (dataset-scope locations have none). Used
    /// by reporting to roll findings up per episode.
    pub fn episode(&self) -> (r: Option<u64>)
        ensures
            r == self@.episode(),
    {
        match self {
            Location::Dataset => None,
            Location::Episode { episode } => Some(*episode),
            Location::Stream { episode, .. } => Some(*episode),
            Location::FrameRange { episode, .. } => Some(*episode),
            Location::TimeRange { episode, .. } => Some(*episode),
        }
    }

    /// A total-order sort key so findings order deterministically regardless of execution order.
    /// Tuple shape: (variant rank, episode, stream, a, b).
    pub fn sort_key(&self) -> (r: (u8, u64, &str, i64, i64))
        ensures
            (r.0 as int, r.1 as int, r.2@, r.3 as int, r.4 as int) == self@.sort_key(),
    {
        proof {
            reveal_strlit("");
            assert(""@ =~= Seq::<char>::empty());
        }
        match self {
            Location::Dataset => (0, 0, "", 0, 0),
            Location::Episode { episode } => (1, *episode, "", 0, 0),
            Location::Stream { episode, stream } => (2, *episode, stream.as_str(), 0, 0),
            Location::FrameRange { episode, stream, start_frame, end_frame } => (
                3,
                *episode,
                stream.as_str(),
                as_signed(*start_frame),
                as_signed(*end_frame),
            ),
            Location::TimeRange { episode, stream, start_ts, end_ts } => (
                4,
                *episode,
                stream.as_str(),
                *start_ts,
                *end_ts,
            ),
        }
    }
}

/// The same 64 bits, read as signed.
fn as_signed(n: u64) -> (r: i64)
    ensures
        r as int == signed(n),
{
    if n <= 0x7fff_ffff_ffff_ffff {
        n as i64
    } else {
        (n - 0x8000_0000_0000_0000) as i64 - 0x7fff_ffff_ffff_ffff - 1
    }
}

/// A single issue found by a check.
#[derive(Debug)]
pub struct Finding {
    /// The check that produced it.
    pub check_id: &'static str,
    /// Effective severity (after any configured override).
    pub severity: Severity,
    /// The check's category.
    pub category: Category,
    /// Precise CDM location.
    pub location: Location,
    /// Stable machine-readable code (e.g. `TEMPORAL.CLOCK_SKEW`).
    pub code: String,
    /// Human-readable message.
    pub message: String,
    /// Why this matters for training (the risk if ignored). Empty if the check declares none.
    pub risk: String,
    /// Suggested remedy. Empty if the check declares none.
    pub remedy: String,
}

/// What a finding says, with its strings as texts.
pub struct FindingView {
    /// The check that produced it.
    pub check_id: Seq<char>,
    /// Effective severity.
    pub severity: Severity,
    /// The check's category.
    pub category: Category,
    /// Precise CDM location.
    pub location: LocationView,
    /// Stable machine-readable code.
    pub code: Seq<char>,
    /// Human-readable message.
    pub message: Seq<char>,
    /// Why this matters.
    pub risk: Seq<char>,
    /// Suggested remedy.
    pub remedy: Seq<char>,
}

impl View for Finding {
    type V = FindingView;

    open spec fn view(&self) -> FindingView {
        FindingView {
            check_id: self.check_id@,
            severity: self.severity,
            category: self.category,
            location: self.location@,
            code: self.code@,
            message: self.message@,
            risk: self.risk@,
            remedy: self.remedy@,
        }
    }
}

impl Clone for Finding {
    fn clone(&self) -> (r: Self)
        ensures
            r@ == self@,
    {
        Finding {
            check_id: self.check_id,
            severity: self.severity,
            category: self.category,
            location: self.location.clone(),
            code: self.code.clone(),
            message: self.message.clone(),
            risk: self.risk.clone(),
            remedy: self.remedy.clone(),
        }
    }
}

/// What a list of findings says.
pub open spec fn views(s: Seq<Finding>) -> Seq<FindingView> {
    s.map_values(|f: Finding| f@)
}

/// One finding more says one thing more.
pub broadcast proof fn lemma_views_push(s: Seq<Finding>, f: Finding)
    ensures
        #[trigger] views(s.push(f)) == views(s).push(f@),
{
    assert(views(s.push(f)) =~= views(s).push(f@));
}

/// Two lists of findings say what both say.
pub broadcast proof fn lemma_views_add(a: Seq<Finding>, b: Seq<Finding>)
    ensures
        #[trigger] views(a + b) == views(a) + views(b),
{
    assert(views(a + b) =~= views(a) + views(b));
}

/// No finding says nothing.
pub broadcast proof fn lemma_views_empty()
    ensures
        #[trigger] views(Seq::<Finding>::empty()) == Seq::<FindingView>::empty(),
{
    assert(views(Seq::<Finding>::empty()) =~= Seq::<FindingView>::empty());
}

/// What is known of the views of lists.
pub broadcast group group_views {
    lemma_views_push,
    lemma_views_add,
    lemma_views_empty,
}

impl Finding {
    /// Convenience constructor. `risk`/`remedy` default empty; set them with [`Finding::with_risk`]
    /// and [`Finding::with_remedy`]. Severities may be overridden by the engine before the finding
    /// lands in the verdict.
    pub fn new(
        check_id: &'static str,
        category: Category,
        severity: Severity,
        location: Location,
        code: &str,
        message: String,
    ) -> (r: Self)
        ensures
            r@ == (FindingView {
                check_id: check_id@,
                severity,
                category,
                location: location@,
                code: code@,
                message: message@,
                risk: Seq::empty(),
                remedy: Seq::empty(),
            }),
    {
        Finding {
            check_id,
            severity,
            category,
            location,
            code: String::from_str(code),
            message,
            risk: String::new(),
            remedy: String::new(),
        }
    }

    /// Attach the training risk this finding represents.
    pub fn with_risk(self, risk: &str) -> (r: Self)
        ensures
            r@ == (FindingView { risk: risk@, ..self@ }),
    {
        Finding { risk: String::from_str(risk), ..self }
    }

    /// Attach a suggested remedy.
    pub fn with_remedy(self, remedy: &str) -> (r: Self)
        ensures
            r@ == (FindingView { remedy: remedy@, ..self@ }),
    {
        Finding { remedy: String::from_str(remedy), ..self }
    }
}

/// A finding with everything it says.
pub open spec fn finding(
    check_id: Seq<char>,
    category: Category,
    severity: Severity,
    location: LocationView,
    code: Seq<char>,
    message: Seq<char>,
    risk: Seq<char>,
    remedy: Seq<char>,
) -> FindingView {
    FindingView { check_id, severity, category, location, code, message, risk, remedy }
}

/// A list of one finding.
pub fn one(f: Finding) -> (r: Vec<Finding>)
    ensures
        views(r@) == seq![f@],
{
    let mut out: Vec<Finding> = Vec::new();
    out.push(f);
    assert(views(out@) =~= seq![f@]);
    out
}

/// A list of no finding.
pub fn none() -> (r: Vec<Finding>)
    ensures
        views(r@) == Seq::<FindingView>::empty(),
{
    let out: Vec<Finding> = Vec::new();
    assert(views(out@) =~= Seq::<FindingView>::empty());
    out
}

// ---- the order of findings -------------------------------------------------------------------

/// Whether location `a` comes before location `b`.
pub open spec fn location_lt(a: LocationView, b: LocationView) -> bool {
    let x = a.sort_key();
    let y = b.sort_key();
    if x.0 != y.0 {
        x.0 < y.0
    } else if x.1 != y.1 {
        x.1 < y.1
    } else if x.2 != y.2 {
        text::str_lt(x.2, y.2)
    } else if x.3 != y.3 {
        x.3 < y.3
    } else {
        x.4 < y.4
    }
}

/// Whether finding `a` is reported before finding `b`: the total order findings are reported in,
/// independent of the order the checks emitted them. Every field is in it.
pub open spec fn finding_lt(a: FindingView, b: FindingView) -> bool {
    if a.check_id != b.check_id {
        text::str_lt(a.check_id, b.check_id)
    } else if a.location != b.location {
        location_lt(a.location, b.location)
    } else if a.code != b.code {
        text::str_lt(a.code, b.code)
    } else if a.message != b.message {
        text::str_lt(a.message, b.message)
    } else if a.severity != b.severity {
        a.severity.level() < b.severity.level()
    } else if a.category != b.category {
        a.category.level() < b.category.level()
    } else if a.risk != b.risk {
        text::str_lt(a.risk, b.risk)
    } else {
        text::str_lt(a.remedy, b.remedy)
    }
}

/// The order of findings, as a function.
pub open spec fn finding_order() -> spec_fn(FindingView, FindingView) -> bool {
    |a: FindingView, b: FindingView| finding_lt(a, b)
}

/// Different locations have different places.
pub proof fn lemma_sort_key_is_injective(a: LocationView, b: LocationView)
    ensures
        a.sort_key() == b.sort_key() <==> a == b,
{
}

/// Of two locations exactly one of three holds: one comes first, the other does, or they are equal.
pub proof fn lemma_location_trichotomy(a: LocationView, b: LocationView)
    ensures
        location_lt(a, b) ==> !location_lt(b, a) && a != b,
        !location_lt(a, b) && !location_lt(b, a) <==> a == b,
{
    lemma_sort_key_is_injective(a, b);
    text::lemma_str_trichotomy(a.sort_key().2, b.sort_key().2);
}

/// The order of locations is transitive.
pub proof fn lemma_location_transitive(a: LocationView, b: LocationView, c: LocationView)
    requires
        location_lt(a, b),
        location_lt(b, c),
    ensures
        location_lt(a, c),
{
    let (x, y, z) = (a.sort_key().2, b.sort_key().2, c.sort_key().2);
    text::lemma_str_trichotomy(x, y);
    text::lemma_str_trichotomy(y, z);
    text::lemma_str_trichotomy(x, z);
    if text::str_lt(x, y) && text::str_lt(y, z) {
        text::lemma_str_transitive(x, y, z);
    }
}

/// Of two findings exactly one of three holds: one is reported first, the other is, or they say the
/// same. Nothing is left to the order in which checks ran.
pub proof fn law_finding_order_is_total(a: FindingView, b: FindingView)
    ensures
        finding_lt(a, b) ==> !finding_lt(b, a) && a != b,
        !finding_lt(a, b) && !finding_lt(b, a) <==> a == b,
{
    text::lemma_str_trichotomy(a.check_id, b.check_id);
    lemma_location_trichotomy(a.location, b.location);
    text::lemma_str_trichotomy(a.code, b.code);
    text::lemma_str_trichotomy(a.message, b.message);
    text::lemma_str_trichotomy(a.risk, b.risk);
    text::lemma_str_trichotomy(a.remedy, b.remedy);
}

/// The order in which findings are reported is transitive.
pub proof fn law_finding_order_is_transitive(a: FindingView, b: FindingView, c: FindingView)
    requires
        finding_lt(a, b),
        finding_lt(b, c),
    ensures
        finding_lt(a, c),
{
    lemma_text_chain(a.check_id, b.check_id, c.check_id);
    lemma_text_chain(a.code, b.code, c.code);
    lemma_text_chain(a.message, b.message, c.message);
    lemma_text_chain(a.risk, b.risk, c.risk);
    lemma_text_chain(a.remedy, b.remedy, c.remedy);
    lemma_location_trichotomy(a.location, b.location);
    lemma_location_trichotomy(b.location, c.location);
    lemma_location_trichotomy(a.location, c.location);
    if location_lt(a.location, b.location) && location_lt(b.location, c.location) {
        lemma_location_transitive(a.location, b.location, c.location);
    }
}

/// What the order of texts gives for three of them.
proof fn lemma_text_chain(a: Seq<char>, b: Seq<char>, c: Seq<char>)
    ensures
        text::str_lt(a, b) ==> a != b,
        text::str_lt(b, c) ==> b != c,
        text::str_lt(a, b) && text::str_lt(b, c) ==> text::str_lt(a, c) && a != c,
{
    text::lemma_str_trichotomy(a, b);
    text::lemma_str_trichotomy(b, c);
    if text::str_lt(a, b) && text::str_lt(b, c) {
        text::lemma_str_transitive(a, b, c);
        text::lemma_str_trichotomy(a, c);
    }
}

/// Whether location `a` comes before location `b`.
fn location_before(a: &Location, b: &Location) -> (r: bool)
    ensures
        r == location_lt(a@, b@),
{
    let x: (u8, u64, &str, i64, i64) = a.sort_key();
    let y: (u8, u64, &str, i64, i64) = b.sort_key();
    proof {
        text::lemma_str_trichotomy(x.2@, y.2@);
    }
    if x.0 != y.0 {
        x.0 < y.0
    } else if x.1 != y.1 {
        x.1 < y.1
    } else if before(x.2, y.2) {
        true
    } else if before(y.2, x.2) {
        false
    } else if x.3 != y.3 {
        x.3 < y.3
    } else {
        x.4 < y.4
    }
}

/// Whether finding `a` is reported before finding `b`.
pub fn finding_before(a: &Finding, b: &Finding) -> (r: bool)
    ensures
        r == finding_lt(a@, b@),
{
    proof {
        text::lemma_str_trichotomy(a.check_id@, b.check_id@);
        lemma_location_trichotomy(a.location@, b.location@);
        text::lemma_str_trichotomy(a.code@, b.code@);
        text::lemma_str_trichotomy(a.message@, b.message@);
        text::lemma_str_trichotomy(a.risk@, b.risk@);
    }
    if before(a.check_id, b.check_id) {
        true
    } else if before(b.check_id, a.check_id) {
        false
    } else if location_before(&a.location, &b.location) {
        true
    } else if location_before(&b.location, &a.location) {
        false
    } else if before(a.code.as_str(), b.code.as_str()) {
        true
    } else if before(b.code.as_str(), a.code.as_str()) {
        false
    } else if before(a.message.as_str(), b.message.as_str()) {
        true
    } else if before(b.message.as_str(), a.message.as_str()) {
        false
    } else if a.severity.rank() != b.severity.rank() {
        a.severity.rank() < b.severity.rank()
    } else if a.category.rank() != b.category.rank() {
        a.category.rank() < b.category.rank()
    } else if before(a.risk.as_str(), b.risk.as_str()) {
        true
    } else if before(b.risk.as_str(), a.risk.as_str()) {
        false
    } else {
        before(a.remedy.as_str(), b.remedy.as_str())
    }
}

/// The findings in the order they are reported in.
pub fn sort_findings(findings: Vec<Finding>) -> (r: Vec<Finding>)
    ensures
        views(r@) == seqs::sorted(views(findings@), finding_order()),
{
    broadcast use group_views;

    let mut out: Vec<Finding> = Vec::new();
    let mut i: usize = 0;
    while i < findings.len()
        invariant
            i <= findings@.len(),
            views(out@) == seqs::sorted(views(findings@).take(i as int), finding_order()),
        decreases findings@.len() - i,
    {
        let f: Finding = findings[i].clone();
        let mut k: usize = 0;
        while k < out.len() && !finding_before(&f, &out[k])
            invariant
                k <= out@.len(),
                forall|j: int| 0 <= j < k ==> !finding_lt(f@, #[trigger] views(out@)[j]),
            decreases out@.len() - k,
        {
            assert(views(out@)[k as int] == out@[k as int]@);
            k = k + 1;
        }
        proof {
            if k < out@.len() {
                assert(views(out@)[k as int] == out@[k as int]@);
            }
            seqs::lemma_placed_at(views(out@), f@, finding_order(), k as int);
            seqs::lemma_sorted_step(views(findings@), finding_order(), i as int);
            assert(views(out@.insert(k as int, f)) =~= views(out@).insert(k as int, f@));
        }
        out.insert(k, f);
        i = i + 1;
    }
    proof {
        seqs::lemma_take_all(views(findings@));
    }
    out
}

// ---- checks ----------------------------------------------------------------------------------

/// Static, run-independent metadata describing one check.
#[derive(Debug, Clone, Copy)]
pub struct CheckInfo {
    /// The check's stable id (e.g. `structural.shape-consistency`).
    pub id: &'static str,
    /// One-line human title.
    pub title: &'static str,
    /// The family this check belongs to.
    pub category: Category,
    /// The severity the check emits by default (before any config override).
    pub default_severity: Severity,
    /// The CDM scope the check reasons over.
    pub scope: Scope,
    /// The check's version.
    pub version: &'static str,
    /// Every finding `code` this check can emit.
    pub finding_codes: &'static [&'static str],
}

/// What the metadata of a check says.
pub struct CheckMeta {
    /// The check's stable id.
    pub id: Seq<char>,
    /// One-line human title.
    pub title: Seq<char>,
    /// The family this check belongs to.
    pub category: Category,
    /// The severity the check emits by default.
    pub default_severity: Severity,
    /// The CDM scope the check reasons over.
    pub scope: Scope,
    /// The check's version.
    pub version: Seq<char>,
    /// Every finding `code` this check can emit.
    pub finding_codes: Seq<Seq<char>>,
}

impl View for CheckInfo {
    type V = CheckMeta;

    open spec fn view(&self) -> CheckMeta {
        CheckMeta {
            id: self.id@,
            title: self.title@,
            category: self.category,
            default_severity: self.default_severity,
            scope: self.scope,
            version: self.version@,
            finding_codes: text::str_texts(self.finding_codes@),
        }
    }
}

/// What a check needs to know about the run beyond the CDM itself.
///
/// Deliberately minimal: a check reads the dataset, not the environment. The one thing the CDM
/// cannot express is the difference between "this stream has no frames" and "this run did not read
/// any frames," and those must not produce the same findings.
#[derive(Debug)]
pub struct CheckContext {
    /// Whether the ingest read stream payloads at all. `false` under a metadata-only ingest.
    pub frames_read: bool,
    /// Provenance keys a verified producer attestation supplied, in the order the attestation lists
    /// them.
    pub attested_keys: Vec<String>,
}

impl Default for CheckContext {
    /// A full ingest: frames were read, and nothing was attested.
    fn default() -> (r: Self)
        ensures
            r.frames_read,
            r.attested_keys@.len() == 0,
    {
        CheckContext { frames_read: true, attested_keys: Vec::new() }
    }
}

/// A registered check. The engine treats it as an opaque unit of work over the CDM: what it reports
/// is a function of the dataset and of what the run covered.
pub trait Check: Sized {
    /// What the check says about itself.
    spec fn meta(&self) -> CheckMeta;

    /// What the check reports of a dataset.
    spec fn report(&self, dataset: &Dataset) -> Seq<FindingView>;

    /// What the check reports of a dataset, given whether payloads were read and which provenance keys
    /// were attested.
    spec fn report_in(&self, dataset: &Dataset, frames_read: bool, attested: Seq<Seq<char>>) -> Seq<FindingView>;

    /// The check's metadata.
    fn info(&self) -> (r: CheckInfo)
        ensures
            r@ == self.meta(),
    ;

    /// Stable, unique check id (e.g. `structural.episode-boundary`).
    fn id(&self) -> (r: &'static str)
        ensures
            r@ == self.meta().id,
    {
        self.info().id
    }

    /// Human-readable title.
    fn title(&self) -> (r: &'static str)
        ensures
            r@ == self.meta().title,
    {
        self.info().title
    }

    /// The category this check belongs to.
    fn category(&self) -> (r: Category)
        ensures
            r == self.meta().category,
    {
        self.info().category
    }

    /// Default severity for this check's findings.
    fn default_severity(&self) -> (r: Severity)
        ensures
            r == self.meta().default_severity,
    {
        self.info().default_severity
    }

    /// The CDM scope this check applies to.
    fn scope(&self) -> (r: Scope)
        ensures
            r == self.meta().scope,
    {
        self.info().scope
    }

    /// The check's version, recorded in the verdict for reproducibility.
    fn version(&self) -> (r: &'static str)
        ensures
            r@ == self.meta().version,
    {
        self.info().version
    }

    /// Every finding `code` this check can emit (e.g. `TEMPORAL.CLOCK_SKEW`).
    fn finding_codes(&self) -> (r: &'static [&'static str])
        ensures
            text::str_texts(r@) == self.meta().finding_codes,
    {
        self.info().finding_codes
    }

    /// Inspect the dataset and emit findings.
    fn run(&self, dataset: &Dataset) -> (r: Vec<Finding>)
        ensures
            views(r@) == self.report(dataset),
    ;

    /// Like [`Check::run`], but told what the ingest actually covered. A check whose conclusions
    /// depend only on what is in the CDM ignores the context; one that would otherwise read
    /// *absence* as a defect does not.
    fn run_in(&self, dataset: &Dataset, context: &CheckContext) -> (r: Vec<Finding>)
        ensures
            views(r@) == self.report_in(dataset, context.frames_read, text::texts(context.attested_keys@)),
    ;
}

} // verus!
