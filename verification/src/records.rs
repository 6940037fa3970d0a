//! Verdicts as JSON documents: what is hashed, and what a certificate states of a run.

use vstd::prelude::*;
use vstd::string::*;

use crate::assoc;
use crate::assoc::Entry;
use crate::certificate::render::list_tags;
use crate::check;
use crate::check::{Finding, FindingView, Location, LocationView, Severity};
use crate::decimal;
use crate::engine;
use crate::engine::{
    CoverageNote, EffectiveConfig, EffectiveConfigView, ErroredCheck, ErroredCheckView, ExecutedCheck, ExecutedCheckView,
    SeverityCounts, Status, Verdict,
};
use crate::json;
use crate::json::{member, text_json, texts_json, Json, JsonView, Member};
use crate::order;
use crate::tolerances::Tolerances;

verus! {

/// A signed number.
pub open spec fn signed_doc(n: int) -> JsonView {
    if n < 0 { JsonView::Negative(n as i64) } else { JsonView::Natural(n as u64) }
}

/// A signed number.
pub fn signed_json(n: i64) -> (r: Json)
    ensures
        r.doc() == signed_doc(n as int),
{
    if n < 0 {
        Json::Negative(n)
    } else {
        Json::Natural(n as u64)
    }
}

/// A status as it is written in documents.
pub open spec fn status_tag(status: Status) -> Seq<char> {
    match status {
        Status::Pass => "pass"@,
        Status::PassWithWarnings => "pass-with-warnings"@,
        Status::Fail => "fail"@,
    }
}

/// A status as it is written in documents.
pub fn tag_status(status: Status) -> (r: &'static str)
    ensures
        r@ == status_tag(status),
{
    match status {
        Status::Pass => "pass",
        Status::PassWithWarnings => "pass-with-warnings",
        Status::Fail => "fail",
    }
}

/// A threshold as a document.
pub open spec fn threshold_doc(t: u64) -> JsonView {
    JsonView::Float(t, decimal::plain_text(t))
}

/// A threshold as a document.
pub fn threshold_json(t: u64) -> (r: Json)
    ensures
        r.doc() == threshold_doc(t),
{
    Json::Float(t, decimal::plain(t))
}

/// Tolerances as a document.
pub open spec fn tolerances_doc(t: Tolerances) -> JsonView {
    JsonView::Object(
        seq![
            ("clock_skew_ns"@, signed_doc(t.clock_skew_ns as int)),
            ("start_offset_ns"@, signed_doc(t.start_offset_ns as int)),
            ("end_offset_ns"@, signed_doc(t.end_offset_ns as int)),
            ("rate_deviation"@, threshold_doc(t.rate_deviation)),
            ("gap_factor"@, threshold_doc(t.gap_factor)),
            ("jitter_cv"@, threshold_doc(t.jitter_cv)),
            ("episode_duration_factor"@, threshold_doc(t.episode_duration_factor)),
            ("saturation_fraction"@, threshold_doc(t.saturation_fraction)),
            ("saturation_min_samples"@, JsonView::Natural(t.saturation_min_samples)),
            ("outlier_z"@, threshold_doc(t.outlier_z)),
            ("sequence_drop_fraction"@, threshold_doc(t.sequence_drop_fraction)),
            ("ego_max_speed_mps"@, threshold_doc(t.ego_max_speed_mps)),
            ("near_duplicate_fraction"@, threshold_doc(t.near_duplicate_fraction)),
            ("sensor_clock_offset_ns"@, signed_doc(t.sensor_clock_offset_ns as int)),
        ],
    )
}

/// Tolerances as a document.
pub fn tolerances_json(t: &Tolerances) -> (r: Json)
    ensures
        r.doc() == tolerances_doc(*t),
{
    broadcast use json::group_json;

    let mut m: Vec<Member> = Vec::new();
    m.push(member("clock_skew_ns", signed_json(t.clock_skew_ns)));
    m.push(member("start_offset_ns", signed_json(t.start_offset_ns)));
    m.push(member("end_offset_ns", signed_json(t.end_offset_ns)));
    m.push(member("rate_deviation", threshold_json(t.rate_deviation)));
    m.push(member("gap_factor", threshold_json(t.gap_factor)));
    m.push(member("jitter_cv", threshold_json(t.jitter_cv)));
    m.push(member("episode_duration_factor", threshold_json(t.episode_duration_factor)));
    m.push(member("saturation_fraction", threshold_json(t.saturation_fraction)));
    m.push(member("saturation_min_samples", Json::Natural(t.saturation_min_samples)));
    m.push(member("outlier_z", threshold_json(t.outlier_z)));
    m.push(member("sequence_drop_fraction", threshold_json(t.sequence_drop_fraction)));
    m.push(member("ego_max_speed_mps", threshold_json(t.ego_max_speed_mps)));
    m.push(member("near_duplicate_fraction", threshold_json(t.near_duplicate_fraction)));
    m.push(member("sensor_clock_offset_ns", signed_json(t.sensor_clock_offset_ns)));
    assert(json::members(m@) =~= tolerances_doc(*t)->Object_0);
    Json::Object(m)
}

/// Overrides as members of a document.
pub open spec fn override_members(s: Seq<(Seq<char>, Severity)>) -> Seq<(Seq<char>, JsonView)> {
    s.map_values(|p: (Seq<char>, Severity)| (p.0, JsonView::Text(p.1.spec_tag())))
}

/// Overrides as a document.
pub fn overrides_json(list: &Vec<Entry<Severity>>) -> (r: Json)
    ensures
        r.doc() == JsonView::Object(override_members(assoc::pairs(list@))),
{
    broadcast use json::group_json;

    let ghost o = override_members(assoc::pairs(list@));
    let mut m: Vec<Member> = Vec::new();
    let mut i: usize = 0;
    assert(json::members(m@) =~= o.take(0));
    while i < list.len()
        invariant
            i <= list@.len(),
            o == override_members(assoc::pairs(list@)),
            json::members(m@) == o.take(i as int),
        decreases list@.len() - i,
    {
        m.push(member(list[i].key.as_str(), text_json(list[i].value.tag())));
        proof {
            assert(assoc::pairs(list@)[i as int] == (list@[i as int].key@, list@[i as int].value));
            assert(o.take(i + 1) =~= o.take(i as int).push(o[i as int]));
        }
        i = i + 1;
    }
    assert(o.take(i as int) =~= o);
    Json::Object(m)
}

/// Counts as members of a document.
pub open spec fn count_members(s: Seq<(Seq<char>, u64)>) -> Seq<(Seq<char>, JsonView)> {
    s.map_values(|p: (Seq<char>, u64)| (p.0, JsonView::Natural(p.1)))
}

/// Counts as a document.
pub fn counts_json(list: &Vec<Entry<u64>>) -> (r: Json)
    ensures
        r.doc() == JsonView::Object(count_members(assoc::pairs(list@))),
{
    broadcast use json::group_json;

    let ghost o = count_members(assoc::pairs(list@));
    let mut m: Vec<Member> = Vec::new();
    let mut i: usize = 0;
    assert(json::members(m@) =~= o.take(0));
    while i < list.len()
        invariant
            i <= list@.len(),
            o == count_members(assoc::pairs(list@)),
            json::members(m@) == o.take(i as int),
        decreases list@.len() - i,
    {
        m.push(member(list[i].key.as_str(), Json::Natural(list[i].value)));
        proof {
            assert(assoc::pairs(list@)[i as int] == (list@[i as int].key@, list@[i as int].value));
            assert(o.take(i + 1) =~= o.take(i as int).push(o[i as int]));
        }
        i = i + 1;
    }
    assert(o.take(i as int) =~= o);
    Json::Object(m)
}

/// An effective configuration as a document.
pub open spec fn config_doc(c: EffectiveConfigView) -> JsonView {
    JsonView::Object(
        seq![
            ("categories"@, match c.categories {
                Some(s) => JsonView::List(json::text_views(engine::tags(s))),
                None => JsonView::Null,
            }),
            ("only_checks"@, match c.only_checks {
                Some(s) => JsonView::List(json::text_views(s)),
                None => JsonView::Null,
            }),
            ("disabled_checks"@, JsonView::List(json::text_views(c.disabled_checks))),
            ("severity_overrides"@, JsonView::Object(override_members(c.severity_overrides))),
            ("tolerances"@, tolerances_doc(c.tolerances)),
        ],
    )
}

/// An effective configuration as a document.
pub fn config_json(c: &EffectiveConfig) -> (r: Json)
    ensures
        r.doc() == config_doc(c@),
{
    broadcast use json::group_json;

    let mut m: Vec<Member> = Vec::new();
    m.push(
        member(
            "categories",
            match &c.categories {
                Some(s) => texts_json(&list_tags(s)),
                None => Json::Null,
            },
        ),
    );
    m.push(
        member(
            "only_checks",
            match &c.only_checks {
                Some(s) => texts_json(s),
                None => Json::Null,
            },
        ),
    );
    m.push(member("disabled_checks", texts_json(&c.disabled_checks)));
    m.push(member("severity_overrides", overrides_json(&c.severity_overrides)));
    m.push(member("tolerances", tolerances_json(&c.tolerances)));
    assert(json::members(m@) =~= config_doc(c@)->Object_0);
    Json::Object(m)
}

// ---- verdicts --------------------------------------------------------------------------------

/// Counts by severity as a document.
pub open spec fn severities_doc(c: SeverityCounts) -> JsonView {
    JsonView::Object(
        seq![
            ("error"@, JsonView::Natural(c.error)),
            ("warning"@, JsonView::Natural(c.warning)),
            ("info"@, JsonView::Natural(c.info)),
        ],
    )
}

/// Counts by severity as a document.
pub fn severities_json(c: &SeverityCounts) -> (r: Json)
    ensures
        r.doc() == severities_doc(*c),
{
    broadcast use json::group_json;

    let mut m: Vec<Member> = Vec::new();
    m.push(member("error", Json::Natural(c.error)));
    m.push(member("warning", Json::Natural(c.warning)));
    m.push(member("info", Json::Natural(c.info)));
    assert(json::members(m@) =~= severities_doc(*c)->Object_0);
    Json::Object(m)
}

/// What a run covered, as a document.
pub open spec fn coverage_doc(c: CoverageNote) -> JsonView {
    JsonView::Object(
        match c {
            CoverageNote::Full => seq![("kind"@, JsonView::Text("full"@))],
            CoverageNote::Sample { request, episodes_ingested } => seq![
                ("kind"@, JsonView::Text("sample"@)),
                ("request"@, JsonView::Text(request@)),
                ("episodes_ingested"@, JsonView::Natural(episodes_ingested)),
            ],
            CoverageNote::MetadataOnly { episodes_declared } => seq![
                ("kind"@, JsonView::Text("metadata_only"@)),
                ("episodes_declared"@, JsonView::Natural(episodes_declared)),
            ],
        },
    )
}

/// What a run covered, as a document.
fn coverage_json(c: &CoverageNote) -> (r: Json)
    ensures
        r.doc() == coverage_doc(*c),
{
    broadcast use json::group_json;

    let mut m: Vec<Member> = Vec::new();
    match c {
        CoverageNote::Full => {
            m.push(member("kind", text_json("full")));
        },
        CoverageNote::Sample { request, episodes_ingested } => {
            m.push(member("kind", text_json("sample")));
            m.push(member("request", text_json(request.as_str())));
            m.push(member("episodes_ingested", Json::Natural(*episodes_ingested)));
        },
        CoverageNote::MetadataOnly { episodes_declared } => {
            m.push(member("kind", text_json("metadata_only")));
            m.push(member("episodes_declared", Json::Natural(*episodes_declared)));
        },
    }
    assert(json::members(m@) =~= coverage_doc(*c)->Object_0);
    Json::Object(m)
}

/// A location as a document.
pub open spec fn location_doc(l: LocationView) -> JsonView {
    JsonView::Object(
        match l {
            LocationView::Dataset => seq![("kind"@, JsonView::Text("dataset"@))],
            LocationView::Episode { episode } => seq![
                ("kind"@, JsonView::Text("episode"@)),
                ("episode"@, JsonView::Natural(episode)),
            ],
            LocationView::Stream { episode, stream } => seq![
                ("kind"@, JsonView::Text("stream"@)),
                ("episode"@, JsonView::Natural(episode)),
                ("stream"@, JsonView::Text(stream)),
            ],
            LocationView::FrameRange { episode, stream, start_frame, end_frame } => seq![
                ("kind"@, JsonView::Text("frame-range"@)),
                ("episode"@, JsonView::Natural(episode)),
                ("stream"@, JsonView::Text(stream)),
                ("start_frame"@, JsonView::Natural(start_frame)),
                ("end_frame"@, JsonView::Natural(end_frame)),
            ],
            LocationView::TimeRange { episode, stream, start_ts, end_ts } => seq![
                ("kind"@, JsonView::Text("time-range"@)),
                ("episode"@, JsonView::Natural(episode)),
                ("stream"@, JsonView::Text(stream)),
                ("start_ts"@, signed_doc(start_ts as int)),
                ("end_ts"@, signed_doc(end_ts as int)),
            ],
        },
    )
}

/// A location as a document.
fn location_json(l: &Location) -> (r: Json)
    ensures
        r.doc() == location_doc(l@),
{
    broadcast use json::group_json;

    let mut m: Vec<Member> = Vec::new();
    match l {
        Location::Dataset => {
            m.push(member("kind", text_json("dataset")));
        },
        Location::Episode { episode } => {
            m.push(member("kind", text_json("episode")));
            m.push(member("episode", Json::Natural(*episode)));
        },
        Location::Stream { episode, stream } => {
            m.push(member("kind", text_json("stream")));
            m.push(member("episode", Json::Natural(*episode)));
            m.push(member("stream", text_json(stream.as_str())));
        },
        Location::FrameRange { episode, stream, start_frame, end_frame } => {
            m.push(member("kind", text_json("frame-range")));
            m.push(member("episode", Json::Natural(*episode)));
            m.push(member("stream", text_json(stream.as_str())));
            m.push(member("start_frame", Json::Natural(*start_frame)));
            m.push(member("end_frame", Json::Natural(*end_frame)));
        },
        Location::TimeRange { episode, stream, start_ts, end_ts } => {
            m.push(member("kind", text_json("time-range")));
            m.push(member("episode", Json::Natural(*episode)));
            m.push(member("stream", text_json(stream.as_str())));
            m.push(member("start_ts", signed_json(*start_ts)));
            m.push(member("end_ts", signed_json(*end_ts)));
        },
    }
    assert(json::members(m@) =~= location_doc(l@)->Object_0);
    Json::Object(m)
}

/// A finding as a document.
pub open spec fn finding_doc(f: FindingView) -> JsonView {
    JsonView::Object(
        seq![
            ("check_id"@, JsonView::Text(f.check_id)),
            ("severity"@, JsonView::Text(f.severity.spec_tag())),
            ("category"@, JsonView::Text(f.category.spec_tag())),
            ("location"@, location_doc(f.location)),
            ("code"@, JsonView::Text(f.code)),
            ("message"@, JsonView::Text(f.message)),
            ("risk"@, JsonView::Text(f.risk)),
            ("remedy"@, JsonView::Text(f.remedy)),
        ],
    )
}

/// A finding as a document.
fn finding_json(f: &Finding) -> (r: Json)
    ensures
        r.doc() == finding_doc(f@),
{
    broadcast use json::group_json;

    let mut m: Vec<Member> = Vec::new();
    m.push(member("check_id", text_json(f.check_id)));
    m.push(member("severity", text_json(f.severity.tag())));
    m.push(member("category", text_json(f.category.tag())));
    m.push(member("location", location_json(&f.location)));
    m.push(member("code", text_json(f.code.as_str())));
    m.push(member("message", text_json(f.message.as_str())));
    m.push(member("risk", text_json(f.risk.as_str())));
    m.push(member("remedy", text_json(f.remedy.as_str())));
    assert(json::members(m@) =~= finding_doc(f@)->Object_0);
    Json::Object(m)
}

/// Findings as documents.
pub open spec fn finding_docs(s: Seq<FindingView>) -> Seq<JsonView> {
    s.map_values(|f: FindingView| finding_doc(f))
}

/// Findings as a document.
fn findings_json(list: &Vec<Finding>) -> (r: Json)
    ensures
        r.doc() == JsonView::List(finding_docs(check::views(list@))),
{
    broadcast use json::group_json;

    let ghost all = finding_docs(check::views(list@));
    let mut out: Vec<Json> = Vec::new();
    let mut i: usize = 0;
    assert(json::docs(out@) =~= all.take(0));
    while i < list.len()
        invariant
            i <= list@.len(),
            all == finding_docs(check::views(list@)),
            json::docs(out@) == all.take(i as int),
        decreases list@.len() - i,
    {
        assert(check::views(list@)[i as int] == list@[i as int]@);
        assert(all[i as int] == finding_doc(list@[i as int]@));
        out.push(finding_json(&list[i]));
        assert(all.take(i + 1) =~= all.take(i as int).push(all[i as int]));
        i = i + 1;
    }
    assert(all.take(i as int) =~= all);
    Json::List(out)
}

/// A check that ran, as a document.
pub open spec fn executed_doc(c: ExecutedCheckView) -> JsonView {
    JsonView::Object(
        seq![
            ("check_id"@, JsonView::Text(c.check_id)),
            ("version"@, JsonView::Text(c.version)),
            ("category"@, JsonView::Text(c.category.spec_tag())),
        ],
    )
}

/// A check that ran, as a document.
fn executed_json(c: &ExecutedCheck) -> (r: Json)
    ensures
        r.doc() == executed_doc(c@),
{
    broadcast use json::group_json;

    let mut m: Vec<Member> = Vec::new();
    m.push(member("check_id", text_json(c.check_id.as_str())));
    m.push(member("version", text_json(c.version.as_str())));
    m.push(member("category", text_json(c.category.tag())));
    assert(json::members(m@) =~= executed_doc(c@)->Object_0);
    Json::Object(m)
}

/// Checks that ran, as documents.
pub open spec fn executed_docs(s: Seq<ExecutedCheckView>) -> Seq<JsonView> {
    s.map_values(|c: ExecutedCheckView| executed_doc(c))
}

/// Checks that ran, as a document.
pub fn executed_list(list: &Vec<ExecutedCheck>) -> (r: Json)
    ensures
        r.doc() == JsonView::List(executed_docs(order::views(list@))),
{
    broadcast use json::group_json;

    let ghost all = executed_docs(order::views(list@));
    let mut out: Vec<Json> = Vec::new();
    let mut i: usize = 0;
    assert(json::docs(out@) =~= all.take(0));
    while i < list.len()
        invariant
            i <= list@.len(),
            all == executed_docs(order::views(list@)),
            json::docs(out@) == all.take(i as int),
        decreases list@.len() - i,
    {
        assert(order::views(list@)[i as int] == list@[i as int]@);
        assert(all[i as int] == executed_doc(list@[i as int]@));
        out.push(executed_json(&list[i]));
        assert(all.take(i + 1) =~= all.take(i as int).push(all[i as int]));
        i = i + 1;
    }
    assert(all.take(i as int) =~= all);
    Json::List(out)
}

/// A check that failed, as a document.
pub open spec fn errored_doc(c: ErroredCheckView) -> JsonView {
    JsonView::Object(
        seq![
            ("check_id"@, JsonView::Text(c.check_id)),
            ("version"@, JsonView::Text(c.version)),
            ("message"@, JsonView::Text(c.message)),
        ],
    )
}

/// A check that failed, as a document.
fn errored_json(c: &ErroredCheck) -> (r: Json)
    ensures
        r.doc() == errored_doc(c@),
{
    broadcast use json::group_json;

    let mut m: Vec<Member> = Vec::new();
    m.push(member("check_id", text_json(c.check_id)));
    m.push(member("version", text_json(c.version)));
    m.push(member("message", text_json(c.message.as_str())));
    assert(json::members(m@) =~= errored_doc(c@)->Object_0);
    Json::Object(m)
}

/// Checks that failed, as documents.
pub open spec fn errored_docs(s: Seq<ErroredCheckView>) -> Seq<JsonView> {
    s.map_values(|c: ErroredCheckView| errored_doc(c))
}

/// Checks that failed, as a document.
fn errored_list(list: &Vec<ErroredCheck>) -> (r: Json)
    ensures
        r.doc() == JsonView::List(errored_docs(order::views(list@))),
{
    broadcast use json::group_json;

    let ghost all = errored_docs(order::views(list@));
    let mut out: Vec<Json> = Vec::new();
    let mut i: usize = 0;
    assert(json::docs(out@) =~= all.take(0));
    while i < list.len()
        invariant
            i <= list@.len(),
            all == errored_docs(order::views(list@)),
            json::docs(out@) == all.take(i as int),
        decreases list@.len() - i,
    {
        assert(order::views(list@)[i as int] == list@[i as int]@);
        assert(all[i as int] == errored_doc(list@[i as int]@));
        out.push(errored_json(&list[i]));
        assert(all.take(i + 1) =~= all.take(i as int).push(all[i as int]));
        i = i + 1;
    }
    assert(all.take(i as int) =~= all);
    Json::List(out)
}

/// A verdict, without its own hash, as a document.
pub open spec fn verdict_doc(v: Verdict) -> JsonView {
    JsonView::Object(
        seq![
            ("coverage"@, coverage_doc(v.coverage)),
            ("veridex_version"@, JsonView::Text(v.veridex_version@)),
            ("cdm_content_hash"@, JsonView::Text(v.cdm_content_hash@)),
            ("status"@, JsonView::Text(status_tag(v.status))),
            ("counts"@, severities_doc(v.counts)),
            ("findings"@, JsonView::List(finding_docs(check::views(v.findings@)))),
            ("errored_checks"@, JsonView::List(errored_docs(order::views(v.errored_checks@)))),
            ("executed_checks"@, JsonView::List(executed_docs(order::views(v.executed_checks@)))),
            ("effective_config"@, config_doc(v.effective_config@)),
        ],
    )
}

/// A verdict, without its own hash, as a document.
pub fn verdict_json(v: &Verdict) -> (r: Json)
    ensures
        r.doc() == verdict_doc(*v),
{
    broadcast use json::group_json;

    let mut m: Vec<Member> = Vec::new();
    m.push(member("coverage", coverage_json(&v.coverage)));
    m.push(member("veridex_version", text_json(v.veridex_version.as_str())));
    m.push(member("cdm_content_hash", text_json(v.cdm_content_hash.as_str())));
    m.push(member("status", text_json(tag_status(v.status))));
    m.push(member("counts", severities_json(&v.counts)));
    m.push(member("findings", findings_json(&v.findings)));
    m.push(member("errored_checks", errored_list(&v.errored_checks)));
    m.push(member("executed_checks", executed_list(&v.executed_checks)));
    m.push(member("effective_config", config_json(&v.effective_config)));
    assert(json::members(m@) =~= verdict_doc(*v)->Object_0);
    Json::Object(m)
}

} // verus!
