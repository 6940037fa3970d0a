//! Semantic checks: language and annotation quality.
//!
//! Annotations are verified, never produced or edited. An absent task is deliberately not flagged:
//! the source carried no resolvable task for that episode, which is "unresolved", not "empty". Only
//! tasks that are present are judged.

use vstd::prelude::*;
use vstd::string::*;

use crate::cat::{cat3, cat5, cat7, cat9};
use crate::cdm::{Dataset, Episode, Label, Stream};
use crate::check;
use crate::check::{none, one, Category, Check, CheckContext, CheckInfo, CheckMeta, Finding, FindingView, Location, LocationView, Scope, Severity};
use crate::checks::lists;
use crate::checks::lists::list_a_few_quoted;
use crate::checks::timeline;
use crate::checks::walk;
use crate::checks::walk::{walk_episodes, EpisodeRule};
use crate::seqs;
use crate::seqs::{put_text, put_time};
use crate::text;
use crate::text::{among, holds, lower, same, trim, dec_i64, dec_u64, dec_usize};

verus! {

broadcast use text::lemma_texts_push;

// ---- tasks -----------------------------------------------------------------------------------

/// Task-string quality: present-but-empty or present-but-placeholder episode tasks.
#[derive(Debug, Clone, Copy)]
pub struct TaskQuality;

/// The id of [`TaskQuality`].
pub const TASK_ID: &'static str = "semantic.task-quality";

/// The code for an empty task.
pub const EMPTY_TASK_CODE: &'static str = "SEMANTIC.EMPTY_TASK";

/// The code for a task that says nothing.
pub const PLACEHOLDER_TASK_CODE: &'static str = "SEMANTIC.PLACEHOLDER_TASK";

pub const EMPTY_TASK_RISK: &'static str = "An empty task gives a language-conditioned policy nothing \
     to condition on, yet still counts as a labeled episode.";

pub const EMPTY_TASK_REMEDY: &'static str = "Fill in the task/instruction for this episode, or drop \
     the label if the episode is genuinely task-free.";

/// The finding for an empty task.
pub open spec fn empty_task_finding(episode: u64) -> FindingView {
    check::finding(
        TASK_ID@,
        Category::Semantic,
        Severity::Warning,
        LocationView::Episode { episode },
        EMPTY_TASK_CODE@,
        "episode "@ + text::dec(episode as nat) + " has a present but empty task string"@,
        EMPTY_TASK_RISK@,
        EMPTY_TASK_REMEDY@,
    )
}

/// The finding for an empty task.
fn make_empty_task(episode: u64) -> (r: Finding)
    ensures
        r@ == empty_task_finding(episode),
{
    let message: String = cat3("episode ", dec_u64(episode).as_str(), " has a present but empty task string");
    Finding::new(TASK_ID, Category::Semantic, Severity::Warning, Location::Episode { episode }, EMPTY_TASK_CODE, message).with_risk(
        EMPTY_TASK_RISK,
    ).with_remedy(EMPTY_TASK_REMEDY)
}

pub const PLACEHOLDER_TASK_RISK: &'static str = "A placeholder task is present but carries no real \
     instruction, diluting language supervision without being obviously missing.";

pub const PLACEHOLDER_TASK_REMEDY: &'static str = "Replace the placeholder with the actual \
     instruction for this episode.";

/// The finding for a task that says nothing.
pub open spec fn placeholder_task_finding(episode: u64, task: Seq<char>) -> FindingView {
    check::finding(
        TASK_ID@,
        Category::Semantic,
        Severity::Info,
        LocationView::Episode { episode },
        PLACEHOLDER_TASK_CODE@,
        "episode "@ + text::dec(episode as nat) + " has a low-information placeholder task `"@ + task
            + "`"@,
        PLACEHOLDER_TASK_RISK@,
        PLACEHOLDER_TASK_REMEDY@,
    )
}

/// The finding for a task that says nothing.
fn make_placeholder_task(episode: u64, task: &str) -> (r: Finding)
    ensures
        r@ == placeholder_task_finding(episode, task@),
{
    let message: String = cat5(
        "episode ",
        dec_u64(episode).as_str(),
        " has a low-information placeholder task `",
        task,
        "`",
    );
    Finding::new(TASK_ID, Category::Semantic, Severity::Info, Location::Episode { episode }, PLACEHOLDER_TASK_CODE, message).with_risk(
        PLACEHOLDER_TASK_RISK,
    ).with_remedy(PLACEHOLDER_TASK_REMEDY)
}

/// Degenerate placeholder tasks, in lower case: common low-information stand-ins that carry no real
/// instruction.
pub open spec fn placeholders() -> Seq<Seq<char>> {
    seq![
        "hold"@,
        "up"@,
        "down"@,
        "left"@,
        "right"@,
        "n/a"@,
        "na"@,
        "none"@,
        "null"@,
        "task"@,
        "test"@,
        "todo"@,
        "-"@,
    ]
}

/// Whether a task says nothing.
fn is_placeholder(task: &str) -> (r: bool)
    ensures
        r == placeholders().contains(text::lowered(task@)),
{
    let words: &'static [&'static str] = &[
        "hold",
        "up",
        "down",
        "left",
        "right",
        "n/a",
        "na",
        "none",
        "null",
        "task",
        "test",
        "todo",
        "-",
    ];
    assert(text::str_texts(words@) =~= placeholders());
    among(words, lower(task).as_str())
}

impl EpisodeRule for TaskQuality {
    open spec fn of_episode(&self, episode: Episode) -> Seq<FindingView> {
        match episode.task {
            Some(task) => {
                let t = text::trimmed(task@);
                if t.len() == 0 {
                    seq![empty_task_finding(episode.index)]
                } else if placeholders().contains(text::lowered(t)) {
                    seq![placeholder_task_finding(episode.index, t)]
                } else {
                    Seq::empty()
                }
            },
            None => Seq::empty(),
        }
    }

    fn check_episode(&self, episode: &Episode) -> (r: Vec<Finding>) {
        match &episode.task {
            Some(task) => {
                let t: String = trim(task.as_str());
                if is_empty(t.as_str()) {
                    one(make_empty_task(episode.index))
                } else if is_placeholder(t.as_str()) {
                    one(make_placeholder_task(episode.index, t.as_str()))
                } else {
                    none()
                }
            },
            None => none(),
        }
    }
}

/// Whether a text is empty.
fn is_empty(s: &str) -> (r: bool)
    ensures
        r == (s@.len() == 0),
{
    s.unicode_len() == 0
}

impl Check for TaskQuality {
    open spec fn meta(&self) -> CheckMeta {
        CheckMeta {
            id: TASK_ID@,
            title: "Task-string quality"@,
            category: Category::Semantic,
            default_severity: Severity::Warning,
            scope: Scope::Episode,
            version: "1"@,
            finding_codes: seq![EMPTY_TASK_CODE@, PLACEHOLDER_TASK_CODE@],
        }
    }

    fn info(&self) -> (r: CheckInfo) {
        let finding_codes: &'static [&'static str] = &[EMPTY_TASK_CODE, PLACEHOLDER_TASK_CODE];
        assert(text::str_texts(finding_codes@) =~= self.meta().finding_codes);
        CheckInfo {
            id: TASK_ID,
            title: "Task-string quality",
            category: Category::Semantic,
            default_severity: Severity::Warning,
            scope: Scope::Episode,
            version: "1",
            finding_codes,
        }
    }

    open spec fn report(&self, dataset: &Dataset) -> Seq<FindingView> {
        walk::by_episode(*self, dataset.episodes@)
    }

    open spec fn report_in(&self, dataset: &Dataset, frames_read: bool, attested: Seq<Seq<char>>) -> Seq<FindingView> {
        self.report(dataset)
    }

    fn run(&self, dataset: &Dataset) -> (r: Vec<Finding>) {
        walk_episodes(self, dataset)
    }

    fn run_in(&self, dataset: &Dataset, context: &CheckContext) -> (r: Vec<Finding>) {
        self.run(dataset)
    }
}

// ---- annotations -----------------------------------------------------------------------------

/// Language-annotation integrity. Where a dataset carries timestamped language annotations, they are
/// verified without ever writing, generating, or altering one:
///
/// - `SEMANTIC.ANNOTATION_UNALIGNED` (error) — a timestamped annotation whose time falls outside its
///   episode's span, so it would attach to a moment the episode never recorded.
/// - `SEMANTIC.ANNOTATION_CONFLICT` (warning) — two annotations at the same timestamp with different
///   values: ambiguous supervision at one instant.
/// - `SEMANTIC.EMPTY_ANNOTATION` (warning) — an annotation present in form but empty in substance.
///
/// Only labels of the key `language` are judged.
#[derive(Debug, Clone, Copy)]
pub struct AnnotationIntegrity;

/// The id of [`AnnotationIntegrity`].
pub const ANNOTATION_ID: &'static str = "semantic.annotation-integrity";

/// The code for an annotation outside its episode.
pub const UNALIGNED_CODE: &'static str = "SEMANTIC.ANNOTATION_UNALIGNED";

/// The code for annotations that contradict.
pub const CONFLICT_CODE: &'static str = "SEMANTIC.ANNOTATION_CONFLICT";

/// The code for an empty annotation.
pub const EMPTY_ANNOTATION_CODE: &'static str = "SEMANTIC.EMPTY_ANNOTATION";

pub const EMPTY_ANNOTATION_RISK: &'static str = "An empty annotation is present in form but \
     supervises nothing, diluting language conditioning while counting as a labeled moment.";

pub const EMPTY_ANNOTATION_REMEDY: &'static str = "Fill in the annotation text, or drop the empty \
     annotation.";

/// The finding for an empty annotation.
pub open spec fn empty_annotation_finding(episode: u64) -> FindingView {
    check::finding(
        ANNOTATION_ID@,
        Category::Semantic,
        Severity::Warning,
        LocationView::Episode { episode },
        EMPTY_ANNOTATION_CODE@,
        "episode "@ + text::dec(episode as nat) + " carries an empty language annotation"@,
        EMPTY_ANNOTATION_RISK@,
        EMPTY_ANNOTATION_REMEDY@,
    )
}

/// The finding for an empty annotation.
fn make_empty_annotation(episode: u64) -> (r: Finding)
    ensures
        r@ == empty_annotation_finding(episode),
{
    let message: String = cat3("episode ", dec_u64(episode).as_str(), " carries an empty language annotation");
    Finding::new(ANNOTATION_ID, Category::Semantic, Severity::Warning, Location::Episode { episode }, EMPTY_ANNOTATION_CODE, message).with_risk(
        EMPTY_ANNOTATION_RISK,
    ).with_remedy(EMPTY_ANNOTATION_REMEDY)
}

pub const UNALIGNED_RISK: &'static str = "An annotation outside the episode's timeline attaches to a \
     moment that was never recorded, so any per-frame language conditioning built from it aligns \
     to the wrong (or no) frame.";

pub const UNALIGNED_REMEDY: &'static str = "Re-derive the annotation timestamps against the \
     episode's clock, or drop annotations that reference frames outside the episode.";

/// The finding for an annotation outside its episode.
pub open spec fn unaligned_finding(episode: u64, at: i64, lo: i64, hi: i64) -> FindingView {
    check::finding(
        ANNOTATION_ID@,
        Category::Semantic,
        Severity::Error,
        LocationView::Episode { episode },
        UNALIGNED_CODE@,
        "episode "@ + text::dec(episode as nat) + ": language annotation at ts "@
            + text::int_text(at as int) + " falls outside the episode span ["@
            + text::int_text(lo as int) + ", "@ + text::int_text(hi as int) + "]"@,
        UNALIGNED_RISK@,
        UNALIGNED_REMEDY@,
    )
}

/// The finding for an annotation outside its episode.
fn make_unaligned(episode: u64, at: i64, lo: i64, hi: i64) -> (r: Finding)
    ensures
        r@ == unaligned_finding(episode, at, lo, hi),
{
    let message: String = cat9(
        "episode ",
        dec_u64(episode).as_str(),
        ": language annotation at ts ",
        dec_i64(at).as_str(),
        " falls outside the episode span [",
        dec_i64(lo).as_str(),
        ", ",
        dec_i64(hi).as_str(),
        "]",
    );
    Finding::new(ANNOTATION_ID, Category::Semantic, Severity::Error, Location::Episode { episode }, UNALIGNED_CODE, message).with_risk(
        UNALIGNED_RISK,
    ).with_remedy(UNALIGNED_REMEDY)
}

pub const CONFLICT_RISK: &'static str = "Two different instructions at the same instant give a \
     language-conditioned policy contradictory supervision for the same frame.";

pub const CONFLICT_REMEDY: &'static str = "Reconcile the annotations so at most one instruction \
     applies per timestamp.";

/// The finding for annotations that contradict.
pub open spec fn conflict_finding(episode: u64, count: nat, at: i64, names: Seq<char>) -> FindingView {
    check::finding(
        ANNOTATION_ID@,
        Category::Semantic,
        Severity::Warning,
        LocationView::Episode { episode },
        CONFLICT_CODE@,
        "episode "@ + text::dec(episode as nat) + ": "@ + text::dec(count)
            + " conflicting language annotations at ts "@ + text::int_text(at as int) + " ("@ + names
            + ")"@,
        CONFLICT_RISK@,
        CONFLICT_REMEDY@,
    )
}

/// The finding for annotations that contradict.
fn make_conflict(episode: u64, count: usize, at: i64, names: &str) -> (r: Finding)
    ensures
        r@ == conflict_finding(episode, count as nat, at, names@),
{
    let message: String = cat9(
        "episode ",
        dec_u64(episode).as_str(),
        ": ",
        dec_usize(count).as_str(),
        " conflicting language annotations at ts ",
        dec_i64(at).as_str(),
        " (",
        names,
        ")",
    );
    Finding::new(ANNOTATION_ID, Category::Semantic, Severity::Warning, Location::Episode { episode }, CONFLICT_CODE, message).with_risk(
        CONFLICT_RISK,
    ).with_remedy(CONFLICT_REMEDY)
}

/// A span stretched to hold two more moments.
pub open spec fn stretched(span: Option<(i64, i64)>, a: i64, b: i64) -> Option<(i64, i64)> {
    match span {
        Some((lo, hi)) => Some((if a < lo { a } else { lo }, if b > hi { b } else { hi })),
        None => Some((a, b)),
    }
}

/// The span from the earliest to the latest frame of some streams.
pub open spec fn recorded_span(streams: Seq<Stream>) -> Option<(i64, i64)>
    decreases streams.len(),
{
    if streams.len() == 0 {
        None
    } else {
        let rest = recorded_span(streams.drop_last());
        let frames = streams.last().frames@;
        if frames.len() == 0 {
            rest
        } else {
            stretched(rest, timeline::earliest(frames), timeline::latest(frames))
        }
    }
}

/// The episode's span on its clock: what it declares, where that is in order, together with what its
/// streams recorded. A declared window that is narrower than the recorded frames is not
/// authoritative: an annotation on a recorded frame is aligned.
pub open spec fn episode_span(episode: Episode) -> Option<(i64, i64)> {
    let recorded = recorded_span(episode.streams@);
    match (episode.start_ts, episode.end_ts) {
        (Some(s), Some(e)) => if e >= s { stretched(recorded, s, e) } else { recorded },
        _ => recorded,
    }
}

/// A span stretched to hold two more moments.
fn stretch(span: Option<(i64, i64)>, a: i64, b: i64) -> (r: Option<(i64, i64)>)
    ensures
        r == stretched(span, a, b),
{
    match span {
        Some((lo, hi)) => Some((if a < lo { a } else { lo }, if b > hi { b } else { hi })),
        None => Some((a, b)),
    }
}

/// The episode's span on its clock.
fn episode_time_span(ep: &Episode) -> (r: Option<(i64, i64)>)
    ensures
        r == episode_span(*ep),
{
    let ghost s = ep.streams@;
    let mut span: Option<(i64, i64)> = None;
    let mut i: usize = 0;
    while i < ep.streams.len()
        invariant
            i <= s.len(),
            s == ep.streams@,
            span == recorded_span(s.take(i as int)),
        decreases s.len() - i,
    {
        assert(s.take(i + 1).drop_last() =~= s.take(i as int));
        if let Some((lo, hi)) = timeline::span_bounds(&ep.streams[i]) {
            span = stretch(span, lo, hi);
        }
        i = i + 1;
    }
    assert(s.take(i as int) =~= s);
    if let (Some(a), Some(b)) = (ep.start_ts, ep.end_ts) {
        if b >= a {
            span = stretch(span, a, b);
        }
    }
    span
}

/// Whether a label is a language annotation.
pub open spec fn is_language(label: Label) -> bool {
    label.key@ == "language"@
}

/// Whether a label lies outside a span.
pub open spec fn is_outside(label: Label, span: Option<(i64, i64)>) -> bool {
    match (label.ts, span) {
        (Some(t), Some((lo, hi))) => t < lo || t > hi,
        _ => false,
    }
}

/// What is reported of one label.
pub open spec fn label_findings(episode: Episode, label: Label) -> Seq<FindingView> {
    let span = episode_span(episode);
    if is_language(label) {
        (if text::trimmed(label.value@).len() == 0 {
            seq![empty_annotation_finding(episode.index)]
        } else {
            Seq::empty()
        }) + (if is_outside(label, span) {
            match span {
                Some((lo, hi)) => seq![unaligned_finding(episode.index, label.ts->0, lo, hi)],
                None => Seq::empty(),
            }
        } else {
            Seq::empty()
        })
    } else {
        Seq::empty()
    }
}

/// What is reported of labels, one by one.
pub open spec fn labels_findings(episode: Episode, labels: Seq<Label>) -> Seq<FindingView>
    decreases labels.len(),
{
    if labels.len() == 0 {
        Seq::empty()
    } else {
        labels_findings(episode, labels.drop_last()) + label_findings(episode, labels.last())
    }
}

/// The times of the language annotations, as they come.
pub open spec fn annotation_times(labels: Seq<Label>) -> Seq<i64>
    decreases labels.len(),
{
    if labels.len() == 0 {
        Seq::empty()
    } else {
        let rest = annotation_times(labels.drop_last());
        match labels.last().ts {
            Some(t) => if is_language(labels.last()) { rest.push(t) } else { rest },
            None => rest,
        }
    }
}

/// What the language annotations at a time say, as they come.
pub open spec fn values_at(labels: Seq<Label>, at: i64) -> Seq<Seq<char>>
    decreases labels.len(),
{
    if labels.len() == 0 {
        Seq::empty()
    } else {
        let rest = values_at(labels.drop_last(), at);
        if is_language(labels.last()) && labels.last().ts == Some(at) {
            rest.push(text::trimmed(labels.last().value@))
        } else {
            rest
        }
    }
}

/// What is reported of the annotations at some times.
pub open spec fn conflict_findings(episode: Episode, times: Seq<i64>) -> Seq<FindingView>
    decreases times.len(),
{
    if times.len() == 0 {
        Seq::empty()
    } else {
        let rest = conflict_findings(episode, times.drop_last());
        let values = seqs::text_set(values_at(episode.labels@, times.last()));
        if values.len() > 1 {
            rest.push(
                conflict_finding(
                    episode.index,
                    values.len(),
                    times.last(),
                    lists::a_few(lists::quoted_all(values)),
                ),
            )
        } else {
            rest
        }
    }
}

/// What is reported of one label.
fn check_label(episode: &Episode, span: Option<(i64, i64)>, label: &Label) -> (r: Vec<Finding>)
    requires
        span == episode_span(*episode),
    ensures
        check::views(r@) == label_findings(*episode, *label),
{
    broadcast use check::group_views;

    let mut out: Vec<Finding> = Vec::new();
    if !same(label.key.as_str(), "language") {
        return out;
    }
    let value: String = trim(label.value.as_str());
    if is_empty(value.as_str()) {
        out.push(make_empty_annotation(episode.index));
    }
    if let (Some(t), Some((lo, hi))) = (label.ts, span) {
        if t < lo || t > hi {
            out.push(make_unaligned(episode.index, t, lo, hi));
        }
    }
    assert(check::views(out@) =~= label_findings(*episode, *label));
    out
}

/// What the language annotations at a time say, in order.
fn collect_values(labels: &Vec<Label>, at: i64) -> (r: Vec<String>)
    ensures
        text::texts(r@) == seqs::text_set(values_at(labels@, at)),
{
    let ghost s = labels@;
    let mut out: Vec<String> = Vec::new();
    let mut i: usize = 0;
    assert(text::texts(out@) =~= Seq::empty());
    while i < labels.len()
        invariant
            i <= s.len(),
            s == labels@,
            text::texts(out@) == seqs::text_set(values_at(s.take(i as int), at)),
        decreases s.len() - i,
    {
        assert(s.take(i + 1).drop_last() =~= s.take(i as int));
        if let Some(t) = labels[i].ts {
            if t == at && same(labels[i].key.as_str(), "language") {
                let value: String = trim(labels[i].value.as_str());
                proof {
                    seqs::lemma_distinct_step(values_at(s.take(i as int), at), seqs::text_order(), value@);
                }
                let _new: bool = put_text(&mut out, value.as_str());
            }
        }
        i = i + 1;
    }
    assert(s.take(i as int) =~= s);
    out
}

impl EpisodeRule for AnnotationIntegrity {
    open spec fn of_episode(&self, episode: Episode) -> Seq<FindingView> {
        labels_findings(episode, episode.labels@) + conflict_findings(
            episode,
            seqs::time_set(annotation_times(episode.labels@)),
        )
    }

    fn check_episode(&self, episode: &Episode) -> (r: Vec<Finding>) {
        broadcast use check::group_views;

        let span: Option<(i64, i64)> = episode_time_span(episode);
        let ghost s = episode.labels@;
        let mut out: Vec<Finding> = Vec::new();
        let mut times: Vec<i64> = Vec::new();
        let mut i: usize = 0;
        while i < episode.labels.len()
            invariant
                i <= s.len(),
                s == episode.labels@,
                span == episode_span(*episode),
                check::views(out@) == labels_findings(*episode, s.take(i as int)),
                times@ == seqs::time_set(annotation_times(s.take(i as int))),
            decreases s.len() - i,
        {
            let label: &Label = &episode.labels[i];
            assert(s.take(i + 1).drop_last() =~= s.take(i as int));
            let mut more: Vec<Finding> = check_label(episode, span, label);
            out.append(&mut more);
            if let Some(t) = label.ts {
                if same(label.key.as_str(), "language") {
                    proof {
                        seqs::lemma_distinct_step(annotation_times(s.take(i as int)), seqs::time_order(), t);
                    }
                    put_time(&mut times, t);
                }
            }
            i = i + 1;
        }
        assert(s.take(i as int) =~= s);
        let ghost first = check::views(out@);
        let ghost t = times@;
        let mut k: usize = 0;
        assert(first =~= first + conflict_findings(*episode, t.take(0)));
        while k < times.len()
            invariant
                k <= times@.len(),
                t == times@,
                check::views(out@) == first + conflict_findings(*episode, t.take(k as int)),
            decreases times@.len() - k,
        {
            assert(t.take(k + 1).drop_last() =~= t.take(k as int));
            let values: Vec<String> = collect_values(&episode.labels, times[k]);
            assert(text::texts(values@).len() == values@.len());
            if values.len() > 1 {
                let f: Finding = make_conflict(
                    episode.index,
                    values.len(),
                    times[k],
                    list_a_few_quoted(&values).as_str(),
                );
                let ghost before = conflict_findings(*episode, t.take(k as int));
                assert((first + before).push(f@) =~= first + before.push(f@));
                out.push(f);
            }
            k = k + 1;
        }
        assert(t.take(k as int) =~= t);
        out
    }
}

impl Check for AnnotationIntegrity {
    open spec fn meta(&self) -> CheckMeta {
        CheckMeta {
            id: ANNOTATION_ID@,
            title: "Language-annotation integrity"@,
            category: Category::Semantic,
            default_severity: Severity::Warning,
            scope: Scope::Episode,
            version: "1"@,
            finding_codes: seq![UNALIGNED_CODE@, CONFLICT_CODE@, EMPTY_ANNOTATION_CODE@],
        }
    }

    fn info(&self) -> (r: CheckInfo) {
        let finding_codes: &'static [&'static str] = &[UNALIGNED_CODE, CONFLICT_CODE, EMPTY_ANNOTATION_CODE];
        assert(text::str_texts(finding_codes@) =~= self.meta().finding_codes);
        CheckInfo {
            id: ANNOTATION_ID,
            title: "Language-annotation integrity",
            category: Category::Semantic,
            default_severity: Severity::Warning,
            scope: Scope::Episode,
            version: "1",
            finding_codes,
        }
    }

    open spec fn report(&self, dataset: &Dataset) -> Seq<FindingView> {
        walk::by_episode(*self, dataset.episodes@)
    }

    open spec fn report_in(&self, dataset: &Dataset, frames_read: bool, attested: Seq<Seq<char>>) -> Seq<FindingView> {
        self.report(dataset)
    }

    fn run(&self, dataset: &Dataset) -> (r: Vec<Finding>) {
        walk_episodes(self, dataset)
    }

    fn run_in(&self, dataset: &Dataset, context: &CheckContext) -> (r: Vec<Finding>) {
        self.run(dataset)
    }
}

// ---- stream keys -----------------------------------------------------------------------------

/// Stream-key clarity: camera/stream keys that are ambiguous within an episode.
///
/// Names that differ only by letter case or surrounding whitespace are ambiguous — humans and
/// downstream tooling routinely confuse them, and a policy keyed on the wrong one silently trains on
/// the wrong camera. A naming mistake is a property of the dataset's schema, not of an episode: each
/// distinct collision is reported once, at the first episode it appears in.
#[derive(Debug, Clone, Copy)]
pub struct StreamKeyClarity;

/// The id of [`StreamKeyClarity`].
pub const KEY_ID: &'static str = "semantic.stream-key-clarity";

/// The code for a key that is used twice.
pub const DUPLICATE_KEY_CODE: &'static str = "SEMANTIC.DUPLICATE_STREAM_KEY";

/// The code for a key that is easily confused.
pub const AMBIGUOUS_KEY_CODE: &'static str = "SEMANTIC.AMBIGUOUS_STREAM_KEY";

pub const DUPLICATE_KEY_RISK: &'static str = "A repeated stream key is not a usable identifier: code \
     keyed on it silently picks one arbitrary stream, so a policy or check can train on or \
     validate the wrong sensor.";

pub const DUPLICATE_KEY_REMEDY: &'static str = "Give each stream a unique name, or merge the \
     duplicates if they are the same stream.";

/// The finding for a key that is used twice.
pub open spec fn duplicate_key_finding(episode: u64, name: Seq<char>, count: nat) -> FindingView {
    check::finding(
        KEY_ID@,
        Category::Semantic,
        Severity::Error,
        LocationView::Stream { episode, stream: name },
        DUPLICATE_KEY_CODE@,
        "stream key `"@ + name + "` appears "@ + text::dec(count) + " times in episode "@
            + text::dec(episode as nat) + " — stream names must be unique within an episode"@,
        DUPLICATE_KEY_RISK@,
        DUPLICATE_KEY_REMEDY@,
    )
}

/// The finding for a key that is used twice.
fn make_duplicate_key(episode: u64, name: &str, count: usize) -> (r: Finding)
    ensures
        r@ == duplicate_key_finding(episode, name@, count as nat),
{
    let message: String = cat7(
        "stream key `",
        name,
        "` appears ",
        dec_usize(count).as_str(),
        " times in episode ",
        dec_u64(episode).as_str(),
        " — stream names must be unique within an episode",
    );
    Finding::new(KEY_ID, Category::Semantic, Severity::Error, Location::Stream { episode, stream: String::from_str(name) }, DUPLICATE_KEY_CODE, message).with_risk(
        DUPLICATE_KEY_RISK,
    ).with_remedy(DUPLICATE_KEY_REMEDY)
}

pub const AMBIGUOUS_KEY_RISK: &'static str = "Near-identical stream keys are easily confused; a \
     policy or check keyed on the wrong one trains on or validates the wrong sensor.";

pub const AMBIGUOUS_KEY_REMEDY: &'static str = "Rename the keys so they are unambiguous, or \
     consolidate them if they refer to the same stream.";

/// The finding for a key that is easily confused.
pub open spec fn ambiguous_key_finding(episode: u64, name: Seq<char>, others: Seq<char>) -> FindingView {
    check::finding(
        KEY_ID@,
        Category::Semantic,
        Severity::Warning,
        LocationView::Stream { episode, stream: name },
        AMBIGUOUS_KEY_CODE@,
        "stream `"@ + name + "` in episode "@ + text::dec(episode as nat) + " is ambiguous with "@
            + others + " (differs only by case/whitespace)"@,
        AMBIGUOUS_KEY_RISK@,
        AMBIGUOUS_KEY_REMEDY@,
    )
}

/// The finding for a key that is easily confused.
fn make_ambiguous_key(episode: u64, name: &str, others: &str) -> (r: Finding)
    ensures
        r@ == ambiguous_key_finding(episode, name@, others@),
{
    let message: String = cat7(
        "stream `",
        name,
        "` in episode ",
        dec_u64(episode).as_str(),
        " is ambiguous with ",
        others,
        " (differs only by case/whitespace)",
    );
    Finding::new(KEY_ID, Category::Semantic, Severity::Warning, Location::Stream { episode, stream: String::from_str(name) }, AMBIGUOUS_KEY_CODE, message).with_risk(
        AMBIGUOUS_KEY_RISK,
    ).with_remedy(AMBIGUOUS_KEY_REMEDY)
}

/// The names of streams, as they come.
pub open spec fn names(streams: Seq<Stream>) -> Seq<Seq<char>> {
    streams.map_values(|s: Stream| s.name@)
}

/// How often a name occurs.
pub open spec fn occurrences(streams: Seq<Stream>, name: Seq<char>) -> nat
    decreases streams.len(),
{
    if streams.len() == 0 {
        0
    } else {
        occurrences(streams.drop_last(), name) + (if streams.last().name@ == name { 1nat } else { 0 })
    }
}

/// What is left of a name without case and surrounding whitespace.
pub open spec fn normal(name: Seq<char>) -> Seq<char> {
    text::lowered(text::trimmed(name))
}

/// The normal forms of the names of streams, as they come.
pub open spec fn normals(streams: Seq<Stream>) -> Seq<Seq<char>> {
    streams.map_values(|s: Stream| normal(s.name@))
}

/// The names of streams with a normal form, as they come.
pub open spec fn alike(streams: Seq<Stream>, form: Seq<char>) -> Seq<Seq<char>>
    decreases streams.len(),
{
    if streams.len() == 0 {
        Seq::empty()
    } else if normal(streams.last().name@) == form {
        alike(streams.drop_last(), form).push(streams.last().name@)
    } else {
        alike(streams.drop_last(), form)
    }
}

/// The distinct names of streams with a normal form, in order.
pub open spec fn group(streams: Seq<Stream>, form: Seq<char>) -> Seq<Seq<char>> {
    seqs::text_set(alike(streams, form))
}

/// Whether some episode uses a name twice.
pub open spec fn was_duplicated(episodes: Seq<Episode>, name: Seq<char>) -> bool
    decreases episodes.len(),
{
    episodes.len() > 0 && (was_duplicated(episodes.drop_last(), name) || occurrences(
        episodes.last().streams@,
        name,
    ) > 1)
}

/// Whether some episode has different names of one normal form.
pub open spec fn was_ambiguous(episodes: Seq<Episode>, form: Seq<char>) -> bool
    decreases episodes.len(),
{
    episodes.len() > 0 && (was_ambiguous(episodes.drop_last(), form) || group(episodes.last().streams@, form).len() > 1)
}

/// What is reported of names that an episode uses twice, and no earlier one does.
pub open spec fn duplicate_findings(
    earlier: Seq<Episode>,
    episode: Episode,
    candidates: Seq<Seq<char>>,
) -> Seq<FindingView>
    decreases candidates.len(),
{
    if candidates.len() == 0 {
        Seq::empty()
    } else {
        let rest = duplicate_findings(earlier, episode, candidates.drop_last());
        let name = candidates.last();
        let n = occurrences(episode.streams@, name);
        if n > 1 && !was_duplicated(earlier, name) {
            rest.push(duplicate_key_finding(episode.index, name, n))
        } else {
            rest
        }
    }
}

/// The names other than one.
pub open spec fn others(all: Seq<Seq<char>>, name: Seq<char>) -> Seq<Seq<char>>
    decreases all.len(),
{
    if all.len() == 0 {
        Seq::empty()
    } else if all.last() != name {
        others(all.drop_last(), name).push(all.last())
    } else {
        others(all.drop_last(), name)
    }
}

/// What is reported of some names of a group.
pub open spec fn member_findings(episode: u64, all: Seq<Seq<char>>, some: Seq<Seq<char>>) -> Seq<FindingView>
    decreases some.len(),
{
    if some.len() == 0 {
        Seq::empty()
    } else {
        member_findings(episode, all, some.drop_last()).push(
            ambiguous_key_finding(
                episode,
                some.last(),
                lists::a_few(lists::quoted_all(others(all, some.last()))),
            ),
        )
    }
}

/// What is reported of normal forms that an episode has different names of, and no earlier one has.
pub open spec fn ambiguous_findings(earlier: Seq<Episode>, episode: Episode, forms: Seq<Seq<char>>) -> Seq<FindingView>
    decreases forms.len(),
{
    if forms.len() == 0 {
        Seq::empty()
    } else {
        let rest = ambiguous_findings(earlier, episode, forms.drop_last());
        let all = group(episode.streams@, forms.last());
        if all.len() > 1 && !was_ambiguous(earlier, forms.last()) {
            rest + member_findings(episode.index, all, all)
        } else {
            rest
        }
    }
}

/// What is reported of episodes.
pub open spec fn clarity_findings(episodes: Seq<Episode>) -> Seq<FindingView>
    decreases episodes.len(),
{
    if episodes.len() == 0 {
        Seq::empty()
    } else {
        let earlier = episodes.drop_last();
        let e = episodes.last();
        clarity_findings(earlier) + duplicate_findings(earlier, e, seqs::text_set(names(e.streams@)))
            + ambiguous_findings(earlier, e, seqs::text_set(normals(e.streams@)))
    }
}

/// A name that occurs is among the names.
proof fn lemma_occurs(streams: Seq<Stream>, name: Seq<char>)
    requires
        occurrences(streams, name) > 0,
    ensures
        names(streams).contains(name),
    decreases streams.len(),
{
    if streams.last().name@ == name {
        assert(names(streams)[streams.len() - 1] == name);
    } else {
        lemma_occurs(streams.drop_last(), name);
        let i = choose|i: int| 0 <= i < names(streams.drop_last()).len() && names(streams.drop_last())[i] == name;
        assert(names(streams)[i] == name);
    }
}

/// A normal form with a name is among the normal forms.
proof fn lemma_alike(streams: Seq<Stream>, form: Seq<char>)
    requires
        alike(streams, form).len() > 0,
    ensures
        normals(streams).contains(form),
    decreases streams.len(),
{
    if normal(streams.last().name@) == form {
        assert(normals(streams)[streams.len() - 1] == form);
    } else {
        lemma_alike(streams.drop_last(), form);
        let i = choose|i: int| 0 <= i < normals(streams.drop_last()).len() && normals(streams.drop_last())[i] == form;
        assert(normals(streams)[i] == form);
    }
}

/// The distinct names of streams, in order.
fn collect_names(streams: &Vec<Stream>) -> (r: Vec<String>)
    ensures
        text::texts(r@) == seqs::text_set(names(streams@)),
{
    let ghost s = streams@;
    let mut out: Vec<String> = Vec::new();
    let mut i: usize = 0;
    assert(text::texts(out@) =~= Seq::empty());
    assert(names(s.take(0)) =~= Seq::empty());
    while i < streams.len()
        invariant
            i <= s.len(),
            s == streams@,
            text::texts(out@) == seqs::text_set(names(s.take(i as int))),
        decreases s.len() - i,
    {
        proof {
            assert(names(s.take(i + 1)) =~= names(s.take(i as int)).push(s[i as int].name@));
            seqs::lemma_distinct_step(names(s.take(i as int)), seqs::text_order(), s[i as int].name@);
        }
        let _new: bool = put_text(&mut out, streams[i].name.as_str());
        i = i + 1;
    }
    assert(s.take(i as int) =~= s);
    out
}

/// How often a name occurs.
fn count_name(streams: &Vec<Stream>, name: &str) -> (r: usize)
    ensures
        r as nat == occurrences(streams@, name@),
{
    let ghost s = streams@;
    let mut n: usize = 0;
    let mut i: usize = 0;
    while i < streams.len()
        invariant
            i <= s.len(),
            s == streams@,
            n <= i,
            n as nat == occurrences(s.take(i as int), name@),
        decreases s.len() - i,
    {
        assert(s.take(i + 1).drop_last() =~= s.take(i as int));
        if same(streams[i].name.as_str(), name) {
            n = n + 1;
        }
        i = i + 1;
    }
    assert(s.take(i as int) =~= s);
    n
}

/// What is left of a name without case and surrounding whitespace.
fn normalize(name: &str) -> (r: String)
    ensures
        r@ == normal(name@),
{
    lower(trim(name).as_str())
}

/// The distinct normal forms of the names of streams, in order.
fn collect_normals(streams: &Vec<Stream>) -> (r: Vec<String>)
    ensures
        text::texts(r@) == seqs::text_set(normals(streams@)),
{
    let ghost s = streams@;
    let mut out: Vec<String> = Vec::new();
    let mut i: usize = 0;
    assert(text::texts(out@) =~= Seq::empty());
    assert(normals(s.take(0)) =~= Seq::empty());
    while i < streams.len()
        invariant
            i <= s.len(),
            s == streams@,
            text::texts(out@) == seqs::text_set(normals(s.take(i as int))),
        decreases s.len() - i,
    {
        let form: String = normalize(streams[i].name.as_str());
        proof {
            assert(normals(s.take(i + 1)) =~= normals(s.take(i as int)).push(form@));
            seqs::lemma_distinct_step(normals(s.take(i as int)), seqs::text_order(), form@);
        }
        let _new: bool = put_text(&mut out, form.as_str());
        i = i + 1;
    }
    assert(s.take(i as int) =~= s);
    out
}

/// The distinct names of streams with a normal form, in order.
fn collect_group(streams: &Vec<Stream>, form: &str) -> (r: Vec<String>)
    ensures
        text::texts(r@) == group(streams@, form@),
{
    let ghost s = streams@;
    let mut out: Vec<String> = Vec::new();
    let mut i: usize = 0;
    assert(text::texts(out@) =~= Seq::empty());
    while i < streams.len()
        invariant
            i <= s.len(),
            s == streams@,
            text::texts(out@) == group(s.take(i as int), form@),
        decreases s.len() - i,
    {
        assert(s.take(i + 1).drop_last() =~= s.take(i as int));
        if same(normalize(streams[i].name.as_str()).as_str(), form) {
            proof {
                seqs::lemma_distinct_step(alike(s.take(i as int), form@), seqs::text_order(), s[i as int].name@);
            }
            let _new: bool = put_text(&mut out, streams[i].name.as_str());
        }
        i = i + 1;
    }
    assert(s.take(i as int) =~= s);
    out
}

/// The names other than one.
fn collect_others(all: &Vec<String>, name: &str) -> (r: Vec<String>)
    ensures
        text::texts(r@) == others(text::texts(all@), name@),
{
    let ghost t = text::texts(all@);
    let mut out: Vec<String> = Vec::new();
    let mut i: usize = 0;
    assert(text::texts(out@) =~= Seq::empty());
    while i < all.len()
        invariant
            i <= all@.len(),
            t == text::texts(all@),
            text::texts(out@) == others(t.take(i as int), name@),
        decreases all@.len() - i,
    {
        assert(t[i as int] == all@[i as int]@);
        assert(t.take(i + 1).drop_last() =~= t.take(i as int));
        if !same(all[i].as_str(), name) {
            out.push(all[i].clone());
        }
        i = i + 1;
    }
    assert(t.take(i as int) =~= t);
    out
}

/// Reports the names that an episode uses twice, and remembers them.
fn report_duplicates(
    reported: &mut Vec<String>,
    episode: &Episode,
    Ghost(earlier): Ghost<Seq<Episode>>,
) -> (r: Vec<Finding>)
    requires
        forall|n: Seq<char>| #[trigger] text::texts(old(reported)@).contains(n) <==> was_duplicated(earlier, n),
    ensures
        check::views(r@) == duplicate_findings(earlier, *episode, seqs::text_set(names(episode.streams@))),
        forall|n: Seq<char>| #[trigger]
            text::texts(final(reported)@).contains(n) <==> was_duplicated(earlier.push(*episode), n),
{
    broadcast use check::group_views;

    let candidates: Vec<String> = collect_names(&episode.streams);
    let ghost t = text::texts(candidates@);
    let ghost was = text::texts(reported@);
    let mut fresh: Vec<String> = Vec::new();
    let mut out: Vec<Finding> = Vec::new();
    let mut i: usize = 0;
    assert(text::texts(fresh@) =~= Seq::empty());
    while i < candidates.len()
        invariant
            i <= candidates@.len(),
            t == text::texts(candidates@),
            was == text::texts(reported@),
            forall|n: Seq<char>| #[trigger] was.contains(n) <==> was_duplicated(earlier, n),
            forall|n: Seq<char>| #[trigger]
                text::texts(fresh@).contains(n) <==> t.take(i as int).contains(n) && occurrences(episode.streams@, n) > 1
                    && !was_duplicated(earlier, n),
            check::views(out@) == duplicate_findings(earlier, *episode, t.take(i as int)),
        decreases candidates@.len() - i,
    {
        assert(t[i as int] == candidates@[i as int]@);
        assert(t.take(i + 1).drop_last() =~= t.take(i as int));
        proof {
            assert(t.take(i + 1) =~= t.take(i as int).push(t[i as int]));
            text::lemma_pushed_contains(t.take(i as int), t[i as int]);
            text::lemma_pushed_contains(text::texts(fresh@), t[i as int]);
        }
        let name: &str = candidates[i].as_str();
        let n: usize = count_name(&episode.streams, name);
        if n > 1 && !holds(reported, name) {
            fresh.push(candidates[i].clone());
            out.push(make_duplicate_key(episode.index, name, n));
        }
        i = i + 1;
    }
    proof {
        assert(t.take(i as int) =~= t);
        text::lemma_texts_add(reported@, fresh@);
        assert(earlier.push(*episode).drop_last() =~= earlier);
        assert forall|n: Seq<char>| occurrences(episode.streams@, n) > 1 implies #[trigger] t.contains(n) by {
            lemma_occurs(episode.streams@, n);
            seqs::lemma_distinct_contains(names(episode.streams@), seqs::text_order(), n);
        }
    }
    let ghost both = reported@ + fresh@;
    reported.append(&mut fresh);
    assert(reported@ == both);
    assert forall|n: Seq<char>| #[trigger]
        text::texts(reported@).contains(n) <==> was_duplicated(earlier.push(*episode), n) by {
        if occurrences(episode.streams@, n) > 1 {
            assert(t.contains(n));
        }
    }
    out
}

/// Reports the names of a group.
fn report_group(episode: u64, all: &Vec<String>) -> (r: Vec<Finding>)
    ensures
        check::views(r@) == member_findings(episode, text::texts(all@), text::texts(all@)),
{
    broadcast use check::group_views;

    let ghost t = text::texts(all@);
    let mut out: Vec<Finding> = Vec::new();
    let mut i: usize = 0;
    while i < all.len()
        invariant
            i <= all@.len(),
            t == text::texts(all@),
            check::views(out@) == member_findings(episode, t, t.take(i as int)),
        decreases all@.len() - i,
    {
        assert(t[i as int] == all@[i as int]@);
        assert(t.take(i + 1).drop_last() =~= t.take(i as int));
        let rest: Vec<String> = collect_others(all, all[i].as_str());
        out.push(make_ambiguous_key(episode, all[i].as_str(), list_a_few_quoted(&rest).as_str()));
        i = i + 1;
    }
    assert(t.take(i as int) =~= t);
    out
}

/// Reports the normal forms that an episode has different names of, and remembers them.
fn report_ambiguous(
    reported: &mut Vec<String>,
    episode: &Episode,
    Ghost(earlier): Ghost<Seq<Episode>>,
) -> (r: Vec<Finding>)
    requires
        forall|n: Seq<char>| #[trigger] text::texts(old(reported)@).contains(n) <==> was_ambiguous(earlier, n),
    ensures
        check::views(r@) == ambiguous_findings(earlier, *episode, seqs::text_set(normals(episode.streams@))),
        forall|n: Seq<char>| #[trigger]
            text::texts(final(reported)@).contains(n) <==> was_ambiguous(earlier.push(*episode), n),
{
    broadcast use check::group_views;

    let forms: Vec<String> = collect_normals(&episode.streams);
    let ghost t = text::texts(forms@);
    let ghost was = text::texts(reported@);
    let mut fresh: Vec<String> = Vec::new();
    let mut out: Vec<Finding> = Vec::new();
    let mut i: usize = 0;
    assert(text::texts(fresh@) =~= Seq::empty());
    while i < forms.len()
        invariant
            i <= forms@.len(),
            t == text::texts(forms@),
            was == text::texts(reported@),
            forall|n: Seq<char>| #[trigger] was.contains(n) <==> was_ambiguous(earlier, n),
            forall|n: Seq<char>| #[trigger]
                text::texts(fresh@).contains(n) <==> t.take(i as int).contains(n) && group(episode.streams@, n).len() > 1
                    && !was_ambiguous(earlier, n),
            check::views(out@) == ambiguous_findings(earlier, *episode, t.take(i as int)),
        decreases forms@.len() - i,
    {
        assert(t[i as int] == forms@[i as int]@);
        assert(t.take(i + 1).drop_last() =~= t.take(i as int));
        proof {
            assert(t.take(i + 1) =~= t.take(i as int).push(t[i as int]));
            text::lemma_pushed_contains(t.take(i as int), t[i as int]);
            text::lemma_pushed_contains(text::texts(fresh@), t[i as int]);
        }
        let all: Vec<String> = collect_group(&episode.streams, forms[i].as_str());
        assert(text::texts(all@).len() == all@.len());
        if all.len() > 1 && !holds(reported, forms[i].as_str()) {
            fresh.push(forms[i].clone());
            let mut more: Vec<Finding> = report_group(episode.index, &all);
            out.append(&mut more);
        }
        i = i + 1;
    }
    proof {
        assert(t.take(i as int) =~= t);
        text::lemma_texts_add(reported@, fresh@);
        assert(earlier.push(*episode).drop_last() =~= earlier);
        assert forall|n: Seq<char>| group(episode.streams@, n).len() > 1 implies #[trigger] t.contains(n) by {
            seqs::lemma_distinct_contains(alike(episode.streams@, n), seqs::text_order(), n);
            lemma_alike(episode.streams@, n);
            seqs::lemma_distinct_contains(normals(episode.streams@), seqs::text_order(), n);
        }
    }
    let ghost both = reported@ + fresh@;
    reported.append(&mut fresh);
    assert(reported@ == both);
    assert forall|n: Seq<char>| #[trigger]
        text::texts(reported@).contains(n) <==> was_ambiguous(earlier.push(*episode), n) by {
        if group(episode.streams@, n).len() > 1 {
            assert(t.contains(n));
        }
    }
    out
}

impl StreamKeyClarity {
    /// Reports the collisions of stream keys.
    pub fn evaluate(&self, dataset: &Dataset) -> (r: Vec<Finding>)
        ensures
            check::views(r@) == clarity_findings(dataset.episodes@),
    {
        broadcast use check::group_views;

        let ghost e = dataset.episodes@;
        let mut duplicates: Vec<String> = Vec::new();
        let mut ambiguous: Vec<String> = Vec::new();
        let mut out: Vec<Finding> = Vec::new();
        let mut i: usize = 0;
        assert(text::texts(duplicates@) =~= Seq::empty());
        assert(text::texts(ambiguous@) =~= Seq::empty());
        while i < dataset.episodes.len()
            invariant
                i <= e.len(),
                e == dataset.episodes@,
                forall|n: Seq<char>| #[trigger]
                    text::texts(duplicates@).contains(n) <==> was_duplicated(e.take(i as int), n),
                forall|n: Seq<char>| #[trigger]
                    text::texts(ambiguous@).contains(n) <==> was_ambiguous(e.take(i as int), n),
                check::views(out@) == clarity_findings(e.take(i as int)),
            decreases e.len() - i,
        {
            let ghost earlier = e.take(i as int);
            let episode: &Episode = &dataset.episodes[i];
            assert(e.take(i + 1) =~= earlier.push(*episode));
            assert(e.take(i + 1).drop_last() =~= earlier);
            let mut more: Vec<Finding> = report_duplicates(&mut duplicates, episode, Ghost(earlier));
            out.append(&mut more);
            let mut rest: Vec<Finding> = report_ambiguous(&mut ambiguous, episode, Ghost(earlier));
            out.append(&mut rest);
            i = i + 1;
        }
        assert(e.take(i as int) =~= e);
        out
    }
}

impl Check for StreamKeyClarity {
    open spec fn meta(&self) -> CheckMeta {
        CheckMeta {
            id: KEY_ID@,
            title: "Stream-key clarity"@,
            category: Category::Semantic,
            default_severity: Severity::Warning,
            scope: Scope::Stream,
            version: "1"@,
            finding_codes: seq![DUPLICATE_KEY_CODE@, AMBIGUOUS_KEY_CODE@],
        }
    }

    fn info(&self) -> (r: CheckInfo) {
        let finding_codes: &'static [&'static str] = &[DUPLICATE_KEY_CODE, AMBIGUOUS_KEY_CODE];
        assert(text::str_texts(finding_codes@) =~= self.meta().finding_codes);
        CheckInfo {
            id: KEY_ID,
            title: "Stream-key clarity",
            category: Category::Semantic,
            default_severity: Severity::Warning,
            scope: Scope::Stream,
            version: "1",
            finding_codes,
        }
    }

    open spec fn report(&self, dataset: &Dataset) -> Seq<FindingView> {
        clarity_findings(dataset.episodes@)
    }

    open spec fn report_in(&self, dataset: &Dataset, frames_read: bool, attested: Seq<Seq<char>>) -> Seq<FindingView> {
        self.report(dataset)
    }

    fn run(&self, dataset: &Dataset) -> (r: Vec<Finding>) {
        self.evaluate(dataset)
    }

    fn run_in(&self, dataset: &Dataset, context: &CheckContext) -> (r: Vec<Finding>) {
        self.run(dataset)
    }
}

} // verus!
