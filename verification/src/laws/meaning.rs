//! Laws of the semantic checks.

use vstd::prelude::*;
use vstd::string::*;

use crate::cdm::{Dataset, Episode, Label, Stream};
use crate::check::{Check, FindingView, LocationView};
use crate::checks::semantic;
use crate::checks::semantic::{
    AnnotationIntegrity, StreamKeyClarity, TaskQuality, AMBIGUOUS_KEY_CODE, CONFLICT_CODE, DUPLICATE_KEY_CODE,
    EMPTY_ANNOTATION_CODE, EMPTY_TASK_CODE, PLACEHOLDER_TASK_CODE, UNALIGNED_CODE,
};
use crate::checks::timeline;
use crate::checks::walk::EpisodeRule;
use crate::laws::found;
use crate::laws::temporal;
use crate::seqs;
use crate::text;

verus! {

// ---- tasks -----------------------------------------------------------------------------------

/// Whether a word stands in for a task.
pub open spec fn says_nothing(word: Seq<char>) -> bool {
    word == "hold"@ || word == "up"@ || word == "down"@ || word == "left"@ || word == "right"@ || word == "n/a"@ || word
        == "na"@ || word == "none"@ || word == "null"@ || word == "task"@ || word == "test"@ || word == "todo"@ || word == "-"@
}

/// The words that stand in for a task.
proof fn lemma_says_nothing(word: Seq<char>)
    ensures
        semantic::placeholders().contains(word) <==> says_nothing(word),
{
    let p = semantic::placeholders();
    assert(p.len() == 13);
    assert(p[0] == "hold"@ && p[1] == "up"@ && p[2] == "down"@ && p[3] == "left"@ && p[4] == "right"@ && p[5] == "n/a"@ && p[6]
        == "na"@ && p[7] == "none"@ && p[8] == "null"@ && p[9] == "task"@ && p[10] == "test"@ && p[11] == "todo"@ && p[12]
        == "-"@);
}

/// A task is reported as empty exactly where it holds nothing but space, and as one that says nothing
/// exactly where it is such a word, in whatever case and with whatever space around it.
pub proof fn law_poor_tasks_are_reported(check: TaskQuality, dataset: &Dataset, index: u64)
    ensures
        found::finds(check.report(dataset), EMPTY_TASK_CODE@, LocationView::Episode { episode: index }) <==> exists|i: int|
            0 <= i < dataset.episodes@.len() && (#[trigger] dataset.episodes@[i]).index == index && (
            dataset.episodes@[i].task matches Some(t) && text::trimmed(t@).len() == 0),
        found::finds(check.report(dataset), PLACEHOLDER_TASK_CODE@, LocationView::Episode { episode: index })
            <==> exists|i: int|
            0 <= i < dataset.episodes@.len() && (#[trigger] dataset.episodes@[i]).index == index && (
            dataset.episodes@[i].task matches Some(t) && text::trimmed(t@).len() > 0 && says_nothing(
                text::lowered(text::trimmed(t@)),
            )),
{
    reveal_strlit("SEMANTIC.EMPTY_TASK");
    reveal_strlit("SEMANTIC.PLACEHOLDER_TASK");
    assert(EMPTY_TASK_CODE@.len() == 19 && PLACEHOLDER_TASK_CODE@.len() == 25);
    let s = dataset.episodes@;
    let at = LocationView::Episode { episode: index };
    found::lemma_finds_by_episode(check, s, EMPTY_TASK_CODE@, at);
    found::lemma_finds_by_episode(check, s, PLACEHOLDER_TASK_CODE@, at);
    assert forall|i: int| 0 <= i < s.len() implies {
        let r = check.of_episode(#[trigger] s[i]);
        &&& found::finds(r, EMPTY_TASK_CODE@, at) <==> s[i].index == index && (s[i].task matches Some(t) && text::trimmed(
            t@,
        ).len() == 0)
        &&& found::finds(r, PLACEHOLDER_TASK_CODE@, at) <==> s[i].index == index && (s[i].task matches Some(t)
            && text::trimmed(t@).len() > 0 && says_nothing(text::lowered(text::trimmed(t@))))
    } by {
        let r = check.of_episode(s[i]);
        if let Some(t) = s[i].task {
            lemma_says_nothing(text::lowered(text::trimmed(t@)));
        }
        if r.len() > 0 {
            assert(r.len() == 1 && r[0].location == (LocationView::Episode { episode: s[i].index }));
        }
    }
}

// ---- annotations -----------------------------------------------------------------------------

/// Whether a label is a note in words.
pub open spec fn is_note(l: Label) -> bool {
    l.key@ == "language"@
}

/// Whether a moment is one of an episode: that of a frame, or one of its bounds, where it has both and
/// they are in order.
pub open spec fn is_moment(e: Episode, t: int) -> bool {
    ||| exists|j: int, k: int|
        0 <= j < e.streams@.len() && 0 <= k < e.streams@[j].frames@.len() && (#[trigger] e.streams@[j].frames@[k]).ts == t
    ||| e.start_ts matches Some(a) && e.end_ts matches Some(b) && a <= b && (t == a || t == b)
}

/// Whether a moment lies before or after all of an episode, which has one.
pub open spec fn is_off(e: Episode, t: int) -> bool {
    &&& exists|m: int| #[trigger] is_moment(e, m)
    &&& (forall|m: int| #[trigger] is_moment(e, m) ==> t < m) || (forall|m: int| #[trigger] is_moment(e, m) ==> m < t)
}

/// The moments of streams reach from the first to the last.
#[verifier::rlimit(40)]
proof fn lemma_recorded(s: Seq<Stream>)
    ensures
        match semantic::recorded_span(s) {
            Some((lo, hi)) => {
                &&& exists|j: int, k: int|
                    0 <= j < s.len() && 0 <= k < s[j].frames@.len() && (#[trigger] s[j].frames@[k]).ts == lo
                &&& exists|j: int, k: int|
                    0 <= j < s.len() && 0 <= k < s[j].frames@.len() && (#[trigger] s[j].frames@[k]).ts == hi
                &&& forall|j: int, k: int|
                    0 <= j < s.len() && 0 <= k < s[j].frames@.len() ==> lo <= (#[trigger] s[j].frames@[k]).ts <= hi
            },
            None => forall|j: int| 0 <= j < s.len() ==> (#[trigger] s[j]).frames@.len() == 0,
        },
    decreases s.len(),
{
    if s.len() > 0 {
        let rest = s.drop_last();
        let n = s.len() - 1;
        let f = s.last().frames@;
        lemma_recorded(rest);
        assert(s[n] == s.last());
        assert forall|j: int| 0 <= j < n implies #[trigger] s[j] == rest[j] by {}
        if let Some((lo, hi)) = semantic::recorded_span(rest) {
            let (a, b) = choose|j: int, k: int|
                0 <= j < rest.len() && 0 <= k < rest[j].frames@.len() && (#[trigger] rest[j].frames@[k]).ts == lo;
            assert(s[a].frames@[b].ts == lo);
            let (c, d) = choose|j: int, k: int|
                0 <= j < rest.len() && 0 <= k < rest[j].frames@.len() && (#[trigger] rest[j].frames@[k]).ts == hi;
            assert(s[c].frames@[d].ts == hi);
        }
        if f.len() > 0 {
            temporal::lemma_bounds(f);
            let (lo, hi) = (timeline::earliest(f), timeline::latest(f));
            let p = choose|p: int| 0 <= p < f.len() && (#[trigger] f[p]).ts == lo;
            assert(s[n].frames@[p].ts == lo);
            let q = choose|q: int| 0 <= q < f.len() && (#[trigger] f[q]).ts == hi;
            assert(s[n].frames@[q].ts == hi);
            assert forall|k: int| 0 <= k < f.len() implies lo <= (#[trigger] s[n].frames@[k]).ts <= hi by {
                assert(f[k].ts >= lo);
            }
        }
    }
}

/// The span of an episode reaches from its first moment to its last.
proof fn lemma_episode_span(e: Episode)
    ensures
        match semantic::episode_span(e) {
            Some((lo, hi)) => is_moment(e, lo as int) && is_moment(e, hi as int) && forall|m: int| #[trigger] is_moment(e, m) ==> lo
                <= m <= hi,
            None => forall|m: int| !#[trigger] is_moment(e, m),
        },
{
    let s = e.streams@;
    lemma_recorded(s);
    if let Some((lo, hi)) = semantic::episode_span(e) {
        if let Some((a, b)) = semantic::recorded_span(s) {
            assert(is_moment(e, a as int));
            assert(is_moment(e, b as int));
        }
        assert(is_moment(e, lo as int));
        assert(is_moment(e, hi as int));
    }
}

/// Whether a label lies off the episode exactly where it is outside its span.
proof fn lemma_outside(e: Episode, l: Label)
    ensures
        semantic::is_outside(l, semantic::episode_span(e)) <==> (l.ts matches Some(t) && is_off(e, t as int)),
{
    lemma_episode_span(e);
    if let Some((lo, hi)) = semantic::episode_span(e) {
        assert(is_moment(e, lo as int) && is_moment(e, hi as int));
        if let Some(t) = l.ts {
            if is_off(e, t as int) {
                if forall|m: int| #[trigger] is_moment(e, m) ==> t < m {
                    assert(t < lo);
                } else {
                    assert(hi < t);
                }
            }
        }
    }
}

/// Whether notes at one moment say different things.
pub open spec fn is_contradicted(s: Seq<Label>, t: i64) -> bool {
    exists|p: int, q: int|
        0 <= p < s.len() && 0 <= q < s.len() && is_note(#[trigger] s[p]) && is_note(#[trigger] s[q]) && s[p].ts == Some(t)
            && s[q].ts == Some(t) && text::trimmed(s[p].value@) != text::trimmed(s[q].value@)
}

/// What notes at a moment say.
proof fn lemma_values_at(s: Seq<Label>, t: i64, value: Seq<char>)
    ensures
        semantic::values_at(s, t).contains(value) <==> exists|p: int|
            0 <= p < s.len() && is_note(#[trigger] s[p]) && s[p].ts == Some(t) && text::trimmed(s[p].value@) == value,
    decreases s.len(),
{
    if s.len() > 0 {
        let rest = s.drop_last();
        let n = s.len() - 1;
        lemma_values_at(rest, t, value);
        found::lemma_one_more(semantic::values_at(rest, t), text::trimmed(s.last().value@), value);
        assert(s[n] == s.last());
        assert forall|j: int| 0 <= j < n implies #[trigger] s[j] == rest[j] by {}
        if semantic::values_at(rest, t).contains(value) {
            let p = choose|p: int|
                0 <= p < rest.len() && is_note(#[trigger] rest[p]) && rest[p].ts == Some(t) && text::trimmed(rest[p].value@)
                    == value;
            assert(s[p] == rest[p]);
        }
    }
}

/// Two different things are said exactly where the set of what is said has two.
#[verifier::rlimit(40)]
proof fn lemma_contradicted(s: Seq<Label>, t: i64)
    ensures
        seqs::text_set(semantic::values_at(s, t)).len() > 1 <==> is_contradicted(s, t),
{
    let all = semantic::values_at(s, t);
    let set = seqs::text_set(all);
    seqs::lemma_text_set_ordered(all);
    if set.len() > 1 {
        assert(text::str_lt(set[0], set[1]));
        text::lemma_str_trichotomy(set[0], set[1]);
        assert(set[0] != set[1]);
        assert(set.contains(set[0]) && set.contains(set[1]));
        seqs::lemma_distinct_contains(all, seqs::text_order(), set[0]);
        seqs::lemma_distinct_contains(all, seqs::text_order(), set[1]);
        lemma_values_at(s, t, set[0]);
        lemma_values_at(s, t, set[1]);
        let p = choose|p: int|
            0 <= p < s.len() && is_note(#[trigger] s[p]) && s[p].ts == Some(t) && text::trimmed(s[p].value@) == set[0];
        let q = choose|q: int|
            0 <= q < s.len() && is_note(#[trigger] s[q]) && s[q].ts == Some(t) && text::trimmed(s[q].value@) == set[1];
        assert(is_note(s[p]) && is_note(s[q]));
    }
    if is_contradicted(s, t) {
        let (p, q) = choose|p: int, q: int|
            0 <= p < s.len() && 0 <= q < s.len() && is_note(#[trigger] s[p]) && is_note(#[trigger] s[q]) && s[p].ts == Some(t)
                && s[q].ts == Some(t) && text::trimmed(s[p].value@) != text::trimmed(s[q].value@);
        let (x, y) = (text::trimmed(s[p].value@), text::trimmed(s[q].value@));
        lemma_values_at(s, t, x);
        lemma_values_at(s, t, y);
        seqs::lemma_distinct_contains(all, seqs::text_order(), x);
        seqs::lemma_distinct_contains(all, seqs::text_order(), y);
        let a = choose|a: int| 0 <= a < set.len() && set[a] == x;
        let b = choose|b: int| 0 <= b < set.len() && set[b] == y;
        assert(a != b);
    }
}

/// When notes are.
proof fn lemma_times(s: Seq<Label>, t: i64)
    ensures
        semantic::annotation_times(s).contains(t) <==> exists|p: int|
            0 <= p < s.len() && is_note(#[trigger] s[p]) && s[p].ts == Some(t),
    decreases s.len(),
{
    if s.len() > 0 {
        let rest = s.drop_last();
        let n = s.len() - 1;
        lemma_times(rest, t);
        assert(s[n] == s.last());
        assert forall|j: int| 0 <= j < n implies #[trigger] s[j] == rest[j] by {}
        if let Some(x) = s.last().ts {
            found::lemma_one_more(semantic::annotation_times(rest), x, t);
        }
        if semantic::annotation_times(rest).contains(t) {
            let p = choose|p: int| 0 <= p < rest.len() && is_note(#[trigger] rest[p]) && rest[p].ts == Some(t);
            assert(s[p] == rest[p]);
        }
    }
}

/// What is said of moments.
proof fn lemma_conflicts(e: Episode, times: Seq<i64>, code: Seq<char>, at: LocationView)
    ensures
        found::finds(semantic::conflict_findings(e, times), code, at) <==> code == CONFLICT_CODE@ && at == (
        LocationView::Episode { episode: e.index }) && exists|k: int|
            0 <= k < times.len() && is_contradicted(e.labels@, #[trigger] times[k]),
    decreases times.len(),
{
    if times.len() > 0 {
        let rest = times.drop_last();
        let n = times.len() - 1;
        lemma_conflicts(e, rest, code, at);
        lemma_contradicted(e.labels@, times.last());
        assert(times[n] == times.last());
        assert forall|j: int| 0 <= j < n implies #[trigger] times[j] == rest[j] by {}
        let old = semantic::conflict_findings(e, rest);
        let new = semantic::conflict_findings(e, times);
        if new.len() > old.len() {
            let g = new.last();
            assert(g.code == CONFLICT_CODE@ && g.location == (LocationView::Episode { episode: e.index }));
            assert(new =~= old + seq![g]);
            found::lemma_finds_both(old, seq![g], code, at);
            found::lemma_finds_one(g, code, at);
        }
        if exists|k: int| 0 <= k < rest.len() && is_contradicted(e.labels@, #[trigger] rest[k]) {
            let k = choose|k: int| 0 <= k < rest.len() && is_contradicted(e.labels@, #[trigger] rest[k]);
            assert(times[k] == rest[k]);
        }
    }
}

/// What is said of a label.
proof fn lemma_label(e: Episode, l: Label, at: LocationView)
    ensures
        found::finds(semantic::label_findings(e, l), EMPTY_ANNOTATION_CODE@, at) <==> at == (LocationView::Episode {
            episode: e.index,
        }) && is_note(l) && text::trimmed(l.value@).len() == 0,
        found::finds(semantic::label_findings(e, l), UNALIGNED_CODE@, at) <==> at == (LocationView::Episode { episode: e.index })
            && is_note(l) && (l.ts matches Some(t) && is_off(e, t as int)),
        !found::finds(semantic::label_findings(e, l), CONFLICT_CODE@, at),
{
    lemma_codes();
    lemma_outside(e, l);
    let r = semantic::label_findings(e, l);
    let here = LocationView::Episode { episode: e.index };
    assert forall|k: int| 0 <= k < r.len() implies (#[trigger] r[k]).location == here && (r[k].code == EMPTY_ANNOTATION_CODE@
        || r[k].code == UNALIGNED_CODE@) by {}
    if is_note(l) && text::trimmed(l.value@).len() == 0 {
        assert(r[0].code == EMPTY_ANNOTATION_CODE@);
    }
    if is_note(l) && semantic::is_outside(l, semantic::episode_span(e)) {
        assert(r[r.len() - 1].code == UNALIGNED_CODE@);
    }
}

/// The codes differ.
proof fn lemma_codes()
    ensures
        EMPTY_ANNOTATION_CODE@ != UNALIGNED_CODE@,
        EMPTY_ANNOTATION_CODE@ != CONFLICT_CODE@,
        UNALIGNED_CODE@ != CONFLICT_CODE@,
{
    reveal_strlit("SEMANTIC.EMPTY_ANNOTATION");
    reveal_strlit("SEMANTIC.ANNOTATION_UNALIGNED");
    reveal_strlit("SEMANTIC.ANNOTATION_CONFLICT");
    assert(EMPTY_ANNOTATION_CODE@.len() == 25);
    assert(UNALIGNED_CODE@.len() == 29);
    assert(CONFLICT_CODE@.len() == 28);
}

/// What is said of labels.
proof fn lemma_labels(e: Episode, s: Seq<Label>, code: Seq<char>, at: LocationView)
    ensures
        found::finds(semantic::labels_findings(e, s), code, at) <==> exists|k: int|
            0 <= k < s.len() && found::finds(semantic::label_findings(e, #[trigger] s[k]), code, at),
    decreases s.len(),
{
    if s.len() > 0 {
        let rest = s.drop_last();
        let n = s.len() - 1;
        lemma_labels(e, rest, code, at);
        found::lemma_finds_both(semantic::labels_findings(e, rest), semantic::label_findings(e, s.last()), code, at);
        assert(s[n] == s.last());
        assert forall|j: int| 0 <= j < n implies #[trigger] s[j] == rest[j] by {}
        if found::finds(semantic::labels_findings(e, rest), code, at) {
            let k = choose|k: int| 0 <= k < rest.len() && found::finds(semantic::label_findings(e, #[trigger] rest[k]), code, at);
            assert(s[k] == rest[k]);
        }
    }
}

/// In an episode, a note that says nothing is reported, a note before or after all of the episode is, and
/// notes that say different things of one moment are; and nothing else.
#[verifier::rlimit(40)]
pub proof fn law_poor_notes_are_reported(check: AnnotationIntegrity, e: Episode)
    ensures
        ({
            let at = LocationView::Episode { episode: e.index };
            let r = check.of_episode(e);
            &&& found::finds(r, EMPTY_ANNOTATION_CODE@, at) <==> exists|k: int|
                0 <= k < e.labels@.len() && is_note(#[trigger] e.labels@[k]) && text::trimmed(e.labels@[k].value@).len() == 0
            &&& found::finds(r, UNALIGNED_CODE@, at) <==> exists|k: int|
                0 <= k < e.labels@.len() && is_note(#[trigger] e.labels@[k]) && (e.labels@[k].ts matches Some(t) && is_off(
                    e,
                    t as int,
                ))
            &&& found::finds(r, CONFLICT_CODE@, at) <==> exists|t: i64| #[trigger] is_contradicted(e.labels@, t)
        }),
{
    let at = LocationView::Episode { episode: e.index };
    let s = e.labels@;
    let all = semantic::annotation_times(s);
    let times = seqs::time_set(all);
    let a = semantic::labels_findings(e, s);
    let b = semantic::conflict_findings(e, times);
    lemma_codes();
    assert forall|k: int| 0 <= k < s.len() implies {
        &&& found::finds(semantic::label_findings(e, #[trigger] s[k]), EMPTY_ANNOTATION_CODE@, at) <==> is_note(s[k])
            && text::trimmed(s[k].value@).len() == 0
        &&& found::finds(semantic::label_findings(e, s[k]), UNALIGNED_CODE@, at) <==> is_note(s[k]) && (s[k].ts matches Some(t)
            && is_off(e, t as int))
        &&& !found::finds(semantic::label_findings(e, s[k]), CONFLICT_CODE@, at)
    } by {
        lemma_label(e, s[k], at);
    }
    lemma_labels(e, s, EMPTY_ANNOTATION_CODE@, at);
    lemma_labels(e, s, UNALIGNED_CODE@, at);
    lemma_labels(e, s, CONFLICT_CODE@, at);
    lemma_conflicts(e, times, EMPTY_ANNOTATION_CODE@, at);
    lemma_conflicts(e, times, UNALIGNED_CODE@, at);
    lemma_conflicts(e, times, CONFLICT_CODE@, at);
    found::lemma_finds_both(a, b, EMPTY_ANNOTATION_CODE@, at);
    found::lemma_finds_both(a, b, UNALIGNED_CODE@, at);
    found::lemma_finds_both(a, b, CONFLICT_CODE@, at);
    if exists|t: i64| #[trigger] is_contradicted(s, t) {
        let t = choose|t: i64| #[trigger] is_contradicted(s, t);
        lemma_times(s, t);
        seqs::lemma_distinct_contains(all, seqs::time_order(), t);
        let k = choose|k: int| 0 <= k < times.len() && times[k] == t;
        assert(is_contradicted(s, times[k]));
    }
}

/// The report of a dataset on its notes is that of its episodes.
pub proof fn law_notes_are_reported_by_episode(check: AnnotationIntegrity, dataset: &Dataset, f: FindingView)
    ensures
        check.report(dataset).contains(f) <==> exists|i: int|
            0 <= i < dataset.episodes@.len() && check.of_episode(#[trigger] dataset.episodes@[i]).contains(f),
{
    found::lemma_by_episode(check, dataset.episodes@, f);
}

// ---- names -----------------------------------------------------------------------------------

/// Whether two streams of an episode have one name.
pub open spec fn is_taken_twice(e: Episode, name: Seq<char>) -> bool {
    exists|p: int, q: int|
        0 <= p < q < e.streams@.len() && (#[trigger] e.streams@[p]).name@ == name && (#[trigger] e.streams@[q]).name@ == name
}

/// Whether two streams of an episode have different names that read alike.
pub open spec fn is_mistakable(e: Episode, form: Seq<char>) -> bool {
    exists|p: int, q: int|
        0 <= p < e.streams@.len() && 0 <= q < e.streams@.len() && (#[trigger] e.streams@[p]).name@ != (
        #[trigger] e.streams@[q]).name@ && text::lowered(text::trimmed(e.streams@[p].name@)) == form && text::lowered(
            text::trimmed(e.streams@[q].name@),
        ) == form
}

/// How often a name is taken.
proof fn lemma_taken(s: Seq<Stream>, name: Seq<char>)
    ensures
        semantic::occurrences(s, name) > 0 <==> exists|p: int| 0 <= p < s.len() && (#[trigger] s[p]).name@ == name,
        semantic::occurrences(s, name) > 1 <==> exists|p: int, q: int|
            0 <= p < q < s.len() && (#[trigger] s[p]).name@ == name && (#[trigger] s[q]).name@ == name,
    decreases s.len(),
{
    if s.len() > 0 {
        let rest = s.drop_last();
        let n = s.len() - 1;
        lemma_taken(rest, name);
        assert(s[n] == s.last());
        assert forall|j: int| 0 <= j < n implies #[trigger] s[j] == rest[j] by {}
        if semantic::occurrences(rest, name) > 0 {
            let p = choose|p: int| 0 <= p < rest.len() && (#[trigger] rest[p]).name@ == name;
            assert(s[p].name@ == name);
        }
        if semantic::occurrences(rest, name) > 1 {
            let (p, q) = choose|p: int, q: int|
                0 <= p < q < rest.len() && (#[trigger] rest[p]).name@ == name && (#[trigger] rest[q]).name@ == name;
            assert(s[p].name@ == name && s[q].name@ == name);
        }
    }
}

/// The names that read alike.
proof fn lemma_alike(s: Seq<Stream>, form: Seq<char>, name: Seq<char>)
    ensures
        semantic::alike(s, form).contains(name) <==> exists|p: int|
            0 <= p < s.len() && (#[trigger] s[p]).name@ == name && text::lowered(text::trimmed(name)) == form,
    decreases s.len(),
{
    if s.len() > 0 {
        let rest = s.drop_last();
        let n = s.len() - 1;
        lemma_alike(rest, form, name);
        found::lemma_one_more(semantic::alike(rest, form), s.last().name@, name);
        assert(s[n] == s.last());
        assert forall|j: int| 0 <= j < n implies #[trigger] s[j] == rest[j] by {}
        if semantic::alike(rest, form).contains(name) {
            let p = choose|p: int|
                0 <= p < rest.len() && (#[trigger] rest[p]).name@ == name && text::lowered(text::trimmed(name)) == form;
            assert(s[p] == rest[p]);
        }
    }
}

/// Two names read alike exactly where the group of a form has two.
#[verifier::rlimit(40)]
proof fn lemma_mistakable(e: Episode, form: Seq<char>)
    ensures
        semantic::group(e.streams@, form).len() > 1 <==> is_mistakable(e, form),
{
    let s = e.streams@;
    let all = semantic::alike(s, form);
    let set = seqs::text_set(all);
    seqs::lemma_text_set_ordered(all);
    if set.len() > 1 {
        assert(text::str_lt(set[0], set[1]));
        text::lemma_str_trichotomy(set[0], set[1]);
        assert(set[0] != set[1]);
        assert(set.contains(set[0]) && set.contains(set[1]));
        seqs::lemma_distinct_contains(all, seqs::text_order(), set[0]);
        seqs::lemma_distinct_contains(all, seqs::text_order(), set[1]);
        lemma_alike(s, form, set[0]);
        lemma_alike(s, form, set[1]);
        let p = choose|p: int| 0 <= p < s.len() && (#[trigger] s[p]).name@ == set[0];
        let q = choose|q: int| 0 <= q < s.len() && (#[trigger] s[q]).name@ == set[1];
        assert(s[p].name@ != s[q].name@);
    }
    if is_mistakable(e, form) {
        let (p, q) = choose|p: int, q: int|
            0 <= p < s.len() && 0 <= q < s.len() && (#[trigger] s[p]).name@ != (#[trigger] s[q]).name@ && text::lowered(
                text::trimmed(s[p].name@),
            ) == form && text::lowered(text::trimmed(s[q].name@)) == form;
        lemma_alike(s, form, s[p].name@);
        lemma_alike(s, form, s[q].name@);
        seqs::lemma_distinct_contains(all, seqs::text_order(), s[p].name@);
        seqs::lemma_distinct_contains(all, seqs::text_order(), s[q].name@);
        let a = choose|a: int| 0 <= a < set.len() && set[a] == s[p].name@;
        let b = choose|b: int| 0 <= b < set.len() && set[b] == s[q].name@;
        assert(a != b);
    }
}

/// What was found before.
proof fn lemma_before(s: Seq<Episode>, name: Seq<char>, form: Seq<char>)
    ensures
        semantic::was_duplicated(s, name) <==> exists|i: int| 0 <= i < s.len() && is_taken_twice(#[trigger] s[i], name),
        semantic::was_ambiguous(s, form) <==> exists|i: int| 0 <= i < s.len() && is_mistakable(#[trigger] s[i], form),
    decreases s.len(),
{
    if s.len() > 0 {
        let rest = s.drop_last();
        let n = s.len() - 1;
        lemma_before(rest, name, form);
        lemma_taken(s.last().streams@, name);
        lemma_mistakable(s.last(), form);
        assert(s[n] == s.last());
        assert forall|j: int| 0 <= j < n implies #[trigger] s[j] == rest[j] by {}
        if semantic::was_duplicated(rest, name) {
            let i = choose|i: int| 0 <= i < rest.len() && is_taken_twice(#[trigger] rest[i], name);
            assert(s[i] == rest[i]);
        }
        if semantic::was_ambiguous(rest, form) {
            let i = choose|i: int| 0 <= i < rest.len() && is_mistakable(#[trigger] rest[i], form);
            assert(s[i] == rest[i]);
        }
    }
}

/// The codes differ.
proof fn lemma_key_codes()
    ensures
        DUPLICATE_KEY_CODE@ != AMBIGUOUS_KEY_CODE@,
{
    reveal_strlit("SEMANTIC.DUPLICATE_STREAM_KEY");
    reveal_strlit("SEMANTIC.AMBIGUOUS_STREAM_KEY");
    assert(DUPLICATE_KEY_CODE@[9] == 'D');
    assert(AMBIGUOUS_KEY_CODE@[9] == 'A');
}

/// What is said of names that are taken twice.
proof fn lemma_duplicates(earlier: Seq<Episode>, e: Episode, names: Seq<Seq<char>>, name: Seq<char>)
    ensures
        found::finds_named(semantic::duplicate_findings(earlier, e, names), DUPLICATE_KEY_CODE@, name) <==> names.contains(name)
            && is_taken_twice(e, name) && !semantic::was_duplicated(earlier, name),
        !found::finds_any(semantic::duplicate_findings(earlier, e, names), AMBIGUOUS_KEY_CODE@),
    decreases names.len(),
{
    lemma_key_codes();
    if names.len() > 0 {
        let rest = names.drop_last();
        let last = names.last();
        let old = semantic::duplicate_findings(earlier, e, rest);
        let new = semantic::duplicate_findings(earlier, e, names);
        lemma_duplicates(earlier, e, rest, name);
        lemma_taken(e.streams@, last);
        assert(names =~= rest.push(last));
        found::lemma_one_more(rest, last, name);
        if new.len() > old.len() {
            let g = new.last();
            assert(g.code == DUPLICATE_KEY_CODE@ && g.location == (LocationView::Stream { episode: e.index, stream: last }));
            assert(new =~= old + seq![g]);
            found::lemma_named_both(old, seq![g], DUPLICATE_KEY_CODE@, name);
            found::lemma_named_both(old, seq![g], AMBIGUOUS_KEY_CODE@, name);
            assert(seq![g][0] == g);
        }
    }
}

/// What is said of the members of a group.
proof fn lemma_members(episode: u64, all: Seq<Seq<char>>, some: Seq<Seq<char>>, name: Seq<char>)
    ensures
        found::finds_named(semantic::member_findings(episode, all, some), AMBIGUOUS_KEY_CODE@, name) <==> some.contains(name),
        !found::finds_named(semantic::member_findings(episode, all, some), DUPLICATE_KEY_CODE@, name),
        some.len() > 0 ==> found::finds_any(semantic::member_findings(episode, all, some), AMBIGUOUS_KEY_CODE@),
    decreases some.len(),
{
    lemma_key_codes();
    if some.len() > 0 {
        let rest = some.drop_last();
        let old = semantic::member_findings(episode, all, rest);
        let new = semantic::member_findings(episode, all, some);
        let g = new.last();
        lemma_members(episode, all, rest, name);
        assert(some =~= rest.push(some.last()));
        found::lemma_one_more(rest, some.last(), name);
        assert(g.code == AMBIGUOUS_KEY_CODE@ && g.location == (LocationView::Stream { episode, stream: some.last() }));
        assert(new =~= old + seq![g]);
        found::lemma_named_both(old, seq![g], DUPLICATE_KEY_CODE@, name);
        found::lemma_named_both(old, seq![g], AMBIGUOUS_KEY_CODE@, name);
        assert(seq![g][0] == g);
    }
}

/// What is said of names that read alike.
proof fn lemma_ambiguous(earlier: Seq<Episode>, e: Episode, forms: Seq<Seq<char>>, name: Seq<char>)
    ensures
        !found::finds_named(semantic::ambiguous_findings(earlier, e, forms), DUPLICATE_KEY_CODE@, name),
        found::finds_any(semantic::ambiguous_findings(earlier, e, forms), AMBIGUOUS_KEY_CODE@) <==> exists|k: int|
            0 <= k < forms.len() && is_mistakable(e, #[trigger] forms[k]) && !semantic::was_ambiguous(earlier, forms[k]),
    decreases forms.len(),
{
    if forms.len() > 0 {
        let rest = forms.drop_last();
        let n = forms.len() - 1;
        let old = semantic::ambiguous_findings(earlier, e, rest);
        let all = semantic::group(e.streams@, forms.last());
        lemma_ambiguous(earlier, e, rest, name);
        lemma_mistakable(e, forms.last());
        lemma_members(e.index, all, all, name);
        found::lemma_named_both(old, semantic::member_findings(e.index, all, all), DUPLICATE_KEY_CODE@, name);
        found::lemma_named_both(old, semantic::member_findings(e.index, all, all), AMBIGUOUS_KEY_CODE@, name);
        assert(forms[n] == forms.last());
        assert forall|j: int| 0 <= j < n implies #[trigger] forms[j] == rest[j] by {}
        if found::finds_any(old, AMBIGUOUS_KEY_CODE@) {
            let k = choose|k: int|
                0 <= k < rest.len() && is_mistakable(e, #[trigger] rest[k]) && !semantic::was_ambiguous(earlier, rest[k]);
            assert(forms[k] == rest[k]);
        }
    }
}

/// What is said of names in an episode.
#[verifier::rlimit(40)]
proof fn lemma_clarity_step(s: Seq<Episode>, name: Seq<char>)
    requires
        s.len() > 0,
    ensures
        ({
            let (old, new, e) = (semantic::clarity_findings(s.drop_last()), semantic::clarity_findings(s), s.last());
            &&& found::finds_named(new, DUPLICATE_KEY_CODE@, name) <==> found::finds_named(old, DUPLICATE_KEY_CODE@, name) || (
            is_taken_twice(e, name) && !semantic::was_duplicated(s.drop_last(), name))
            &&& found::finds_any(new, AMBIGUOUS_KEY_CODE@) <==> found::finds_any(old, AMBIGUOUS_KEY_CODE@) || exists|form: Seq<char>|
                #[trigger] is_mistakable(e, form) && !semantic::was_ambiguous(s.drop_last(), form)
        }),
{
    let rest = s.drop_last();
    let e = s.last();
    let t = e.streams@;
    let names = seqs::text_set(semantic::names(t));
    let forms = seqs::text_set(semantic::normals(t));
    let old = semantic::clarity_findings(rest);
    let a = semantic::duplicate_findings(rest, e, names);
    let b = semantic::ambiguous_findings(rest, e, forms);
    lemma_duplicates(rest, e, names, name);
    lemma_ambiguous(rest, e, forms, name);
    found::lemma_named_both(old, a, DUPLICATE_KEY_CODE@, name);
    found::lemma_named_both(old, a, AMBIGUOUS_KEY_CODE@, name);
    found::lemma_named_both(old + a, b, DUPLICATE_KEY_CODE@, name);
    found::lemma_named_both(old + a, b, AMBIGUOUS_KEY_CODE@, name);
    if is_taken_twice(e, name) {
        let (p, q) = choose|p: int, q: int|
            0 <= p < q < t.len() && (#[trigger] t[p]).name@ == name && (#[trigger] t[q]).name@ == name;
        assert(semantic::names(t)[p] == name);
        seqs::lemma_distinct_contains(semantic::names(t), seqs::text_order(), name);
    }
    if exists|form: Seq<char>| #[trigger] is_mistakable(e, form) && !semantic::was_ambiguous(rest, form) {
        let form = choose|form: Seq<char>| #[trigger] is_mistakable(e, form) && !semantic::was_ambiguous(rest, form);
        let (p, q) = choose|p: int, q: int|
            0 <= p < t.len() && 0 <= q < t.len() && (#[trigger] t[p]).name@ != (#[trigger] t[q]).name@ && text::lowered(
                text::trimmed(t[p].name@),
            ) == form && text::lowered(text::trimmed(t[q].name@)) == form;
        assert(semantic::normals(t)[p] == form);
        seqs::lemma_distinct_contains(semantic::normals(t), seqs::text_order(), form);
        let k = choose|k: int| 0 <= k < forms.len() && forms[k] == form;
        assert(is_mistakable(e, forms[k]));
    }
}

/// What is said of names.
#[verifier::rlimit(40)]
proof fn lemma_clarity(s: Seq<Episode>, name: Seq<char>)
    ensures
        found::finds_named(semantic::clarity_findings(s), DUPLICATE_KEY_CODE@, name) <==> exists|i: int|
            0 <= i < s.len() && is_taken_twice(#[trigger] s[i], name),
        found::finds_any(semantic::clarity_findings(s), AMBIGUOUS_KEY_CODE@) <==> exists|i: int, form: Seq<char>|
            0 <= i < s.len() && #[trigger] is_mistakable(s[i], form),
    decreases s.len(),
{
    if s.len() > 0 {
        let rest = s.drop_last();
        let n = s.len() - 1;
        lemma_clarity(rest, name);
        lemma_clarity_step(s, name);
        lemma_before(rest, name, name);
        assert(s[n] == s.last());
        assert forall|j: int| 0 <= j < n implies #[trigger] s[j] == rest[j] by {}
        if exists|i: int| 0 <= i < rest.len() && is_taken_twice(#[trigger] rest[i], name) {
            let i = choose|i: int| 0 <= i < rest.len() && is_taken_twice(#[trigger] rest[i], name);
            assert(is_taken_twice(s[i], name));
        }
        if exists|i: int, form: Seq<char>| 0 <= i < rest.len() && #[trigger] is_mistakable(rest[i], form) {
            let (i, form) = choose|i: int, form: Seq<char>| 0 <= i < rest.len() && #[trigger] is_mistakable(rest[i], form);
            assert(is_mistakable(s[i], form));
        }
        if exists|i: int, form: Seq<char>| 0 <= i < s.len() && #[trigger] is_mistakable(s[i], form) {
            let (i, form) = choose|i: int, form: Seq<char>| 0 <= i < s.len() && #[trigger] is_mistakable(s[i], form);
            lemma_before(rest, name, form);
            if i < n {
                assert(is_mistakable(rest[i], form));
            } else if semantic::was_ambiguous(rest, form) {
                let j = choose|j: int| 0 <= j < rest.len() && is_mistakable(#[trigger] rest[j], form);
                assert(is_mistakable(rest[j], form));
            }
        }
    }
}

/// A name is reported exactly where two streams of an episode have it, and names are reported as easily
/// mistaken exactly where two of an episode differ in case or surrounding space alone.
pub proof fn law_unclear_names_are_reported(check: StreamKeyClarity, dataset: &Dataset, name: Seq<char>)
    ensures
        found::finds_named(check.report(dataset), DUPLICATE_KEY_CODE@, name) <==> exists|i: int|
            0 <= i < dataset.episodes@.len() && is_taken_twice(#[trigger] dataset.episodes@[i], name),
        found::finds_any(check.report(dataset), AMBIGUOUS_KEY_CODE@) <==> exists|i: int, form: Seq<char>|
            0 <= i < dataset.episodes@.len() && #[trigger] is_mistakable(dataset.episodes@[i], form),
{
    lemma_clarity(dataset.episodes@, name);
}

} // verus!
