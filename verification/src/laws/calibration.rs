//! Laws of the checks on a rig's calibration.

use vstd::prelude::*;
use vstd::string::*;

use crate::cdm::{Calibration, CameraIntrinsics, Dataset, Episode, Modality, Stream, Transform};
use crate::check::{Check, FindingView, LocationView};
use crate::checks::autonomy;
use crate::checks::calibration;
use crate::checks::calibration::{
    Calibrated, CalibrationCompleteness, Resolution, SensorFrameResolution, AMBIGUOUS_CODE, IMPLAUSIBLE_CODE, INCOMPLETE_CODE, UNDECLARED_CODE,
    UNKNOWN_CODE, UNRELATED_CODE,
};
use crate::checks::cycles;
use crate::checks::frames;
use crate::checks::frames::EdgeView;
use crate::checks::walk::{EpisodeRule, KeyedRule};
use crate::double;
use crate::laws::found;
use crate::number;
use crate::seqs;
use crate::text;

verus! {

/// Whether an episode's calibration is looked at: it is of a rig, and has a camera or a lidar.
pub open spec fn is_subject(e: Episode) -> bool {
    autonomy::is_rig(e) && exists|j: int|
        0 <= j < e.streams@.len() && ((#[trigger] e.streams@[j]).modality == Modality::Video || e.streams@[j].modality
            == Modality::PointCloud)
}

/// Whether an episode's calibration is looked at.
proof fn lemma_subject(e: Episode)
    ensures
        is_subject(e) <==> autonomy::is_rig(e) && (calibration::carries(e.streams@, Modality::PointCloud)
            || calibration::carries(e.streams@, Modality::Video)),
{
}

// ---- values ----------------------------------------------------------------------------------

/// Whether a number is finite and positive.
pub open spec fn is_length(bits: u64) -> bool {
    0 < number::rank(bits) && number::magnitude(bits) < number::INFINITY
}

/// Whether a number is finite and not negative.
pub open spec fn is_coordinate(bits: u64) -> bool {
    0 <= number::rank(bits) && number::magnitude(bits) < number::INFINITY
}

/// Whether intrinsics project: both focal lengths are lengths, the principal point is a pixel, and every
/// distortion coefficient is finite.
pub open spec fn projects(k: CameraIntrinsics) -> bool {
    &&& is_length(k.fx) && is_length(k.fy)
    &&& is_coordinate(k.cx) && is_coordinate(k.cy)
    &&& forall|i: int| 0 <= i < k.distortion@.len() ==> number::magnitude(#[trigger] k.distortion@[i]) < number::INFINITY
}

/// The norm of a rotation.
pub open spec fn norm(q: Seq<u64>) -> int {
    let (a, b, c, d) = (number::rank(q[0]), number::rank(q[1]), number::rank(q[2]), number::rank(q[3]));
    double::square_root(
        double::plus(
            double::plus(double::plus(double::times(a, a), double::times(b, b)), double::times(c, c)),
            double::times(d, d),
        ),
    )
}

/// Whether a transform places something: all of it is finite, and its rotation is one.
pub open spec fn places(t: Transform) -> bool {
    &&& forall|i: int| 0 <= i < 3 ==> number::magnitude(#[trigger] t.pose.translation@[i]) < number::INFINITY
    &&& forall|i: int| 0 <= i < 4 ==> number::magnitude(#[trigger] t.pose.rotation@[i]) < number::INFINITY
    &&& double::is_finite(norm(t.pose.rotation@)) && double::MILLIONTH <= norm(t.pose.rotation@)
}

/// Intrinsics are at fault exactly where they do not project.
proof fn lemma_projects(k: CameraIntrinsics)
    ensures
        calibration::intrinsics_reason(k) is Some <==> !projects(k),
{
}

/// A transform is at fault exactly where it places nothing.
proof fn lemma_places(t: Transform)
    ensures
        calibration::transform_reason(t) is Some <==> !places(t),
{
    assert(calibration::has_non_finite(t.pose.translation@) <==> exists|i: int|
        0 <= i < 3 && number::magnitude(#[trigger] t.pose.translation@[i]) >= number::INFINITY);
    assert(calibration::has_non_finite(t.pose.rotation@) <==> exists|i: int|
        0 <= i < 4 && number::magnitude(#[trigger] t.pose.rotation@[i]) >= number::INFINITY);
}

/// Faults of intrinsics.
proof fn lemma_intrinsics(s: Seq<CameraIntrinsics>)
    ensures
        calibration::intrinsics_reasons(s).len() > 0 <==> exists|k: int| 0 <= k < s.len() && !projects(#[trigger] s[k]),
    decreases s.len(),
{
    if s.len() > 0 {
        let rest = s.drop_last();
        let n = s.len() - 1;
        lemma_intrinsics(rest);
        lemma_projects(s.last());
        assert(s[n] == s.last());
        assert forall|j: int| 0 <= j < n implies #[trigger] s[j] == rest[j] by {}
        if calibration::intrinsics_reasons(rest).len() > 0 {
            let k = choose|k: int| 0 <= k < rest.len() && !projects(#[trigger] rest[k]);
            assert(s[k] == rest[k]);
        }
    }
}

/// Faults of transforms.
proof fn lemma_transforms(s: Seq<Transform>)
    ensures
        calibration::transform_reasons(s).len() > 0 <==> exists|k: int| 0 <= k < s.len() && !places(#[trigger] s[k]),
    decreases s.len(),
{
    if s.len() > 0 {
        let rest = s.drop_last();
        let n = s.len() - 1;
        lemma_transforms(rest);
        lemma_places(s.last());
        assert(s[n] == s.last());
        assert forall|j: int| 0 <= j < n implies #[trigger] s[j] == rest[j] by {}
        if calibration::transform_reasons(rest).len() > 0 {
            let k = choose|k: int| 0 <= k < rest.len() && !places(#[trigger] rest[k]);
            assert(s[k] == rest[k]);
        }
    }
}

/// Whether a calibration holds a value that cannot be used.
pub open spec fn is_unusable(c: Calibration) -> bool {
    ||| exists|k: int| 0 <= k < c.intrinsics@.len() && !projects(#[trigger] c.intrinsics@[k])
    ||| exists|k: int| 0 <= k < c.transforms@.len() && !places(#[trigger] c.transforms@[k])
}

// ---- the tree --------------------------------------------------------------------------------

/// Whether a frame is given two parents at one time.
pub open spec fn has_two_parents(s: Seq<Transform>) -> bool {
    exists|i: int, j: int| #[trigger] are_rivals(s, i, j)
}

/// Whether two transforms give one frame different parents at one time.
pub open spec fn are_rivals(s: Seq<Transform>, i: int, j: int) -> bool {
    &&& 0 <= i < s.len() && 0 <= j < s.len()
    &&& s[i].child_frame@ == s[j].child_frame@ && s[i].parent_frame@ != s[j].parent_frame@
    &&& exists|t: int| #[trigger] holds_at(s[i], t) && holds_at(s[j], t)
}

/// Whether a transform holds at a moment.
pub open spec fn holds_at(t: Transform, at: int) -> bool {
    &&& i64::MIN <= at <= i64::MAX
    &&& t.valid_from matches Some(from) ==> from <= at
    &&& t.valid_to matches Some(to) ==> at <= to
}

/// Two transforms overlap exactly where both hold at some moment.
proof fn lemma_overlap(a: Transform, b: Transform)
    ensures
        calibration::overlap(a, b) <==> exists|t: int| #[trigger] holds_at(a, t) && holds_at(b, t),
{
    let t = if frames::start_of(a) >= frames::start_of(b) { frames::start_of(a) } else { frames::start_of(b) };
    if calibration::overlap(a, b) {
        assert(holds_at(a, t) && holds_at(b, t));
    }
}

/// Frames with two parents.
proof fn lemma_parents(s: Seq<Transform>, children: Seq<Seq<char>>)
    ensures
        calibration::parents_reasons(s, children).len() > 0 <==> exists|k: int|
            0 <= k < children.len() && calibration::is_contested(s, #[trigger] children[k]),
    decreases children.len(),
{
    if children.len() > 0 {
        let rest = children.drop_last();
        let n = children.len() - 1;
        lemma_parents(s, rest);
        assert(children[n] == children.last());
        assert forall|j: int| 0 <= j < n implies #[trigger] children[j] == rest[j] by {}
        if calibration::parents_reasons(s, rest).len() > 0 {
            let k = choose|k: int| 0 <= k < rest.len() && calibration::is_contested(s, #[trigger] rest[k]);
            assert(children[k] == rest[k]);
        }
    }
}

/// What is wrong with a tree.
proof fn lemma_ambiguous(s: Seq<Transform>)
    ensures
        calibration::ambiguous_reasons(s).len() > 0 <==> has_two_parents(s) || exists|l: Seq<int>| #[trigger]
            cycles::is_cycle(frames::edges_of(s), l),
{
    let names = calibration::child_names(s);
    let children = seqs::text_set(names);
    lemma_parents(s, children);
    cycles::law_found_cycles_are_cycles(s);
    cycles::law_no_cycle_goes_unnoticed(s);
    if calibration::parents_reasons(s, children).len() > 0 {
        let k = choose|k: int| 0 <= k < children.len() && calibration::is_contested(s, #[trigger] children[k]);
        let (i, j) = choose|i: int, j: int|
            0 <= i < s.len() && 0 <= j < s.len() && calibration::conflict(#[trigger] s[i], #[trigger] s[j], children[k]);
        lemma_overlap(s[i], s[j]);
        assert(are_rivals(s, i, j));
    }
    if has_two_parents(s) {
        let (i, j) = choose|i: int, j: int| #[trigger] are_rivals(s, i, j);
        lemma_overlap(s[i], s[j]);
        let child = s[i].child_frame@;
        assert(calibration::conflict(s[i], s[j], child));
        assert(names[i] == child);
        seqs::lemma_distinct_contains(names, seqs::text_order(), child);
        let k = choose|k: int| 0 <= k < children.len() && children[k] == child;
        assert(calibration::is_contested(s, children[k]));
    }
}

// ---- connection ------------------------------------------------------------------------------

/// There is more than one component exactly where two places are not connected.
pub proof fn law_components_are_apart(edges: Seq<EdgeView>, n: nat)
    ensures
        n > 0 ==> frames::components(edges, n) >= 1,
        frames::components(edges, n) > 1 <==> exists|x: int, y: int|
            0 <= x < n && 0 <= y < n && !#[trigger] frames::connected(edges, x, y),
    decreases n,
{
    frames::lemma_connected(edges);
    if n > 0 {
        let m = (n - 1) as nat;
        law_components_are_apart(edges, m);
        if frames::joins_earlier(edges, n - 1) {
            let j = choose|j: int| 0 <= j < n - 1 && #[trigger] frames::connected(edges, j, n - 1);
            if exists|x: int, y: int| 0 <= x < n && 0 <= y < n && !#[trigger] frames::connected(edges, x, y) {
                let (x, y) = choose|x: int, y: int| 0 <= x < n && 0 <= y < n && !#[trigger] frames::connected(edges, x, y);
                let a = if x == n - 1 { j } else { x };
                let b = if y == n - 1 { j } else { y };
                assert(frames::connected(edges, x, a));
                assert(frames::connected(edges, b, y));
                assert(!frames::connected(edges, a, b));
            }
        } else if n > 1 {
            assert(!frames::connected(edges, 0, n - 1));
        } else {
            assert forall|x: int, y: int| 0 <= x < n && 0 <= y < n implies #[trigger] frames::connected(edges, x, y) by {
                assert(x == y);
            }
        }
    }
}

/// Whether a transform names a frame.
pub open spec fn names_frame(s: Seq<Transform>, frame: Seq<char>) -> bool {
    exists|k: int| 0 <= k < s.len() && ((#[trigger] s[k]).parent_frame@ == frame || s[k].child_frame@ == frame)
}

/// The frames are those that a transform names.
pub proof fn law_frames_are_the_named_ones(s: Seq<Transform>, frame: Seq<char>)
    ensures
        frames::frames_of(s).contains(frame) <==> names_frame(s, frame),
{
    seqs::lemma_distinct_contains(frames::named_frames(s), seqs::text_order(), frame);
    lemma_named_frames(s, frame);
}

/// The frames that transforms name.
proof fn lemma_named_frames(s: Seq<Transform>, frame: Seq<char>)
    ensures
        frames::named_frames(s).contains(frame) <==> names_frame(s, frame),
    decreases s.len(),
{
    if s.len() > 0 {
        let rest = s.drop_last();
        let n = s.len() - 1;
        let old = frames::named_frames(rest);
        lemma_named_frames(rest, frame);
        found::lemma_one_more(old, s.last().parent_frame@, frame);
        found::lemma_one_more(old.push(s.last().parent_frame@), s.last().child_frame@, frame);
        assert(s[n] == s.last());
        assert forall|j: int| 0 <= j < n implies #[trigger] s[j] == rest[j] by {}
        if names_frame(rest, frame) {
            let k = choose|k: int| 0 <= k < rest.len() && ((#[trigger] rest[k]).parent_frame@ == frame || rest[k].child_frame@ == frame);
            assert(s[k] == rest[k]);
        }
    }
}

/// Whether every camera says its frame, and the frames that they say, in order.
pub open spec fn are_camera_frames(s: Seq<Stream>, names: Seq<Seq<char>>) -> bool {
    &&& forall|j: int| 0 <= j < s.len() && (#[trigger] s[j]).modality is Video ==> s[j].frame_id is Some
    &&& seqs::texts_ordered(names)
    &&& forall|name: Seq<char>| #[trigger]
        names.contains(name) <==> exists|j: int|
            0 <= j < s.len() && (#[trigger] s[j]).modality is Video && (s[j].frame_id matches Some(f) && f@ == name)
}

/// The frames of cameras.
proof fn lemma_camera_frames(s: Seq<Stream>, name: Seq<char>)
    ensures
        calibration::camera_frames(s) is Some <==> forall|j: int|
            0 <= j < s.len() && (#[trigger] s[j]).modality is Video ==> s[j].frame_id is Some,
        calibration::camera_frames(s) matches Some(l) ==> (l.contains(name) <==> exists|j: int|
            0 <= j < s.len() && (#[trigger] s[j]).modality is Video && (s[j].frame_id matches Some(f) && f@ == name)),
    decreases s.len(),
{
    if s.len() > 0 {
        let rest = s.drop_last();
        let n = s.len() - 1;
        lemma_camera_frames(rest, name);
        assert(s[n] == s.last());
        assert forall|j: int| 0 <= j < n implies #[trigger] s[j] == rest[j] by {}
        if forall|j: int| 0 <= j < s.len() && (#[trigger] s[j]).modality is Video ==> s[j].frame_id is Some {
            assert forall|j: int| 0 <= j < rest.len() && (#[trigger] rest[j]).modality is Video implies rest[j].frame_id is Some by {
                assert(s[j] == rest[j]);
            }
        }
        if let Some(l) = calibration::camera_frames(rest) {
            if let Some(f) = s.last().frame_id {
                found::lemma_one_more(l, f@, name);
            }
            if l.contains(name) {
                let j = choose|j: int|
                    0 <= j < rest.len() && (#[trigger] rest[j]).modality is Video && (rest[j].frame_id matches Some(f) && f@ == name);
                assert(s[j] == rest[j]);
            }
        }
    }
}

/// How many cameras there are is how many frames they say, where each says one; and where one says none,
/// it cannot be told.
pub proof fn law_cameras_are_counted_by_frame(s: Seq<Stream>, names: Seq<Seq<char>>)
    ensures
        are_camera_frames(s, names) ==> calibration::cameras(s) == Some(names.len()),
        calibration::cameras(s) is None <==> exists|j: int|
            0 <= j < s.len() && (#[trigger] s[j]).modality is Video && s[j].frame_id is None,
{
    lemma_camera_frames(s, Seq::empty());
    if are_camera_frames(s, names) {
        let l = calibration::camera_frames(s)->0;
        let set = seqs::text_set(l);
        seqs::lemma_text_set_ordered(l);
        assert forall|x: Seq<char>| set.contains(x) <==> names.contains(x) by {
            lemma_camera_frames(s, x);
            seqs::lemma_distinct_contains(l, seqs::text_order(), x);
        }
        let lt = seqs::text_order();
        assert(seqs::asymmetric(lt)) by {
            assert forall|x: Seq<char>, y: Seq<char>| #[trigger] lt(x, y) implies !lt(y, x) by {
                text::lemma_str_trichotomy(x, y);
            }
        }
        seqs::lemma_strict_is_unique(set, names, lt);
    }
}

// ---- what is reported ------------------------------------------------------------------------

/// The codes differ.
proof fn lemma_codes()
    ensures
        INCOMPLETE_CODE@.len() == 31,
        IMPLAUSIBLE_CODE@.len() == 32,
        AMBIGUOUS_CODE@.len() == 30,
        UNDECLARED_CODE@.len() == 32,
        UNKNOWN_CODE@.len() == 29,
        UNRELATED_CODE@.len() == 31,
{
    reveal_strlit("AUTONOMY.CALIBRATION_INCOMPLETE");
    reveal_strlit("AUTONOMY.CALIBRATION_IMPLAUSIBLE");
    reveal_strlit("AUTONOMY.CALIBRATION_AMBIGUOUS");
    reveal_strlit("AUTONOMY.SENSOR_FRAME_UNDECLARED");
    reveal_strlit("AUTONOMY.SENSOR_FRAME_UNKNOWN");
    reveal_strlit("AUTONOMY.SENSOR_FRAME_UNRELATED");
}

/// Whether a rig lacks a transform tree that relates its sensors: there is none, or it falls apart and
/// the sensors do not say where in it they are.
pub open spec fn lacks_tree(e: Episode, s: Seq<Transform>) -> bool {
    ||| s.len() == 0
    ||| !calibration::is_localizable(e.streams@, frames::frames_of(s)) && exists|x: int, y: int|
        0 <= x < frames::frames_of(s).len() && 0 <= y < frames::frames_of(s).len() && !#[trigger] frames::connected(
            frames::edges_of(s),
            x,
            y,
        )
}

/// Whether a rig has fewer intrinsics than cameras.
pub open spec fn lacks_intrinsics(e: Episode, n: nat) -> bool {
    ||| n == 0 && exists|j: int| 0 <= j < e.streams@.len() && (#[trigger] e.streams@[j]).modality is Video
    ||| calibration::cameras(e.streams@) matches Some(c) && c > n
}

/// An episode of a rig is reported as incomplete exactly where it lacks a tree or intrinsics, as
/// implausible exactly where a value of the calibration cannot be used, and as ambiguous exactly where a
/// frame has two parents at one time or the tree has a cycle; one of no rig is not reported.
#[verifier::rlimit(40)]
pub proof fn law_poor_calibration_is_reported(dataset: &Dataset, e: Episode)
    ensures
        ({
            let r = (Calibrated { calibration: &dataset.calibration }).of_episode(e);
            let at = LocationView::Episode { episode: e.index };
            let s = calibration::transforms_of(dataset.calibration);
            &&& found::finds(r, INCOMPLETE_CODE@, at) <==> is_subject(e) && (lacks_tree(e, s) || lacks_intrinsics(
                e,
                calibration::intrinsics_count(dataset.calibration),
            ))
            &&& found::finds(r, IMPLAUSIBLE_CODE@, at) <==> is_subject(e) && (dataset.calibration matches Some(c) && is_unusable(c))
            &&& found::finds(r, AMBIGUOUS_CODE@, at) <==> is_subject(e) && (has_two_parents(s) || exists|l: Seq<int>| #[trigger]
                cycles::is_cycle(frames::edges_of(s), l))
        }),
{
    lemma_codes();
    lemma_subject(e);
    let at = LocationView::Episode { episode: e.index };
    let s = calibration::transforms_of(dataset.calibration);
    let n = calibration::intrinsics_count(dataset.calibration);
    let a = calibration::tree_findings(e, s);
    let b = calibration::intrinsics_findings(e, n);
    let bad = calibration::unusable_reasons(dataset.calibration);
    let c = calibration::implausible_findings(e.index, bad);
    let two = calibration::ambiguous_reasons(s);
    let d = calibration::ambiguous_findings(e.index, two);
    law_components_are_apart(frames::edges_of(s), frames::frames_of(s).len());
    lemma_ambiguous(s);
    if let Some(x) = dataset.calibration {
        lemma_intrinsics(x.intrinsics@);
        lemma_transforms(x.transforms@);
    }
    lemma_four(a, b, c, d, INCOMPLETE_CODE@, at);
    lemma_four(a, b, c, d, IMPLAUSIBLE_CODE@, at);
    lemma_four(a, b, c, d, AMBIGUOUS_CODE@, at);
    assert forall|k: int| 0 <= k < a.len() implies (#[trigger] a[k]).code == INCOMPLETE_CODE@ && a[k].location == at by {}
    assert forall|k: int| 0 <= k < b.len() implies (#[trigger] b[k]).code == INCOMPLETE_CODE@ && b[k].location == at by {}
    assert forall|k: int| 0 <= k < c.len() implies (#[trigger] c[k]).code == IMPLAUSIBLE_CODE@ && c[k].location == at by {}
    assert forall|k: int| 0 <= k < d.len() implies (#[trigger] d[k]).code == AMBIGUOUS_CODE@ && d[k].location == at by {}
    if a.len() > 0 {
        assert(a[0].code == INCOMPLETE_CODE@);
    }
    if b.len() > 0 {
        assert(b[0].code == INCOMPLETE_CODE@);
    }
    if c.len() > 0 {
        assert(c[0].code == IMPLAUSIBLE_CODE@);
    }
    if d.len() > 0 {
        assert(d[0].code == AMBIGUOUS_CODE@);
    }
    assert(a.len() > 0 <==> lacks_tree(e, s));
    assert(b.len() > 0 <==> lacks_intrinsics(e, n));
}

/// Four reports find together what one of them finds.
proof fn lemma_four(
    a: Seq<FindingView>,
    b: Seq<FindingView>,
    c: Seq<FindingView>,
    d: Seq<FindingView>,
    code: Seq<char>,
    at: LocationView,
)
    ensures
        found::finds(a + b + c + d, code, at) <==> found::finds(a, code, at) || found::finds(b, code, at) || found::finds(
            c,
            code,
            at,
        ) || found::finds(d, code, at),
{
    found::lemma_finds_both(a, b, code, at);
    found::lemma_finds_both(a + b, c, code, at);
    found::lemma_finds_both(a + b + c, d, code, at);
}

/// The report of a dataset on its calibration is that of its episodes.
pub proof fn law_calibration_is_reported_by_episode(check: CalibrationCompleteness, dataset: &Dataset, f: FindingView)
    ensures
        check.report(dataset).contains(f) <==> exists|i: int|
            0 <= i < dataset.episodes@.len() && (Calibrated { calibration: &dataset.calibration }).of_episode(
                #[trigger] dataset.episodes@[i],
            ).contains(f),
{
    found::lemma_by_episode((Calibrated { calibration: &dataset.calibration }), dataset.episodes@, f);
}

// ---- where sensors are -----------------------------------------------------------------------

/// Whether a sensor of a rig is one that has a place.
pub open spec fn has_place(e: Episode, s: Stream) -> bool {
    autonomy::is_rig(e) && (s.modality is PointCloud || s.modality is Video || s.modality is Imu || s.modality is Gnss)
}

/// A sensor of a rig is reported exactly where it says no frame, or one that no transform names, or one
/// that is apart from every camera's, though a camera's is known.
pub proof fn law_unplaced_sensors_are_a_defect(rule: Resolution, e: Episode, s: Stream)
    ensures
        ({
            let r = rule.hit(e, s);
            let code = ((r->0).1).code;
            let t = rule.transforms@;
            let cameras = calibration::declared_camera_frames(e.streams@);
            &&& !has_place(e, s) ==> r is None
            &&& has_place(e, s) && s.frame_id is None ==> r is Some && code == UNDECLARED_CODE@
            &&& has_place(e, s) && (s.frame_id matches Some(f) && !names_frame(t, f@)) ==> r is Some && code == UNKNOWN_CODE@
            &&& has_place(e, s) && (s.frame_id matches Some(f) && names_frame(t, f@)) ==> {
                let frame = s.frame_id->0@;
                &&& r is Some ==> code == UNRELATED_CODE@
                &&& r is Some <==> (exists|i: int| 0 <= i < cameras.len() && names_frame(t, #[trigger] cameras[i])) && (
                forall|i: int|
                    0 <= i < cameras.len() ==> #[trigger] cameras[i] != frame && !calibration::related(t, cameras[i], frame))
            }
            &&& r matches Some((_, f)) ==> f.location == (LocationView::Stream { episode: e.index, stream: s.name@ })
        }),
{
    let t = rule.transforms@;
    let cameras = calibration::declared_camera_frames(e.streams@);
    if let Some(f) = s.frame_id {
        law_frames_are_the_named_ones(t, f@);
    }
    assert forall|i: int| 0 <= i < cameras.len() implies (frames::frames_of(t).contains(#[trigger] cameras[i]) <==> names_frame(
        t,
        cameras[i],
    )) by {
        law_frames_are_the_named_ones(t, cameras[i]);
    }
    if calibration::any_known(t, cameras) {
        let i = choose|i: int| 0 <= i < cameras.len() && frames::frames_of(t).contains(#[trigger] cameras[i]);
        assert(names_frame(t, cameras[i]));
    }
}

/// Whether a finding is of a code and about a stream of a name.
pub open spec fn is_of(f: FindingView, code: Seq<char>, name: Seq<char>) -> bool {
    f.code == code && (f.location matches LocationView::Stream { stream, .. } && stream == name)
}

/// A name is reported under a code exactly where a sensor of it has that defect, in a rig that has
/// transforms.
#[verifier::rlimit(40)]
pub proof fn law_unplaced_sensors_are_reported(
    check: SensorFrameResolution,
    dataset: &Dataset,
    transforms: &Vec<Transform>,
    code: Seq<char>,
    name: Seq<char>,
)
    requires
        dataset.calibration matches Some(c) && c.transforms == *transforms && c.transforms@.len() > 0,
    ensures
        (exists|f: FindingView| #[trigger] check.report(dataset).contains(f) && is_of(f, code, name)) <==> exists|i: int, j: int|
            0 <= i < dataset.episodes@.len() && 0 <= j < dataset.episodes@[i].streams@.len() && ((Resolution { transforms }).hit(
                dataset.episodes@[i],
                #[trigger] dataset.episodes@[i].streams@[j],
            ) matches Some(h) && is_of(h.1, code, name)),
{
    let rule = Resolution { transforms };
    let eps = dataset.episodes@;
    let q = |f: FindingView| is_of(f, code, name);
    assert forall|e: Episode, s: Stream| (#[trigger] rule.hit(e, s)) matches Some((key, f)) ==> key == seq![s.name@, f.code]
        && f.location == (LocationView::Stream { episode: e.index, stream: s.name@ }) by {
        law_unplaced_sensors_are_a_defect(rule, e, s);
    }
    assert forall|a: Episode, s: Stream, b: Episode, t: Stream|
        (#[trigger] rule.hit(a, s) is Some && #[trigger] rule.hit(b, t) is Some && (rule.hit(a, s)->0).0 == (rule.hit(b, t)->0).0)
            implies q((rule.hit(a, s)->0).1) == q((rule.hit(b, t)->0).1) by {
        let (k, f) = rule.hit(a, s)->0;
        let (m, g) = rule.hit(b, t)->0;
        assert(k[0] == s.name@ && k[1] == f.code);
        assert(m[0] == t.name@ && m[1] == g.code);
    }
    found::lemma_keyed(rule, eps, q);
    let report = check.report(dataset);
    if exists|f: FindingView| #[trigger] report.contains(f) && is_of(f, code, name) {
        let f = choose|f: FindingView| #[trigger] report.contains(f) && is_of(f, code, name);
        assert(report.contains(f) && q(f));
        let (i, j) = choose|i: int, j: int|
            0 <= i < eps.len() && 0 <= j < eps[i].streams@.len() && (rule.hit(eps[i], #[trigger] eps[i].streams@[j]) matches Some(
                h,
            ) && q(h.1));
        assert(is_of((rule.hit(eps[i], eps[i].streams@[j])->0).1, code, name));
    }
    if exists|i: int, j: int|
        0 <= i < eps.len() && 0 <= j < eps[i].streams@.len() && (rule.hit(eps[i], #[trigger] eps[i].streams@[j]) matches Some(h)
            && is_of(h.1, code, name)) {
        let (i, j) = choose|i: int, j: int|
            0 <= i < eps.len() && 0 <= j < eps[i].streams@.len() && (rule.hit(eps[i], #[trigger] eps[i].streams@[j]) matches Some(
                h,
            ) && is_of(h.1, code, name));
        assert(q((rule.hit(eps[i], eps[i].streams@[j])->0).1));
        let f = choose|f: FindingView| #[trigger] report.contains(f) && q(f);
        assert(is_of(f, code, name));
    }
}

/// Without transforms no sensor is reported, and where frames were not read nothing is said of the
/// calibration.
pub proof fn law_what_is_not_there_is_not_judged(
    check: SensorFrameResolution,
    complete: CalibrationCompleteness,
    dataset: &Dataset,
    attested: Seq<Seq<char>>,
)
    ensures
        (dataset.calibration matches Some(c) ==> c.transforms@.len() == 0) ==> check.report(dataset).len() == 0,
        complete.report_in(dataset, false, attested).len() == 0,
        complete.report_in(dataset, true, attested) == complete.report(dataset),
{
}

/// The frames that cameras say are the ones of the streams that are video.
pub proof fn law_camera_frames_are_those_of_video(s: Seq<Stream>, frame: Seq<char>)
    ensures
        calibration::declared_camera_frames(s).contains(frame) <==> exists|j: int|
            0 <= j < s.len() && (#[trigger] s[j]).modality is Video && (s[j].frame_id matches Some(f) && f@ == frame),
    decreases s.len(),
{
    if s.len() > 0 {
        let rest = s.drop_last();
        let n = s.len() - 1;
        law_camera_frames_are_those_of_video(rest, frame);
        assert(s[n] == s.last());
        assert forall|j: int| 0 <= j < n implies #[trigger] s[j] == rest[j] by {}
        if let Some(f) = s.last().frame_id {
            found::lemma_one_more(calibration::declared_camera_frames(rest), f@, frame);
        }
        if calibration::declared_camera_frames(rest).contains(frame) {
            let j = choose|j: int|
                0 <= j < rest.len() && (#[trigger] rest[j]).modality is Video && (rest[j].frame_id matches Some(f) && f@ == frame);
            assert(s[j] == rest[j]);
        }
    }
}

} // verus!
