//! Rig calibration: whether the transform tree and the intrinsics can place every sensor.

use vstd::prelude::*;
use vstd::string::*;

use crate::cat::{cat3, cat4, cat5, cat6, cat7, cat9};
use crate::cdm::{Calibration, CameraIntrinsics, Dataset, Episode, Modality, Pose, Stream, Transform};
use crate::check;
use crate::check::{none, one, Category, Check, CheckContext, CheckInfo, CheckMeta, Finding, FindingView, Location, LocationView, Scope, Severity};
use crate::checks::autonomy;
use crate::checks::autonomy::is_rig_episode;
use crate::checks::cycles;
use crate::checks::frames;
use crate::checks::frames::{find, graph, label, locate, tf_component_count, Graph};
use crate::checks::lists::first_texts;
use crate::checks::walk;
use crate::checks::walk::{walk_episodes, walk_first_hits, EpisodeRule, KeyedRule};
use crate::decimal;
use crate::double;
use crate::number;
use crate::seqs;
use crate::seqs::put_text;
use crate::sort;
use crate::sort::{distinct_words, sort, Ranked, Word};
use crate::text;
use crate::text::{holds, join, same, dec_u64, dec_usize};

verus! {

broadcast use text::lemma_texts_push;

// ---- completeness ----------------------------------------------------------------------------

/// **Rig calibration completeness.** Spatial fusion needs the extrinsic transform (TF) tree relating
/// the sensors and camera intrinsics to project into the image. On a rig with spatial sensors this
/// flags: no transform tree at all; a tree split into disconnected components; cameras without
/// intrinsics; calibration that is present and arithmetically impossible; and a tree that is
/// connected and still not a tree, because a frame has two parents at once or the transforms close
/// into a loop.
///
/// Abstains entirely under a metadata-only ingest: both the tree and the intrinsics are decoded from
/// message bodies, which such a run does not open.
#[derive(Debug, Clone, Copy)]
pub struct CalibrationCompleteness;

/// The id of [`CalibrationCompleteness`].
pub const CALIBRATION_ID: &'static str = "autonomy.calibration-completeness";

/// The code of calibration that is missing.
pub const INCOMPLETE_CODE: &'static str = "AUTONOMY.CALIBRATION_INCOMPLETE";

/// The code of calibration that cannot be used.
pub const IMPLAUSIBLE_CODE: &'static str = "AUTONOMY.CALIBRATION_IMPLAUSIBLE";

/// The code of calibration that has more than one answer.
pub const AMBIGUOUS_CODE: &'static str = "AUTONOMY.CALIBRATION_AMBIGUOUS";

/// How many frames a message names.
pub const MAX_NAMED: usize = 8;

/// The double 0.000001: a rotation quaternion shorter than this is no rotation.
pub const MIN_ROTATION: i128 = double::MILLIONTH;

pub const INCOMPLETE_RISK: &'static str = "Without the extrinsic transform tree and camera \
     intrinsics, sensor observations cannot be projected into a common frame: LiDAR-camera fusion \
     and any world model built on it are geometrically undefined.";

pub const INCOMPLETE_REMEDY: &'static str = "Record the full static TF tree relating every sensor \
     frame, and a CameraInfo (intrinsics) for each camera, in the log.";

/// The finding for calibration that is missing.
pub open spec fn incomplete_finding(episode: u64, reason: Seq<char>) -> FindingView {
    check::finding(
        CALIBRATION_ID@,
        Category::Autonomy,
        Severity::Warning,
        LocationView::Episode { episode },
        INCOMPLETE_CODE@,
        "episode "@ + text::dec(episode as nat) + ": "@ + reason,
        INCOMPLETE_RISK@,
        INCOMPLETE_REMEDY@,
    )
}

/// The finding for calibration that is missing.
fn make_incomplete(episode: u64, reason: &str) -> (r: Finding)
    ensures
        r@ == incomplete_finding(episode, reason@),
{
    let message: String = cat4("episode ", dec_u64(episode).as_str(), ": ", reason);
    Finding::new(CALIBRATION_ID, Category::Autonomy, Severity::Warning, Location::Episode { episode }, INCOMPLETE_CODE, message).with_risk(
        INCOMPLETE_RISK,
    ).with_remedy(INCOMPLETE_REMEDY)
}

pub const IMPLAUSIBLE_RISK: &'static str = "Calibration that is present but arithmetically \
     impossible is worse than calibration that is absent: every presence check passes, so the rig \
     certifies as fusable while every projection built on it is undefined. It is what an \
     uncalibrated driver publishes by default.";

pub const IMPLAUSIBLE_REMEDY: &'static str = "Calibrate the camera and re-record, or re-publish the \
     `CameraInfo` and static transforms from the calibration file the rig actually uses.";

/// The finding for calibration that cannot be used.
pub open spec fn implausible_finding(episode: u64, reason: Seq<char>) -> FindingView {
    check::finding(
        CALIBRATION_ID@,
        Category::Autonomy,
        Severity::Error,
        LocationView::Episode { episode },
        IMPLAUSIBLE_CODE@,
        "episode "@ + text::dec(episode as nat) + ": "@ + reason,
        IMPLAUSIBLE_RISK@,
        IMPLAUSIBLE_REMEDY@,
    )
}

/// The finding for calibration that cannot be used.
fn make_implausible(episode: u64, reason: &str) -> (r: Finding)
    ensures
        r@ == implausible_finding(episode, reason@),
{
    let message: String = cat4("episode ", dec_u64(episode).as_str(), ": ", reason);
    Finding::new(CALIBRATION_ID, Category::Autonomy, Severity::Error, Location::Episode { episode }, IMPLAUSIBLE_CODE, message).with_risk(
        IMPLAUSIBLE_RISK,
    ).with_remedy(IMPLAUSIBLE_REMEDY)
}

pub const AMBIGUOUS_RISK: &'static str = "Every consumer resolves the sensor's pose through \
     whichever chain it happens to walk, so two tools fusing the same log place the same sensor \
     differently and neither is flagged. The tree is connected and every edge is individually \
     valid, which is why the completeness and per-sensor frame checks pass on it.";

pub const AMBIGUOUS_REMEDY: &'static str = "Publish exactly one parent per frame: remove the \
     duplicate broadcaster, or re-parent the sensor under the mount it is actually measured \
     against. For a cycle, drop the edge that closes the loop so the tree has a single root.";

/// The finding for calibration that has more than one answer.
pub open spec fn ambiguous_finding(episode: u64, reason: Seq<char>) -> FindingView {
    check::finding(
        CALIBRATION_ID@,
        Category::Autonomy,
        Severity::Error,
        LocationView::Episode { episode },
        AMBIGUOUS_CODE@,
        "episode "@ + text::dec(episode as nat) + ": "@ + reason,
        AMBIGUOUS_RISK@,
        AMBIGUOUS_REMEDY@,
    )
}

/// The finding for calibration that has more than one answer.
fn make_ambiguous(episode: u64, reason: &str) -> (r: Finding)
    ensures
        r@ == ambiguous_finding(episode, reason@),
{
    let message: String = cat4("episode ", dec_u64(episode).as_str(), ": ", reason);
    Finding::new(CALIBRATION_ID, Category::Autonomy, Severity::Error, Location::Episode { episode }, AMBIGUOUS_CODE, message).with_risk(
        AMBIGUOUS_RISK,
    ).with_remedy(AMBIGUOUS_REMEDY)
}

/// The transforms of a calibration.
pub open spec fn transforms_of(calibration: Option<Calibration>) -> Seq<Transform> {
    match calibration {
        Some(c) => c.transforms@,
        None => Seq::empty(),
    }
}

/// How many sets of intrinsics a calibration holds.
pub open spec fn intrinsics_count(calibration: Option<Calibration>) -> nat {
    match calibration {
        Some(c) => c.intrinsics@.len(),
        None => 0,
    }
}

/// Whether an episode has a stream of a kind.
pub open spec fn carries(streams: Seq<Stream>, m: Modality) -> bool {
    exists|i: int| 0 <= i < streams.len() && (#[trigger] streams[i]).modality == m
}

/// Whether an episode has a stream of a kind.
fn has_modality(ep: &Episode, m: Modality) -> (r: bool)
    ensures
        r == carries(ep.streams@, m),
{
    let mut i: usize = 0;
    while i < ep.streams.len()
        invariant
            i <= ep.streams@.len(),
            forall|k: int| 0 <= k < i ==> (#[trigger] ep.streams@[k]).modality != m,
        decreases ep.streams@.len() - i,
    {
        if ep.streams[i].modality == m {
            return true;
        }
        i = i + 1;
    }
    false
}

/// The coordinate frame that a stream declares.
pub open spec fn frame_of(stream: Stream) -> Option<Seq<char>> {
    match stream.frame_id {
        Some(f) => Some(f@),
        None => None,
    }
}

/// Whether a stream is of a camera whose frame is among some.
pub open spec fn is_anchor(stream: Stream, known: Seq<Seq<char>>) -> bool {
    stream.modality is Video && frame_of(stream) is Some && known.contains(frame_of(stream)->0)
}

/// Whether the per-sensor check can name the sensors behind a break in the tree: a camera anchors
/// the question, and every spatial sensor declares a frame. Only then may the episode-level report
/// stay silent about a disconnected tree.
pub open spec fn is_localizable(streams: Seq<Stream>, known: Seq<Seq<char>>) -> bool {
    &&& exists|i: int| 0 <= i < streams.len() && is_anchor(#[trigger] streams[i], known)
    &&& forall|i: int|
        0 <= i < streams.len() && (#[trigger] streams[i]).modality.spec_is_spatial() ==> frame_of(streams[i]) is Some
}

/// Whether observations of a kind are placed in space by a mount pose. A bus signal is a scalar,
/// and an ego-pose stream's frame is joined to the body dynamically.
fn is_spatial_sensor(m: Modality) -> (r: bool)
    ensures
        r == m.spec_is_spatial(),
{
    match m {
        Modality::PointCloud => true,
        Modality::Video => true,
        Modality::Imu => true,
        Modality::Gnss => true,
        _ => false,
    }
}

/// Whether the per-sensor check can name the sensors behind a break in the tree.
fn break_is_localizable(ep: &Episode, frames: &Vec<String>) -> (r: bool)
    ensures
        r == is_localizable(ep.streams@, text::texts(frames@)),
{
    let ghost s = ep.streams@;
    let ghost known = text::texts(frames@);
    let mut anchored: bool = false;
    let mut i: usize = 0;
    while i < ep.streams.len()
        invariant
            i <= s.len(),
            s == ep.streams@,
            known == text::texts(frames@),
            anchored <==> exists|k: int| 0 <= k < i && is_anchor(#[trigger] s[k], known),
            forall|k: int| 0 <= k < i && (#[trigger] s[k]).modality.spec_is_spatial() ==> frame_of(s[k]) is Some,
        decreases s.len() - i,
    {
        let stream: &Stream = &ep.streams[i];
        match &stream.frame_id {
            Some(f) => {
                if stream.modality == Modality::Video && holds(frames, f.as_str()) {
                    assert(is_anchor(s[i as int], known));
                    anchored = true;
                }
            },
            None => {
                if is_spatial_sensor(stream.modality) {
                    assert(frame_of(s[i as int]) is None);
                    return false;
                }
            },
        }
        i = i + 1;
    }
    anchored
}

/// The frames that an episode's cameras declare; none where a camera declares none.
pub open spec fn camera_frames(streams: Seq<Stream>) -> Option<Seq<Seq<char>>>
    decreases streams.len(),
{
    if streams.len() == 0 {
        Some(Seq::empty())
    } else {
        match (camera_frames(streams.drop_last()), frame_of(streams.last())) {
            (None, _) => None,
            (Some(rest), f) => if streams.last().modality is Video {
                match f {
                    Some(name) => Some(rest.push(name)),
                    None => None,
                }
            } else {
                Some(rest)
            },
        }
    }
}

/// How many distinct physical cameras an episode carries; none where that cannot be counted. A
/// camera is a device, not a topic: the coordinate frame identifies it.
pub open spec fn cameras(streams: Seq<Stream>) -> Option<nat> {
    match camera_frames(streams) {
        Some(frames) => Some(seqs::text_set(frames).len()),
        None => None,
    }
}

/// How many distinct physical cameras an episode carries.
fn distinct_cameras(ep: &Episode) -> (r: Option<usize>)
    ensures
        match r {
            Some(n) => cameras(ep.streams@) == Some(n as nat),
            None => cameras(ep.streams@) is None,
        },
{
    let ghost s = ep.streams@;
    let mut frames: Vec<String> = Vec::new();
    let mut i: usize = 0;
    assert(text::texts(frames@) =~= Seq::empty());
    while i < ep.streams.len()
        invariant
            i <= s.len(),
            s == ep.streams@,
            camera_frames(s.take(i as int)) is Some,
            text::texts(frames@) == seqs::text_set(camera_frames(s.take(i as int))->0),
        decreases s.len() - i,
    {
        assert(s.take(i + 1).drop_last() =~= s.take(i as int));
        let stream: &Stream = &ep.streams[i];
        if stream.modality == Modality::Video {
            match &stream.frame_id {
                Some(f) => {
                    proof {
                        seqs::lemma_distinct_step(camera_frames(s.take(i as int))->0, seqs::text_order(), f@);
                    }
                    let _new: bool = put_text(&mut frames, f.as_str());
                },
                None => {
                    proof {
                        lemma_uncountable(s, i as int);
                    }
                    return None;
                },
            }
        }
        i = i + 1;
    }
    assert(s.take(i as int) =~= s);
    assert(text::texts(frames@).len() == frames@.len());
    Some(frames.len())
}

/// One camera without a frame makes the cameras uncountable.
proof fn lemma_uncountable(s: Seq<Stream>, i: int)
    requires
        0 <= i < s.len(),
        s[i].modality is Video,
        frame_of(s[i]) is None,
    ensures
        camera_frames(s) is None,
    decreases s.len(),
{
    if i < s.len() - 1 {
        lemma_uncountable(s.drop_last(), i);
    }
}

// ---- calibration that cannot be used ---------------------------------------------------------

/// Whether a double is finite and not negative.
pub open spec fn is_pixel(bits: u64) -> bool {
    number::is_finite(bits) && !number::less(bits, 0)
}

/// Whether some double is not finite.
pub open spec fn has_non_finite(s: Seq<u64>) -> bool {
    exists|i: int| 0 <= i < s.len() && !number::is_finite(#[trigger] s[i])
}

/// Whether some double is not finite.
fn any_non_finite(s: &[u64]) -> (r: bool)
    ensures
        r == has_non_finite(s@),
{
    let mut i: usize = 0;
    while i < s.len()
        invariant
            i <= s@.len(),
            forall|k: int| 0 <= k < i ==> number::is_finite(#[trigger] s@[k]),
        decreases s@.len() - i,
    {
        if !number::finite(s[i]) {
            assert(!number::is_finite(s@[i as int]));
            return true;
        }
        i = i + 1;
    }
    false
}

/// Why a camera's intrinsics cannot be used. Only impossibilities: a focal length must be positive
/// and finite, a principal point finite and not negative, a distortion coefficient finite.
pub open spec fn intrinsics_reason(k: CameraIntrinsics) -> Option<Seq<char>> {
    if !number::is_positive_finite(k.fx) || !number::is_positive_finite(k.fy) {
        Some(
            "camera `"@ + k.stream@ + "` declares a focal length of ("@ + decimal::plain_text(k.fx) + ", "@ + decimal::plain_text(k.fy)
                + ") — a projection divides by it, so it must be positive and finite"@,
        )
    } else if !is_pixel(k.cx) || !is_pixel(k.cy) {
        Some(
            "camera `"@ + k.stream@ + "` declares a principal point of ("@ + decimal::plain_text(k.cx) + ", "@ + decimal::plain_text(k.cy)
                + ") — it is a pixel coordinate, so it must be finite and non-negative"@,
        )
    } else if has_non_finite(k.distortion@) {
        Some(
            "camera `"@ + k.stream@
                + "` declares a non-finite distortion coefficient, so undistortion has no result"@,
        )
    } else {
        None
    }
}

/// The norm of a pose's rotation quaternion: the square root of the sum of its squares. Nothing where
/// a component is not finite, or the norm is too large for a double.
pub open spec fn rotation_norm(pose: Pose) -> Option<int> {
    let q = pose.rotation@;
    let (a, b) = (number::rank(q[0]), number::rank(q[1]));
    let (c, d) = (number::rank(q[2]), number::rank(q[3]));
    let squares = double::plus(
        double::plus(double::plus(double::times(a, a), double::times(b, b)), double::times(c, c)),
        double::times(d, d),
    );
    if !has_non_finite(q) && double::is_finite(double::square_root(squares)) {
        Some(double::square_root(squares))
    } else {
        None
    }
}

/// Why a transform cannot be used.
pub open spec fn transform_reason(t: Transform) -> Option<Seq<char>> {
    if has_non_finite(t.pose.translation@) || rotation_norm(t.pose) is None {
        Some(
            "the transform `"@ + t.parent_frame@ + "` → `"@ + t.child_frame@
                + "` holds a non-finite value, so it places nothing"@,
        )
    } else if rotation_norm(t.pose)->0 < MIN_ROTATION {
        Some(
            "the transform `"@ + t.parent_frame@ + "` → `"@ + t.child_frame@
                + "` carries a zero rotation quaternion, which is not a rotation — the uninitialized value, not a measured pose"@,
        )
    } else {
        None
    }
}

/// Why intrinsics cannot be used, in order.
pub open spec fn intrinsics_reasons(s: Seq<CameraIntrinsics>) -> Seq<Seq<char>>
    decreases s.len(),
{
    if s.len() == 0 {
        Seq::empty()
    } else {
        match intrinsics_reason(s.last()) {
            Some(reason) => intrinsics_reasons(s.drop_last()).push(reason),
            None => intrinsics_reasons(s.drop_last()),
        }
    }
}

/// Why transforms cannot be used, in order.
pub open spec fn transform_reasons(s: Seq<Transform>) -> Seq<Seq<char>>
    decreases s.len(),
{
    if s.len() == 0 {
        Seq::empty()
    } else {
        match transform_reason(s.last()) {
            Some(reason) => transform_reasons(s.drop_last()).push(reason),
            None => transform_reasons(s.drop_last()),
        }
    }
}

/// Every way a calibration is present and cannot be used.
pub open spec fn unusable_reasons(calibration: Option<Calibration>) -> Seq<Seq<char>> {
    match calibration {
        Some(c) => intrinsics_reasons(c.intrinsics@) + transform_reasons(c.transforms@),
        None => Seq::empty(),
    }
}

/// Why a camera's intrinsics cannot be used.
fn judge_intrinsics(k: &CameraIntrinsics) -> (r: Option<String>)
    ensures
        match r {
            Some(reason) => intrinsics_reason(*k) == Some(reason@),
            None => intrinsics_reason(*k) is None,
        },
{
    if !number::positive_finite(k.fx) || !number::positive_finite(k.fy) {
        Some(
            cat7(
                "camera `",
                k.stream.as_str(),
                "` declares a focal length of (",
                decimal::plain(k.fx).as_str(),
                ", ",
                decimal::plain(k.fy).as_str(),
                ") — a projection divides by it, so it must be positive and finite",
            ),
        )
    } else if !(number::finite(k.cx) && !number::lt(k.cx, 0)) || !(number::finite(k.cy) && !number::lt(
        k.cy,
        0,
    )) {
        Some(
            cat7(
                "camera `",
                k.stream.as_str(),
                "` declares a principal point of (",
                decimal::plain(k.cx).as_str(),
                ", ",
                decimal::plain(k.cy).as_str(),
                ") — it is a pixel coordinate, so it must be finite and non-negative",
            ),
        )
    } else if any_non_finite(k.distortion.as_slice()) {
        Some(
            cat3(
                "camera `",
                k.stream.as_str(),
                "` declares a non-finite distortion coefficient, so undistortion has no result",
            ),
        )
    } else {
        None
    }
}

/// The norm of a pose's rotation quaternion.
fn measure_rotation(pose: &Pose) -> (r: Option<i128>)
    ensures
        match r {
            Some(x) => rotation_norm(*pose) == Some(x as int),
            None => rotation_norm(*pose) is None,
        },
{
    if any_non_finite(pose.rotation.as_slice()) {
        return None;
    }
    proof {
        assert forall|k: int| 0 <= k < 4 implies number::is_finite(#[trigger] pose.rotation@[k]) by {}
    }
    let (a, b): (i128, i128) = (double::rank(pose.rotation[0]), double::rank(pose.rotation[1]));
    let (c, d): (i128, i128) = (double::rank(pose.rotation[2]), double::rank(pose.rotation[3]));
    let squares: i128 = double::sum(
        double::sum(double::sum(double::product(a, a), double::product(b, b)), double::product(c, c)),
        double::product(d, d),
    );
    let norm: i128 = double::find_square_root(squares);
    if norm < double::TOP {
        Some(norm)
    } else {
        None
    }
}

/// Why a transform cannot be used.
fn judge_transform(t: &Transform) -> (r: Option<String>)
    ensures
        match r {
            Some(reason) => transform_reason(*t) == Some(reason@),
            None => transform_reason(*t) is None,
        },
{
    let (measured, short): (bool, bool) = match measure_rotation(&t.pose) {
        Some(norm) => (true, norm < MIN_ROTATION),
        None => (false, false),
    };
    if any_non_finite(t.pose.translation.as_slice()) || !measured {
        Some(
            cat5(
                "the transform `",
                t.parent_frame.as_str(),
                "` → `",
                t.child_frame.as_str(),
                "` holds a non-finite value, so it places nothing",
            ),
        )
    } else if short {
        Some(
            cat5(
                "the transform `",
                t.parent_frame.as_str(),
                "` → `",
                t.child_frame.as_str(),
                "` carries a zero rotation quaternion, which is not a rotation — the uninitialized value, not a measured pose",
            ),
        )
    } else {
        None
    }
}

/// Every way a calibration is present and cannot be used, as sentences naming the element.
fn unusable_calibration(calibration: &Option<Calibration>) -> (r: Vec<String>)
    ensures
        text::texts(r@) == unusable_reasons(*calibration),
{
    let mut out: Vec<String> = Vec::new();
    assert(text::texts(out@) =~= Seq::empty());
    if let Some(c) = calibration {
        let ghost ks = c.intrinsics@;
        let ghost ts = c.transforms@;
        let mut i: usize = 0;
        while i < c.intrinsics.len()
            invariant
                i <= ks.len(),
                ks == c.intrinsics@,
                text::texts(out@) == intrinsics_reasons(ks.take(i as int)),
            decreases ks.len() - i,
        {
            assert(ks.take(i + 1).drop_last() =~= ks.take(i as int));
            if let Some(reason) = judge_intrinsics(&c.intrinsics[i]) {
                out.push(reason);
            }
            i = i + 1;
        }
        assert(ks.take(i as int) =~= ks);
        let mut j: usize = 0;
        assert(intrinsics_reasons(ks) + transform_reasons(ts.take(0)) =~= intrinsics_reasons(ks));
        while j < c.transforms.len()
            invariant
                j <= ts.len(),
                ts == c.transforms@,
                text::texts(out@) == intrinsics_reasons(ks) + transform_reasons(ts.take(j as int)),
            decreases ts.len() - j,
        {
            assert(ts.take(j + 1).drop_last() =~= ts.take(j as int));
            if let Some(reason) = judge_transform(&c.transforms[j]) {
                let ghost v = reason@;
                out.push(reason);
                assert(intrinsics_reasons(ks) + transform_reasons(ts.take(j as int)).push(v) =~= (
                intrinsics_reasons(ks) + transform_reasons(ts.take(j as int))).push(v));
            }
            j = j + 1;
        }
        assert(ts.take(j as int) =~= ts);
    }
    out
}

// ---- calibration that has more than one answer -----------------------------------------------

/// The child frames that transforms name, as they come.
pub open spec fn child_names(s: Seq<Transform>) -> Seq<Seq<char>> {
    s.map_values(|t: Transform| t.child_frame@)
}

/// The parents that claim a child, as they come.
pub open spec fn parent_names(s: Seq<Transform>, child: Seq<char>) -> Seq<Seq<char>>
    decreases s.len(),
{
    if s.len() == 0 {
        Seq::empty()
    } else if s.last().child_frame@ == child {
        parent_names(s.drop_last(), child).push(s.last().parent_frame@)
    } else {
        parent_names(s.drop_last(), child)
    }
}

/// Whether two transforms both hold at some moment.
pub open spec fn overlap(a: Transform, b: Transform) -> bool {
    &&& frames::start_of(a) <= frames::end_of(a)
    &&& frames::start_of(b) <= frames::end_of(b)
    &&& frames::start_of(a) <= frames::end_of(b)
    &&& frames::start_of(b) <= frames::end_of(a)
}

/// Whether two transforms give a child different parents at the same moment.
pub open spec fn conflict(a: Transform, b: Transform, child: Seq<char>) -> bool {
    a.child_frame@ == child && b.child_frame@ == child && a.parent_frame@ != b.parent_frame@ && overlap(a, b)
}

/// Whether a child is given different parents at the same moment.
pub open spec fn is_contested(s: Seq<Transform>, child: Seq<char>) -> bool {
    exists|i: int, j: int| 0 <= i < s.len() && 0 <= j < s.len() && conflict(#[trigger] s[i], #[trigger] s[j], child)
}

/// The first names of a list, and how many more there are.
pub open spec fn named(names: Seq<Seq<char>>) -> Seq<char> {
    if names.len() > MAX_NAMED {
        text::joined(names.take(MAX_NAMED as int), ", "@) + ", and "@ + text::dec((names.len() - MAX_NAMED) as nat)
            + " more"@
    } else {
        text::joined(names, ", "@)
    }
}

/// The sentence on a frame with several parents.
pub open spec fn parents_reason(s: Seq<Transform>, child: Seq<char>) -> Seq<char> {
    let parents = seqs::text_set(parent_names(s, child));
    "frame `"@ + child + "` is given "@ + text::dec(parents.len()) + " different parents at the same time ("@
        + named(parents) + ") — its place on the rig depends on which chain a consumer happens to resolve"@
}

/// The sentences on the frames, among some, with several parents at the same moment.
pub open spec fn parents_reasons(s: Seq<Transform>, children: Seq<Seq<char>>) -> Seq<Seq<char>>
    decreases children.len(),
{
    if children.len() == 0 {
        Seq::empty()
    } else if is_contested(s, children.last()) {
        parents_reasons(s, children.drop_last()).push(parents_reason(s, children.last()))
    } else {
        parents_reasons(s, children.drop_last())
    }
}

/// A cycle as a message names it.
pub open spec fn cycle_text(names: Seq<Seq<char>>) -> Seq<char> {
    if names.len() > MAX_NAMED {
        text::joined(names.take(MAX_NAMED - 1), " → "@) + " → … → "@ + names.last() + " ("@ + text::dec(
            (names.len() - 1) as nat,
        ) + " frames in the loop)"@
    } else {
        text::joined(names, " → "@)
    }
}

/// The sentence on a cycle.
pub open spec fn cycle_reason(names: Seq<Seq<char>>) -> Seq<char> {
    "the transform tree contains a cycle ("@ + cycle_text(names)
        + ") — it has no root frame, so there is nothing the rig is expressed in"@
}

/// Every way transforms are connected and still no tree: a frame with two parents at once, and a
/// cycle all of whose edges hold at one moment.
pub open spec fn ambiguous_reasons(s: Seq<Transform>) -> Seq<Seq<char>> {
    parents_reasons(s, seqs::text_set(child_names(s))) + (match cycles::cycle(s) {
        Some(names) => seq![cycle_reason(names)],
        None => Seq::empty(),
    })
}

/// From when a transform holds.
fn start_ts(t: &Transform) -> (r: i64)
    ensures
        r as int == frames::start_of(*t),
{
    match t.valid_from {
        Some(ts) => ts,
        None => -0x8000_0000_0000_0000,
    }
}

/// Until when a transform holds.
fn end_ts(t: &Transform) -> (r: i64)
    ensures
        r as int == frames::end_of(*t),
{
    match t.valid_to {
        Some(ts) => ts,
        None => 0x7fff_ffff_ffff_ffff,
    }
}

/// A transform that gives a child a parent, from some moment on.
#[derive(Clone, Copy)]
pub struct Claim {
    /// From when it holds.
    pub start: i64,
    /// Its place among the transforms.
    pub at: usize,
}

impl Ranked for Claim {
    open spec fn key(&self) -> (Seq<u8>, int) {
        (Seq::empty(), self.start as int * 0x1_0000_0000_0000_0000 + self.at as int)
    }

    fn below(&self, other: &Claim) -> (r: bool) {
        proof {
            text::lemma_bytes_trichotomy(Seq::empty(), Seq::empty());
        }
        self.start < other.start || (self.start == other.start && self.at < other.at)
    }
}

/// Whether a transform claims a child at some moment.
spec fn claims(t: Transform, child: Seq<char>) -> bool {
    t.child_frame@ == child && frames::start_of(t) <= frames::end_of(t)
}

/// Whether these are the claims on a child, in the order of their starts.
spec fn are_claims(list: Seq<Claim>, s: Seq<Transform>, child: Seq<char>) -> bool {
    &&& forall|i: int|
        0 <= i < list.len() ==> (#[trigger] list[i]).at < s.len() && list[i].start == frames::start_of(s[list[i].at as int])
            && claims(s[list[i].at as int], child)
    &&& forall|i: int, j: int| 0 <= i < j < list.len() ==> (#[trigger] list[i]).start <= (#[trigger] list[j]).start
    &&& forall|a: int|
        0 <= a < s.len() && claims(#[trigger] s[a], child) ==> exists|i: int|
            0 <= i < list.len() && (#[trigger] list[i]).at == a
}

/// The claims on a child, in the order of their starts.
fn list_claims(s: &Vec<Transform>, child: &str, places: &Vec<usize>) -> (r: Vec<Claim>)
    requires
        are_places(places@, s@, child@),
    ensures
        are_claims(r@, s@, child@),
{
    let mut found: Vec<Claim> = Vec::new();
    let mut i: usize = 0;
    while i < places.len()
        invariant
            i <= places@.len(),
            are_places(places@, s@, child@),
            forall|k: int|
                0 <= k < found@.len() ==> (#[trigger] found@[k]).at < s@.len() && found@[k].start == frames::start_of(
                    s@[found@[k].at as int],
                ) && claims(s@[found@[k].at as int], child@),
            forall|k: int|
                0 <= k < i && claims(s@[#[trigger] places@[k] as int], child@) ==> exists|j: int|
                    0 <= j < found@.len() && (#[trigger] found@[j]).at == places@[k],
        decreases places@.len() - i,
    {
        let at: usize = places[i];
        assert(s@[at as int].child_frame@ == child@);
        let (start, end): (i64, i64) = (start_ts(&s[at]), end_ts(&s[at]));
        let ghost was = found@;
        if start <= end {
            found.push(Claim { start, at });
        }
        proof {
            assert forall|k: int| 0 <= k < i + 1 && claims(s@[#[trigger] places@[k] as int], child@) implies exists|j: int|
                0 <= j < found@.len() && (#[trigger] found@[j]).at == places@[k] by {
                if k < i {
                    let j = choose|j: int| 0 <= j < was.len() && (#[trigger] was[j]).at == places@[k];
                    assert(found@[j].at == places@[k]);
                } else {
                    assert(found@[was.len() as int].at == places@[k]);
                }
            }
        }
        i = i + 1;
    }
    let sorted: Vec<Claim> = sort(&found);
    proof {
        broadcast use vstd::seq_lib::group_to_multiset_ensures;

        let (k, f) = (sort::keys(sorted@), sort::keys(found@));
        sort::lemma_key_order();
        seqs::lemma_sorted_in_order(f, sort::key_order());
        seqs::lemma_sorted_multiset(f, sort::key_order());
        text::lemma_bytes_trichotomy(Seq::empty(), Seq::empty());
        assert forall|i: int| 0 <= i < sorted@.len() implies (#[trigger] sorted@[i]).at < s@.len() && sorted@[i].start
            == frames::start_of(s@[sorted@[i].at as int]) && claims(s@[sorted@[i].at as int], child@) by {
            assert(k[i] == sorted@[i].key());
            assert(k.contains(k[i]));
            assert(k.to_multiset().contains(k[i]));
            assert(f.contains(k[i]));
            let j = choose|j: int| 0 <= j < f.len() && f[j] == k[i];
            assert(f[j] == found@[j].key());
            assert(sorted@[i] == found@[j]);
        }
        assert forall|i: int, j: int| 0 <= i < j < sorted@.len() implies (#[trigger] sorted@[i]).start <= (
        #[trigger] sorted@[j]).start by {
            assert(k[i] == sorted@[i].key());
            assert(k[j] == sorted@[j].key());
            assert(!sort::key_order()(k[j], k[i]));
        }
        assert forall|a: int| 0 <= a < s@.len() && claims(#[trigger] s@[a], child@) implies exists|i: int|
            0 <= i < sorted@.len() && (#[trigger] sorted@[i]).at == a by {
            let p = choose|p: int| 0 <= p < places@.len() && #[trigger] places@[p] == a;
            let j = choose|j: int| 0 <= j < found@.len() && (#[trigger] found@[j]).at == places@[p];
            assert(f[j] == found@[j].key());
            assert(f.contains(f[j]));
            assert(f.to_multiset().contains(f[j]));
            assert(k.contains(f[j]));
            let i = choose|i: int| 0 <= i < k.len() && k[i] == f[j];
            assert(k[i] == sorted@[i].key());
            assert(sorted@[i] == found@[j]);
        }
    }
    sorted
}

/// Whether these are the places of the transforms that lead to a child.
spec fn are_places(places: Seq<usize>, s: Seq<Transform>, child: Seq<char>) -> bool {
    &&& forall|i: int|
        0 <= i < places.len() ==> #[trigger] places[i] < s.len() && s[places[i] as int].child_frame@ == child
    &&& forall|a: int|
        0 <= a < s.len() && (#[trigger] s[a]).child_frame@ == child ==> exists|i: int|
            0 <= i < places.len() && #[trigger] places[i] == a
}

/// Whether a child is given different parents at the same moment: a sweep over the claims on it, with
/// the one that holds longest so far, and the one that holds longest among those of other parents.
fn contested(s: &Vec<Transform>, child: &str, places: &Vec<usize>) -> (r: bool)
    requires
        are_places(places@, s@, child@),
    ensures
        r == is_contested(s@, child@),
{
    let list: Vec<Claim> = list_claims(s, child, places);
    let ghost ts = Seq::new(list@.len(), |i: int| s@[list@[i].at as int]);
    if list.len() == 0 {
        proof {
            assert forall|a: int, b: int| 0 <= a < s@.len() && 0 <= b < s@.len() implies !conflict(
                #[trigger] s@[a],
                #[trigger] s@[b],
                child@,
            ) by {
                if conflict(s@[a], s@[b], child@) {
                    assert(claims(s@[a], child@));
                }
            }
        }
        return false;
    }
    let mut longest: usize = 0;
    let mut other: Option<usize> = None;
    let mut i: usize = 1;
    while i < list.len()
        invariant
            1 <= i <= list@.len(),
            are_claims(list@, s@, child@),
            ts == Seq::new(list@.len(), |i: int| s@[list@[i].at as int]),
            longest < i,
            forall|k: int| 0 <= k < i ==> frames::end_of(#[trigger] ts[k]) <= frames::end_of(ts[longest as int]),
            match other {
                Some(o) => o < i && ts[o as int].parent_frame@ != ts[longest as int].parent_frame@ && forall|k: int|
                    0 <= k < i && (#[trigger] ts[k]).parent_frame@ != ts[longest as int].parent_frame@ ==> frames::end_of(
                        ts[k],
                    ) <= frames::end_of(ts[o as int]),
                None => forall|k: int|
                    0 <= k < i ==> (#[trigger] ts[k]).parent_frame@ == ts[longest as int].parent_frame@,
            },
            forall|j: int, k: int| 0 <= j < k < i ==> !conflict(#[trigger] ts[j], #[trigger] ts[k], child@),
        decreases list@.len() - i,
    {
        let (now, top): (&Transform, &Transform) = (&s[list[i].at], &s[list[longest].at]);
        let start: i64 = list[i].start;
        let end: i64 = end_ts(now);
        let rival: bool = !same(now.parent_frame.as_str(), top.parent_frame.as_str());
        proof {
            assert(ts[i as int] == now);
            assert(ts[longest as int] == top);
            assert(list@[longest as int].start <= list@[i as int].start);
        }
        if rival && end_ts(top) >= start {
            assert(conflict(s@[list@[longest as int].at as int], s@[list@[i as int].at as int], child@));
            return true;
        }
        if !rival {
            if let Some(o) = other {
                assert(ts[o as int] == s@[list@[o as int].at as int]);
                assert(list@[o as int].start <= list@[i as int].start);
                if end_ts(&s[list[o].at]) >= start {
                    assert(conflict(s@[list@[o as int].at as int], s@[list@[i as int].at as int], child@));
                    return true;
                }
            }
        }
        proof {
            assert forall|j: int, k: int| 0 <= j < k < i + 1 implies !conflict(#[trigger] ts[j], #[trigger] ts[k], child@) by {
                if k == i && conflict(ts[j], ts[k], child@) {
                    assert(frames::start_of(ts[k]) == start);
                    assert(frames::end_of(ts[j]) <= frames::end_of(*top));
                }
            }
        }
        if end > end_ts(top) {
            if rival {
                other = Some(longest);
            }
            longest = i;
        } else if rival {
            let better: bool = match other {
                Some(o) => {
                    assert(ts[o as int] == s@[list@[o as int].at as int]);
                    end > end_ts(&s[list[o].at])
                },
                None => true,
            };
            if better {
                other = Some(i);
            }
        }
        i = i + 1;
    }
    proof {
        assert forall|a: int, b: int| 0 <= a < s@.len() && 0 <= b < s@.len() implies !conflict(
            #[trigger] s@[a],
            #[trigger] s@[b],
            child@,
        ) by {
            if conflict(s@[a], s@[b], child@) {
                assert(claims(s@[a], child@) && claims(s@[b], child@));
                let j = choose|j: int| 0 <= j < list@.len() && (#[trigger] list@[j]).at == a;
                let k = choose|k: int| 0 <= k < list@.len() && (#[trigger] list@[k]).at == b;
                assert(ts[j] == s@[a] && ts[k] == s@[b]);
                assert(j != k);
                if j < k {
                    assert(conflict(ts[j], ts[k], child@));
                } else {
                    assert(conflict(ts[k], ts[j], child@));
                }
            }
        }
    }
    false
}

/// A parent claims a child exactly where a transform says so.
proof fn lemma_parent_names(s: Seq<Transform>, child: Seq<char>, x: Seq<char>)
    ensures
        parent_names(s, child).contains(x) <==> exists|a: int|
            0 <= a < s.len() && (#[trigger] s[a]).child_frame@ == child && s[a].parent_frame@ == x,
    decreases s.len(),
{
    if s.len() > 0 {
        let rest = s.drop_last();
        lemma_parent_names(rest, child, x);
        let (p, q) = (parent_names(rest, child), parent_names(s, child));
        if q.contains(x) {
            let k = choose|k: int| 0 <= k < q.len() && q[k] == x;
            if k < p.len() {
                assert(p[k] == x);
                let a = choose|a: int|
                    0 <= a < rest.len() && (#[trigger] rest[a]).child_frame@ == child && rest[a].parent_frame@ == x;
                assert(s[a] == rest[a]);
            } else {
                assert(s[s.len() - 1].parent_frame@ == x);
            }
        }
        if exists|a: int| 0 <= a < s.len() && (#[trigger] s[a]).child_frame@ == child && s[a].parent_frame@ == x {
            let a = choose|a: int| 0 <= a < s.len() && (#[trigger] s[a]).child_frame@ == child && s[a].parent_frame@ == x;
            if a < rest.len() {
                assert(rest[a] == s[a]);
                let k = choose|k: int| 0 <= k < p.len() && p[k] == x;
                assert(q[k] == x);
            } else {
                assert(q[q.len() - 1] == x);
            }
        }
    }
}

/// The distinct parents that claim a child, in order.
fn parents_of(s: &Vec<Transform>, child: &str, places: &Vec<usize>) -> (r: Vec<String>)
    requires
        are_places(places@, s@, child@),
    ensures
        text::texts(r@) == seqs::text_set(parent_names(s@, child@)),
{
    let mut names: Vec<Word> = Vec::new();
    let mut i: usize = 0;
    while i < places.len()
        invariant
            i <= places@.len(),
            are_places(places@, s@, child@),
            names@.len() == i,
            forall|k: int| 0 <= k < i ==> (#[trigger] names@[k]).text@ == s@[places@[k] as int].parent_frame@,
        decreases places@.len() - i,
    {
        names.push(Word { text: s[places[i]].parent_frame.as_str() });
        i = i + 1;
    }
    let out: Vec<String> = distinct_words(&names);
    proof {
        let lt = seqs::text_order();
        let w = sort::words(names@);
        let all = parent_names(s@, child@);
        seqs::lemma_text_order();
        seqs::lemma_distinct_strictly(w, lt);
        seqs::lemma_distinct_strictly(all, lt);
        assert forall|x: Seq<char>| seqs::text_set(w).contains(x) <==> seqs::text_set(all).contains(x) by {
            seqs::lemma_distinct_contains(w, lt, x);
            seqs::lemma_distinct_contains(all, lt, x);
            lemma_parent_names(s@, child@, x);
            if w.contains(x) {
                let k = choose|k: int| 0 <= k < w.len() && w[k] == x;
                assert(names@[k].text@ == x);
                assert(s@[places@[k] as int].child_frame@ == child@);
            }
            if all.contains(x) {
                let a = choose|a: int|
                    0 <= a < s@.len() && (#[trigger] s@[a]).child_frame@ == child@ && s@[a].parent_frame@ == x;
                let k = choose|k: int| 0 <= k < places@.len() && #[trigger] places@[k] == a;
                assert(names@[k].text@ == x);
                assert(w[k] == x);
            }
        }
        seqs::lemma_strict_is_unique(seqs::text_set(w), seqs::text_set(all), lt);
    }
    out
}

/// The places of the transforms that lead to each frame.
fn list_places(g: &Graph, Ghost(s): Ghost<Seq<Transform>>) -> (r: Vec<Vec<usize>>)
    requires
        g.is_of(s),
    ensures
        r@.len() == g.frames@.len(),
        forall|f: int| 0 <= f < r@.len() ==> are_places((#[trigger] r@[f])@, s, frames::frames_of(s)[f]),
{
    let ghost edges = frames::edges_of(s);
    let ghost names = frames::frames_of(s);
    let n: usize = g.frames.len();
    let mut out: Vec<Vec<usize>> = Vec::new();
    while out.len() < n
        invariant
            out@.len() <= n,
            forall|f: int| 0 <= f < out@.len() ==> (#[trigger] out@[f])@.len() == 0,
        decreases n - out@.len(),
    {
        out.push(Vec::new());
    }
    let mut i: usize = 0;
    while i < g.edges.len()
        invariant
            i <= g.edges@.len(),
            n == g.frames@.len(),
            out@.len() == n,
            g.is_of(s),
            edges == frames::edges_of(s),
            forall|f: int, k: int|
                #![trigger out@[f]@[k]]
                0 <= f < n && 0 <= k < out@[f]@.len() ==> out@[f]@[k] < i && edges[out@[f]@[k] as int].child == f,
            forall|a: int| 0 <= a < i ==> out@[(#[trigger] edges[a]).child]@.contains(a as usize),
        decreases g.edges@.len() - i,
    {
        assert(edges[i as int] == g.edges@[i as int]@);
        let c: usize = g.edges[i].child;
        let ghost was = out@;
        out[c].push(i);
        proof {
            assert(out@[c as int]@ == was[c as int]@.push(i));
            assert forall|f: int, k: int|
                #![trigger out@[f]@[k]]
                0 <= f < n && 0 <= k < out@[f]@.len() implies out@[f]@[k] < i + 1 && edges[out@[f]@[k] as int].child == f by {
                if f != c {
                    assert(out@[f] == was[f]);
                    assert(was[f]@[k] < i);
                } else if k < was[c as int]@.len() {
                    assert(was[f]@[k] < i);
                }
            }
            assert forall|a: int| 0 <= a < i + 1 implies out@[(#[trigger] edges[a]).child]@.contains(a as usize) by {
                let f = edges[a].child;
                if a < i {
                    assert(was[f]@.contains(a as usize));
                    let k = choose|k: int| 0 <= k < was[f]@.len() && was[f]@[k] == a as usize;
                    assert(f == c || out@[f] == was[f]);
                    assert(out@[f]@[k] == a as usize);
                } else {
                    assert(out@[f]@[was[f]@.len() as int] == a as usize);
                }
            }
        }
        i = i + 1;
    }
    proof {
        assert(frames::edge_views(g.edges@).len() == g.edges@.len());
        assert(edges.len() == s.len());
        assert(names.len() == n);
        assert forall|f: int| 0 <= f < out@.len() implies are_places((#[trigger] out@[f])@, s, names[f]) by {
            let places = out@[f]@;
            assert forall|k: int| 0 <= k < places.len() implies #[trigger] places[k] < s.len() && s[places[k] as int].child_frame@
                == names[f] by {
                assert(out@[f]@[k] < i);
                let a = places[k] as int;
                assert(edges[a].child == f);
                assert(edges[a] == frames::edge_of(names, s[a]));
                frames::lemma_place(names, s[a].child_frame@);
            }
            assert forall|a: int| 0 <= a < s.len() && (#[trigger] s[a]).child_frame@ == names[f] implies exists|k: int|
                0 <= k < places.len() && #[trigger] places[k] == a by {
                lemma_same_place(s, a, f);
                assert(out@[edges[a].child]@.contains(a as usize));
                let k = choose|k: int| 0 <= k < places.len() && places[k] == a as usize;
                assert(places[k] == a);
            }
        }
    }
    out
}

/// A frame has one place.
proof fn lemma_same_place(s: Seq<Transform>, a: int, f: int)
    requires
        0 <= a < s.len(),
        0 <= f < frames::frames_of(s).len(),
        s[a].child_frame@ == frames::frames_of(s)[f],
    ensures
        frames::edges_of(s)[a].child == f,
{
    let names = frames::frames_of(s);
    let lt = seqs::text_order();
    seqs::lemma_text_order();
    seqs::lemma_distinct_strictly(frames::named_frames(s), lt);
    assert(names.contains(names[f]));
    frames::lemma_place(names, names[f]);
    let p = frames::place(names, names[f]);
    if p < f {
        assert(lt(names[p], names[f]));
    } else if f < p {
        assert(lt(names[f], names[p]));
    }
}

/// The first names of a list, and how many more there are.
fn name_some(names: &Vec<String>) -> (r: String)
    ensures
        r@ == named(text::texts(names@)),
{
    assert(text::texts(names@).len() == names@.len());
    if names.len() > MAX_NAMED {
        cat4(
            join(&first_texts(names, MAX_NAMED), ", ").as_str(),
            ", and ",
            dec_usize(names.len() - MAX_NAMED).as_str(),
            " more",
        )
    } else {
        join(names, ", ")
    }
}

/// A cycle as a message names it.
fn name_cycle(names: &Vec<String>) -> (r: String)
    ensures
        r@ == cycle_text(text::texts(names@)),
{
    let ghost t = text::texts(names@);
    assert(t.len() == names@.len());
    if names.len() > MAX_NAMED {
        assert(t.last() == names@[names@.len() - 1]@);
        cat6(
            join(&first_texts(names, MAX_NAMED - 1), " → ").as_str(),
            " → … → ",
            names[names.len() - 1].as_str(),
            " (",
            dec_usize(names.len() - 1).as_str(),
            " frames in the loop)",
        )
    } else {
        join(names, " → ")
    }
}

/// The child frames that transforms name, in order.
fn children_of(s: &Vec<Transform>) -> (r: Vec<String>)
    ensures
        text::texts(r@) == seqs::text_set(child_names(s@)),
{
    let mut names: Vec<Word> = Vec::new();
    let mut i: usize = 0;
    while i < s.len()
        invariant
            i <= s@.len(),
            names@.len() == i,
            forall|k: int| 0 <= k < i ==> (#[trigger] names@[k]).text@ == s@[k].child_frame@,
        decreases s@.len() - i,
    {
        names.push(Word { text: s[i].child_frame.as_str() });
        i = i + 1;
    }
    assert(sort::words(names@) =~= child_names(s@));
    distinct_words(&names)
}

/// A child frame is a frame.
proof fn lemma_child_is_frame(s: Seq<Transform>, child: Seq<char>, i: int)
    requires
        0 <= i < seqs::text_set(child_names(s)).len(),
        seqs::text_set(child_names(s))[i] == child,
    ensures
        frames::frames_of(s).contains(child),
{
    let lt = seqs::text_order();
    assert(seqs::text_set(child_names(s)).contains(child));
    seqs::lemma_distinct_contains(child_names(s), lt, child);
    let k = choose|k: int| 0 <= k < child_names(s).len() && child_names(s)[k] == child;
    frames::lemma_named(s, k);
    seqs::lemma_distinct_contains(frames::named_frames(s), lt, child);
}

/// Every way transforms are connected and still no tree, as sentences naming the frames.
fn ambiguous_calibration(s: &Vec<Transform>, g: &Graph) -> (r: Vec<String>)
    requires
        g.is_of(s@),
    ensures
        text::texts(r@) == ambiguous_reasons(s@),
{
    let children: Vec<String> = children_of(s);
    let ghost names = text::texts(children@);
    let ghost all = frames::frames_of(s@);
    let places: Vec<Vec<usize>> = list_places(g, Ghost(s@));
    proof {
        seqs::lemma_text_order();
        seqs::lemma_distinct_strictly(frames::named_frames(s@), seqs::text_order());
    }
    let mut out: Vec<String> = Vec::new();
    let mut i: usize = 0;
    assert(text::texts(out@) =~= Seq::empty());
    while i < children.len()
        invariant
            i <= children@.len(),
            names == text::texts(children@),
            names == seqs::text_set(child_names(s@)),
            all == frames::frames_of(s@),
            g.is_of(s@),
            seqs::strictly(all, seqs::text_order()),
            places@.len() == g.frames@.len(),
            forall|f: int| 0 <= f < places@.len() ==> are_places((#[trigger] places@[f])@, s@, all[f]),
            text::texts(out@) == parents_reasons(s@, names.take(i as int)),
        decreases children@.len() - i,
    {
        let child: &str = children[i].as_str();
        assert(names[i as int] == child@);
        assert(names.take(i + 1).drop_last() =~= names.take(i as int));
        proof {
            lemma_child_is_frame(s@, child@, i as int);
            frames::lemma_place(all, child@);
            assert(all.len() == g.frames@.len());
        }
        let at: usize = locate(&g.frames, child);
        assert(are_places(places@[at as int]@, s@, all[at as int]));
        if contested(s, child, &places[at]) {
            let parents: Vec<String> = parents_of(s, child, &places[at]);
            assert(text::texts(parents@).len() == parents@.len());
            out.push(
                cat7(
                    "frame `",
                    child,
                    "` is given ",
                    dec_usize(parents.len()).as_str(),
                    " different parents at the same time (",
                    name_some(&parents).as_str(),
                    ") — its place on the rig depends on which chain a consumer happens to resolve",
                ),
            );
        }
        i = i + 1;
    }
    assert(names.take(i as int) =~= names);
    let ghost had = text::texts(out@);
    match cycles::cycle_names(s, g) {
        Some(loop_list) => {
            out.push(
                cat3(
                    "the transform tree contains a cycle (",
                    name_cycle(&loop_list).as_str(),
                    ") — it has no root frame, so there is nothing the rig is expressed in",
                ),
            );
            assert(had.push(cycle_reason(text::texts(loop_list@))) =~= had + seq![cycle_reason(text::texts(loop_list@))]);
        },
        None => {
            assert(had + Seq::<Seq<char>>::empty() =~= had);
        },
    }
    out
}

// ---- the report ------------------------------------------------------------------------------

/// A rule that judges a calibration against each rig.
pub struct Calibrated<'a> {
    /// The calibration.
    pub calibration: &'a Option<Calibration>,
}

pub const NO_TREE: &'static str = "the rig has spatial sensors but no transform (TF) tree — the extrinsics relating the \
     sensors are unknown, so they cannot be fused";

pub const NO_INTRINSICS: &'static str = "the rig has camera(s) but no camera intrinsics (CameraInfo) — projecting points into \
     the image is undefined";

/// The sentence on a tree in pieces.
pub open spec fn split_reason(n: nat) -> Seq<char> {
    "the transform tree is disconnected ("@ + text::dec(n)
        + " separate components) — sensors in different components cannot be spatially related"@
}

/// The sentence on cameras without intrinsics.
pub open spec fn short_reason(cameras: nat, intrinsics: nat) -> Seq<char> {
    "the rig carries "@ + text::dec(cameras) + " camera(s) but only "@ + text::dec(intrinsics)
        + " set(s) of camera intrinsics (CameraInfo) — at least "@ + text::dec((cameras - intrinsics) as nat)
        + " camera cannot be projected into"@
}

/// What is reported of the tree.
pub open spec fn tree_findings(episode: Episode, s: Seq<Transform>) -> Seq<FindingView> {
    let n = frames::components(frames::edges_of(s), frames::frames_of(s).len());
    if s.len() == 0 {
        seq![incomplete_finding(episode.index, NO_TREE@)]
    } else if !is_localizable(episode.streams@, frames::frames_of(s)) && n > 1 {
        seq![incomplete_finding(episode.index, split_reason(n))]
    } else {
        Seq::empty()
    }
}

/// What is reported of the intrinsics: counted, not matched by name, because a `CameraInfo` names
/// its own topic and never the image stream it calibrates.
pub open spec fn intrinsics_findings(episode: Episode, count: nat) -> Seq<FindingView> {
    if carries(episode.streams@, Modality::Video) && count == 0 {
        seq![incomplete_finding(episode.index, NO_INTRINSICS@)]
    } else {
        match cameras(episode.streams@) {
            Some(n) => if n > count {
                seq![incomplete_finding(episode.index, short_reason(n, count))]
            } else {
                Seq::empty()
            },
            None => Seq::empty(),
        }
    }
}

/// The findings for reasons why calibration cannot be used.
pub open spec fn implausible_findings(episode: u64, reasons: Seq<Seq<char>>) -> Seq<FindingView> {
    reasons.map_values(|r: Seq<char>| implausible_finding(episode, r))
}

/// The findings for reasons why calibration has more than one answer.
pub open spec fn ambiguous_findings(episode: u64, reasons: Seq<Seq<char>>) -> Seq<FindingView> {
    reasons.map_values(|r: Seq<char>| ambiguous_finding(episode, r))
}

impl<'a> EpisodeRule for Calibrated<'a> {
    open spec fn of_episode(&self, episode: Episode) -> Seq<FindingView> {
        if !autonomy::is_rig(episode) || !(carries(episode.streams@, Modality::PointCloud) || carries(
            episode.streams@,
            Modality::Video,
        )) {
            Seq::empty()
        } else {
            let s = transforms_of(*self.calibration);
            tree_findings(episode, s) + intrinsics_findings(episode, intrinsics_count(*self.calibration))
                + implausible_findings(episode.index, unusable_reasons(*self.calibration)) + ambiguous_findings(
                episode.index,
                ambiguous_reasons(s),
            )
        }
    }

    fn check_episode(&self, episode: &Episode) -> (r: Vec<Finding>) {
        broadcast use check::group_views;

        if !is_rig_episode(episode) {
            return none();
        }
        let has_camera: bool = has_modality(episode, Modality::Video);
        if !has_modality(episode, Modality::PointCloud) && !has_camera {
            return none();
        }
        let bare: Vec<Transform> = Vec::new();
        let transforms: &Vec<Transform> = match self.calibration {
            Some(c) => &c.transforms,
            None => &bare,
        };
        let count: usize = match self.calibration {
            Some(c) => c.intrinsics.len(),
            None => 0,
        };
        assert(transforms@ =~= transforms_of(*self.calibration));
        let g: Graph = graph(transforms);
        let mut out: Vec<Finding> = report_tree(episode, transforms, &g);
        let mut more: Vec<Finding> = report_intrinsics(episode, has_camera, count);
        out.append(&mut more);
        let mut unusable: Vec<Finding> = report_unusable(episode.index, &unusable_calibration(self.calibration));
        out.append(&mut unusable);
        let mut ambiguous: Vec<Finding> = report_ambiguous(episode.index, &ambiguous_calibration(transforms, &g));
        out.append(&mut ambiguous);
        out
    }
}

/// Reports on the tree.
fn report_tree(episode: &Episode, transforms: &Vec<Transform>, g: &Graph) -> (r: Vec<Finding>)
    requires
        g.is_of(transforms@),
    ensures
        check::views(r@) == tree_findings(*episode, transforms@),
{
    if transforms.len() == 0 {
        return one(make_incomplete(episode.index, NO_TREE));
    }
    if break_is_localizable(episode, &g.frames) {
        return none();
    }
    let n: usize = tf_component_count(g, Ghost(transforms@));
    if n > 1 {
        let reason: String = cat3(
            "the transform tree is disconnected (",
            dec_usize(n).as_str(),
            " separate components) — sensors in different components cannot be spatially related",
        );
        one(make_incomplete(episode.index, reason.as_str()))
    } else {
        none()
    }
}

/// Reports on the intrinsics.
fn report_intrinsics(episode: &Episode, has_camera: bool, count: usize) -> (r: Vec<Finding>)
    requires
        has_camera == carries(episode.streams@, Modality::Video),
    ensures
        check::views(r@) == intrinsics_findings(*episode, count as nat),
{
    if has_camera && count == 0 {
        return one(make_incomplete(episode.index, NO_INTRINSICS));
    }
    match distinct_cameras(episode) {
        Some(n) => if n > count {
            let reason: String = cat7(
                "the rig carries ",
                dec_usize(n).as_str(),
                " camera(s) but only ",
                dec_usize(count).as_str(),
                " set(s) of camera intrinsics (CameraInfo) — at least ",
                dec_usize(n - count).as_str(),
                " camera cannot be projected into",
            );
            one(make_incomplete(episode.index, reason.as_str()))
        } else {
            none()
        },
        None => none(),
    }
}

/// Reports calibration that cannot be used.
fn report_unusable(episode: u64, reasons: &Vec<String>) -> (r: Vec<Finding>)
    ensures
        check::views(r@) == implausible_findings(episode, text::texts(reasons@)),
{
    broadcast use check::group_views;

    let ghost t = text::texts(reasons@);
    let mut out: Vec<Finding> = Vec::new();
    let mut i: usize = 0;
    assert(implausible_findings(episode, t.take(0)) =~= Seq::empty());
    while i < reasons.len()
        invariant
            i <= reasons@.len(),
            t == text::texts(reasons@),
            check::views(out@) == implausible_findings(episode, t.take(i as int)),
        decreases reasons@.len() - i,
    {
        assert(t[i as int] == reasons@[i as int]@);
        out.push(make_implausible(episode, reasons[i].as_str()));
        assert(implausible_findings(episode, t.take(i + 1)) =~= implausible_findings(episode, t.take(i as int)).push(
            implausible_finding(episode, t[i as int]),
        ));
        i = i + 1;
    }
    assert(t.take(i as int) =~= t);
    out
}

/// Reports calibration that has more than one answer.
fn report_ambiguous(episode: u64, reasons: &Vec<String>) -> (r: Vec<Finding>)
    ensures
        check::views(r@) == ambiguous_findings(episode, text::texts(reasons@)),
{
    broadcast use check::group_views;

    let ghost t = text::texts(reasons@);
    let mut out: Vec<Finding> = Vec::new();
    let mut i: usize = 0;
    assert(ambiguous_findings(episode, t.take(0)) =~= Seq::empty());
    while i < reasons.len()
        invariant
            i <= reasons@.len(),
            t == text::texts(reasons@),
            check::views(out@) == ambiguous_findings(episode, t.take(i as int)),
        decreases reasons@.len() - i,
    {
        assert(t[i as int] == reasons@[i as int]@);
        out.push(make_ambiguous(episode, reasons[i].as_str()));
        assert(ambiguous_findings(episode, t.take(i + 1)) =~= ambiguous_findings(episode, t.take(i as int)).push(
            ambiguous_finding(episode, t[i as int]),
        ));
        i = i + 1;
    }
    assert(t.take(i as int) =~= t);
    out
}

impl CalibrationCompleteness {
    /// What the check reports.
    pub open spec fn outcome(dataset: &Dataset) -> Seq<FindingView> {
        walk::by_episode((Calibrated { calibration: &dataset.calibration }), dataset.episodes@)
    }

    /// Reports on a dataset's calibration, episode by episode.
    pub fn evaluate(&self, dataset: &Dataset) -> (r: Vec<Finding>)
        ensures
            check::views(r@) == Self::outcome(dataset),
    {
        let rule: Calibrated = Calibrated { calibration: &dataset.calibration };
        walk_episodes(&rule, dataset)
    }
}

impl Check for CalibrationCompleteness {
    open spec fn meta(&self) -> CheckMeta {
        CheckMeta {
            id: CALIBRATION_ID@,
            title: "Rig calibration completeness"@,
            category: Category::Autonomy,
            default_severity: Severity::Warning,
            scope: Scope::Episode,
            version: "1"@,
            finding_codes: seq![INCOMPLETE_CODE@, IMPLAUSIBLE_CODE@, AMBIGUOUS_CODE@],
        }
    }

    fn info(&self) -> (r: CheckInfo) {
        let finding_codes: &'static [&'static str] = &[INCOMPLETE_CODE, IMPLAUSIBLE_CODE, AMBIGUOUS_CODE];
        assert(text::str_texts(finding_codes@) =~= self.meta().finding_codes);
        CheckInfo {
            id: CALIBRATION_ID,
            title: "Rig calibration completeness",
            category: Category::Autonomy,
            default_severity: Severity::Warning,
            scope: Scope::Episode,
            version: "1",
            finding_codes,
        }
    }

    open spec fn report(&self, dataset: &Dataset) -> Seq<FindingView> {
        Self::outcome(dataset)
    }

    open spec fn report_in(&self, dataset: &Dataset, frames_read: bool, attested: Seq<Seq<char>>) -> Seq<FindingView> {
        if frames_read { Self::outcome(dataset) } else { Seq::empty() }
    }

    fn run(&self, dataset: &Dataset) -> (r: Vec<Finding>) {
        self.evaluate(dataset)
    }

    fn run_in(&self, dataset: &Dataset, context: &CheckContext) -> (r: Vec<Finding>) {
        if context.frames_read { self.evaluate(dataset) } else { none() }
    }
}

// ---- each sensor's own frame -----------------------------------------------------------------

/// **Per-sensor calibration resolution.** For each spatial sensor of a rig with a transform tree:
/// does a chain of transforms exist from the frame it stamps its data with to a camera?
///
/// - **The sensor declares no frame.** Its calibration is unverifiable, not verified.
/// - **The sensor's frame is not in the tree.** A perfectly connected tree recorded for another name
///   silently has no transform for this sensor.
/// - **The sensor's frame is in the tree but not connected to the camera.** The chain to the image
///   frame is missing.
///
/// A rig without a transform tree is left to [`CalibrationCompleteness`], and each defect of a
/// stream name is claimed once, however many episodes it appears in.
#[derive(Debug, Clone, Copy)]
pub struct SensorFrameResolution;

/// The id of [`SensorFrameResolution`].
pub const RESOLUTION_ID: &'static str = "autonomy.sensor-frame-resolution";

/// The code of a sensor without a frame.
pub const UNDECLARED_CODE: &'static str = "AUTONOMY.SENSOR_FRAME_UNDECLARED";

/// The code of a frame that the tree does not know.
pub const UNKNOWN_CODE: &'static str = "AUTONOMY.SENSOR_FRAME_UNKNOWN";

/// The code of a frame that no camera can be reached from.
pub const UNRELATED_CODE: &'static str = "AUTONOMY.SENSOR_FRAME_UNRELATED";

pub const UNDECLARED_RISK: &'static str = "Nothing connects this sensor's data to the rig's \
     geometry, so fusion, projection, and any world model built on it are unfounded. The tree \
     being well-formed makes the gap invisible: the calibration checks pass because there is \
     nothing to contradict, not because anything was confirmed.";

pub const UNDECLARED_REMEDY: &'static str = "Configure the sensor's driver to stamp its `frame_id` \
     (ROS `header.frame_id`), then re-record — or re-export the log with the frame each stream \
     belongs to.";

/// The finding for a sensor without a frame.
pub open spec fn undeclared_finding(episode: u64, name: Seq<char>) -> FindingView {
    check::finding(
        RESOLUTION_ID@,
        Category::Autonomy,
        Severity::Warning,
        LocationView::Stream { episode, stream: name },
        UNDECLARED_CODE@,
        "episode "@ + text::dec(episode as nat) + ": stream `"@ + name
            + "` declares no coordinate frame, so it cannot be located in the rig's transform tree — its calibration is unverifiable, not verified"@,
        UNDECLARED_RISK@,
        UNDECLARED_REMEDY@,
    )
}

/// The finding for a sensor without a frame.
fn make_undeclared(episode: u64, name: &str) -> (r: Finding)
    ensures
        r@ == undeclared_finding(episode, name@),
{
    let message: String = cat5(
        "episode ",
        dec_u64(episode).as_str(),
        ": stream `",
        name,
        "` declares no coordinate frame, so it cannot be located in the rig's transform tree — its calibration is unverifiable, not verified",
    );
    Finding::new(RESOLUTION_ID, Category::Autonomy, Severity::Warning, Location::Stream { episode, stream: String::from_str(name) }, UNDECLARED_CODE, message).with_risk(
        UNDECLARED_RISK,
    ).with_remedy(UNDECLARED_REMEDY)
}

pub const UNKNOWN_RISK: &'static str = "Every geometric use of this sensor — fusion, projection, \
     occupancy, any world model built on the rig — silently has no transform for it. The \
     calibration looks complete because the tree itself is well-formed; the sensor simply is not \
     in it.";

pub const UNKNOWN_REMEDY: &'static str = "Reconcile the names: either publish the transform for the \
     frame the sensor actually stamps, or fix the driver to stamp the frame the calibration was \
     recorded for.";

/// The finding for a frame that the tree does not know.
pub open spec fn unknown_finding(episode: u64, name: Seq<char>, frame: Seq<char>) -> FindingView {
    check::finding(
        RESOLUTION_ID@,
        Category::Autonomy,
        Severity::Error,
        LocationView::Stream { episode, stream: name },
        UNKNOWN_CODE@,
        "episode "@ + text::dec(episode as nat) + ": stream `"@ + name
            + "` stamps its data with frame `"@ + frame
            + "`, which the rig's transform tree never mentions — this sensor has no extrinsics"@,
        UNKNOWN_RISK@,
        UNKNOWN_REMEDY@,
    )
}

/// The finding for a frame that the tree does not know.
fn make_unknown(episode: u64, name: &str, frame: &str) -> (r: Finding)
    ensures
        r@ == unknown_finding(episode, name@, frame@),
{
    let message: String = cat7(
        "episode ",
        dec_u64(episode).as_str(),
        ": stream `",
        name,
        "` stamps its data with frame `",
        frame,
        "`, which the rig's transform tree never mentions — this sensor has no extrinsics",
    );
    Finding::new(RESOLUTION_ID, Category::Autonomy, Severity::Error, Location::Stream { episode, stream: String::from_str(name) }, UNKNOWN_CODE, message).with_risk(
        UNKNOWN_RISK,
    ).with_remedy(UNKNOWN_REMEDY)
}

pub const UNRELATED_RISK: &'static str = "LiDAR-camera fusion for this sensor is geometrically \
     undefined: the extrinsics exist for part of the rig and the chain to the image frame is \
     missing, so anything that projects its observations is wrong rather than absent.";

pub const UNRELATED_REMEDY: &'static str = "Publish the missing link joining this sensor's subtree \
     to the camera's (typically sensor → base_link → camera), and re-record the calibration.";

/// The finding for a frame that no camera can be reached from.
pub open spec fn unrelated_finding(
    episode: u64,
    name: Seq<char>,
    frame: Seq<char>,
    cameras: Seq<char>,
) -> FindingView {
    check::finding(
        RESOLUTION_ID@,
        Category::Autonomy,
        Severity::Error,
        LocationView::Stream { episode, stream: name },
        UNRELATED_CODE@,
        "episode "@ + text::dec(episode as nat) + ": stream `"@ + name + "` is in frame `"@ + frame
            + "`, but no chain of transforms connects it to any camera frame ("@ + cameras
            + ") — this sensor cannot be projected into the image"@,
        UNRELATED_RISK@,
        UNRELATED_REMEDY@,
    )
}

/// The finding for a frame that no camera can be reached from.
fn make_unrelated(episode: u64, name: &str, frame: &str, cameras: &str) -> (r: Finding)
    ensures
        r@ == unrelated_finding(episode, name@, frame@, cameras@),
{
    let message: String = cat9(
        "episode ",
        dec_u64(episode).as_str(),
        ": stream `",
        name,
        "` is in frame `",
        frame,
        "`, but no chain of transforms connects it to any camera frame (",
        cameras,
        ") — this sensor cannot be projected into the image",
    );
    Finding::new(RESOLUTION_ID, Category::Autonomy, Severity::Error, Location::Stream { episode, stream: String::from_str(name) }, UNRELATED_CODE, message).with_risk(
        UNRELATED_RISK,
    ).with_remedy(UNRELATED_REMEDY)
}

/// The frames that an episode's cameras declare, as they come.
pub open spec fn declared_camera_frames(streams: Seq<Stream>) -> Seq<Seq<char>>
    decreases streams.len(),
{
    if streams.len() == 0 {
        Seq::empty()
    } else {
        let rest = declared_camera_frames(streams.drop_last());
        match frame_of(streams.last()) {
            Some(f) => if streams.last().modality is Video { rest.push(f) } else { rest },
            None => rest,
        }
    }
}

/// Whether two frames are joined by a chain of transforms.
pub open spec fn related(s: Seq<Transform>, a: Seq<char>, b: Seq<char>) -> bool {
    let f = frames::frames_of(s);
    f.contains(a) && f.contains(b) && frames::connected(frames::edges_of(s), frames::place(f, a), frames::place(f, b))
}

/// Whether some frame of a list is in the tree.
pub open spec fn any_known(s: Seq<Transform>, list: Seq<Seq<char>>) -> bool {
    exists|i: int| 0 <= i < list.len() && frames::frames_of(s).contains(#[trigger] list[i])
}

/// Whether some frame of a list is joined to a frame.
pub open spec fn any_related(s: Seq<Transform>, list: Seq<Seq<char>>, frame: Seq<char>) -> bool {
    exists|i: int| 0 <= i < list.len() && related(s, #[trigger] list[i], frame)
}

/// A rule that resolves each sensor's frame through a tree.
pub struct Resolution<'a> {
    /// The transforms.
    pub transforms: &'a Vec<Transform>,
}

/// The graph of a tree, and the component of each frame.
pub struct Tree {
    /// The graph.
    pub graph: Graph,
    /// The component of each frame.
    pub labels: Vec<usize>,
}

/// The frames that an episode's cameras declare.
fn collect_camera_frames(ep: &Episode) -> (r: Vec<String>)
    ensures
        text::texts(r@) == declared_camera_frames(ep.streams@),
{
    let ghost s = ep.streams@;
    let mut out: Vec<String> = Vec::new();
    let mut i: usize = 0;
    assert(text::texts(out@) =~= Seq::empty());
    while i < ep.streams.len()
        invariant
            i <= s.len(),
            s == ep.streams@,
            text::texts(out@) == declared_camera_frames(s.take(i as int)),
        decreases s.len() - i,
    {
        assert(s.take(i + 1).drop_last() =~= s.take(i as int));
        if ep.streams[i].modality == Modality::Video {
            if let Some(f) = &ep.streams[i].frame_id {
                out.push(f.clone());
            }
        }
        i = i + 1;
    }
    assert(s.take(i as int) =~= s);
    out
}

/// The key of a defect of a stream.
fn defect_key(name: &str, code: &str) -> (r: Vec<String>)
    ensures
        text::texts(r@) == seq![name@, code@],
{
    let mut key: Vec<String> = Vec::new();
    key.push(String::from_str(name));
    key.push(String::from_str(code));
    assert(text::texts(key@) =~= seq![name@, code@]);
    key
}

impl<'a> KeyedRule for Resolution<'a> {
    type Tool = Tree;

    open spec fn fits(&self, tool: &Tree) -> bool {
        &&& tool.graph.is_of(self.transforms@)
        &&& tool.labels@.len() == tool.graph.frames@.len()
        &&& forall|x: int, y: int|
            0 <= x < tool.labels@.len() && 0 <= y < tool.labels@.len() ==> (#[trigger] tool.labels@[x]
                == #[trigger] tool.labels@[y] <==> frames::connected(frames::edges_of(self.transforms@), x, y))
    }

    open spec fn hit(&self, episode: Episode, stream: Stream) -> Option<(Seq<Seq<char>>, FindingView)> {
        let s = self.transforms@;
        let cameras = declared_camera_frames(episode.streams@);
        if !autonomy::is_rig(episode) || !stream.modality.spec_is_spatial() {
            None
        } else {
            match frame_of(stream) {
                None => Some((seq![stream.name@, UNDECLARED_CODE@], undeclared_finding(episode.index, stream.name@))),
                Some(frame) => if !frames::frames_of(s).contains(frame) {
                    Some((seq![stream.name@, UNKNOWN_CODE@], unknown_finding(episode.index, stream.name@, frame)))
                } else if any_known(s, cameras) && !cameras.contains(frame) && !any_related(s, cameras, frame) {
                    Some(
                        (
                            seq![stream.name@, UNRELATED_CODE@],
                            unrelated_finding(episode.index, stream.name@, frame, text::joined(cameras, ", "@)),
                        ),
                    )
                } else {
                    None
                },
            }
        }
    }

    fn probe(&self, tool: &Tree, episode: &Episode, stream: &Stream) -> (r: Option<(Vec<String>, Finding)>) {
        if !is_spatial_sensor(stream.modality) || !is_rig_episode(episode) {
            return None;
        }
        let name: &str = stream.name.as_str();
        let frame: &str = match &stream.frame_id {
            Some(f) => f.as_str(),
            None => {
                return Some((defect_key(name, UNDECLARED_CODE), make_undeclared(episode.index, name)));
            },
        };
        let ghost s = self.transforms@;
        let ghost known = frames::frames_of(s);
        let at: usize = find(&tool.graph.frames, frame);
        assert(known.len() == tool.graph.frames@.len());
        if at >= tool.graph.frames.len() {
            return Some((defect_key(name, UNKNOWN_CODE), make_unknown(episode.index, name, frame)));
        }
        let cameras: Vec<String> = collect_camera_frames(episode);
        let ghost list = text::texts(cameras@);
        let mut usable: bool = false;
        let mut reached: bool = false;
        let mut i: usize = 0;
        while i < cameras.len()
            invariant
                i <= cameras@.len(),
                self.fits(tool),
                s == self.transforms@,
                known == frames::frames_of(s),
                known.len() == tool.graph.frames@.len(),
                list == text::texts(cameras@),
                at < known.len(),
                at as int == frames::place(known, frame@),
                known.contains(frame@),
                usable <==> exists|k: int| 0 <= k < i && known.contains(#[trigger] list[k]),
                reached <==> exists|k: int| 0 <= k < i && related(s, #[trigger] list[k], frame@),
            decreases cameras@.len() - i,
        {
            assert(list[i as int] == cameras@[i as int]@);
            let c: usize = find(&tool.graph.frames, cameras[i].as_str());
            if c < tool.graph.frames.len() {
                assert(known.contains(list[i as int]));
                usable = true;
                if tool.labels[c] == tool.labels[at] {
                    assert(related(s, list[i as int], frame@));
                    reached = true;
                } else {
                    assert(!related(s, list[i as int], frame@));
                }
            } else {
                assert(!related(s, list[i as int], frame@));
            }
            i = i + 1;
        }
        if usable && !holds(&cameras, frame) && !reached {
            Some(
                (
                    defect_key(name, UNRELATED_CODE),
                    make_unrelated(episode.index, name, frame, join(&cameras, ", ").as_str()),
                ),
            )
        } else {
            None
        }
    }
}

impl SensorFrameResolution {
    /// What the check reports.
    pub open spec fn outcome(dataset: &Dataset) -> Seq<FindingView> {
        match dataset.calibration {
            Some(c) => if c.transforms@.len() == 0 {
                Seq::empty()
            } else {
                walk::first_hits((Resolution { transforms: &c.transforms }), walk::pairs(dataset.episodes@))
            },
            None => Seq::empty(),
        }
    }

    /// Reports the sensors whose frame does not resolve.
    pub fn evaluate(&self, dataset: &Dataset) -> (r: Vec<Finding>)
        ensures
            check::views(r@) == Self::outcome(dataset),
    {
        match &dataset.calibration {
            Some(c) => {
                if c.transforms.len() == 0 {
                    return none();
                }
                let g: Graph = graph(&c.transforms);
                let labels: Vec<usize> = label(&g, Ghost(c.transforms@));
                let rule: Resolution = Resolution { transforms: &c.transforms };
                walk_first_hits(&rule, &Tree { graph: g, labels }, dataset)
            },
            None => none(),
        }
    }
}

impl Check for SensorFrameResolution {
    open spec fn meta(&self) -> CheckMeta {
        CheckMeta {
            id: RESOLUTION_ID@,
            title: "Sensor frame resolves through the rig calibration"@,
            category: Category::Autonomy,
            default_severity: Severity::Error,
            scope: Scope::Stream,
            version: "1"@,
            finding_codes: seq![UNDECLARED_CODE@, UNKNOWN_CODE@, UNRELATED_CODE@],
        }
    }

    fn info(&self) -> (r: CheckInfo) {
        let finding_codes: &'static [&'static str] = &[UNDECLARED_CODE, UNKNOWN_CODE, UNRELATED_CODE];
        assert(text::str_texts(finding_codes@) =~= self.meta().finding_codes);
        CheckInfo {
            id: RESOLUTION_ID,
            title: "Sensor frame resolves through the rig calibration",
            category: Category::Autonomy,
            default_severity: Severity::Error,
            scope: Scope::Stream,
            version: "1",
            finding_codes,
        }
    }

    open spec fn report(&self, dataset: &Dataset) -> Seq<FindingView> {
        Self::outcome(dataset)
    }

    open spec fn report_in(&self, dataset: &Dataset, frames_read: bool, attested: Seq<Seq<char>>) -> Seq<FindingView> {
        self.report(dataset)
    }

    fn run(&self, dataset: &Dataset) -> (r: Vec<Finding>) {
        self.evaluate(dataset)
    }

    fn run_in(&self, dataset: &Dataset, context: &CheckContext) -> (r: Vec<Finding>) {
        self.run(dataset)
    }
}

} // verus!
