//! Laws of configuration, and of attestations against what is recorded.

use vstd::prelude::*;

use crate::cdm::ProvenanceElement;
use crate::certificate::attestation;
use crate::certificate::attestation::ConflictView;
use crate::checks::standard;
use crate::checks::standard::StandardCheck;
use crate::config;
use crate::config::{CheckConfigView, TolerancesConfig};
use crate::laws::found;
use crate::number;
use crate::tolerances;
use crate::tolerances::Tolerances;

verus! {

// ---- what a configuration may say ------------------------------------------------------------

/// The double that is one.
pub open spec fn one() -> int {
    0x3ff0_0000_0000_0000
}

/// Whether a threshold, where it is given, is a finite number and not negative.
pub open spec fn is_not_negative(t: Option<u64>) -> bool {
    t matches Some(x) ==> number::magnitude(x) < number::INFINITY && 0 <= number::rank(x)
}

/// Whether a threshold, where it is given, is a finite number and positive.
pub open spec fn is_positive(t: Option<u64>) -> bool {
    t matches Some(x) ==> number::magnitude(x) < number::INFINITY && 0 < number::rank(x)
}

/// Whether a threshold, where it is given, is a finite number greater than one.
pub open spec fn is_above_one(t: Option<u64>) -> bool {
    t matches Some(x) ==> number::magnitude(x) < number::INFINITY && one() < number::rank(x)
}

/// Whether a threshold, where it is given, is more than nothing and at most the whole.
pub open spec fn is_share(t: Option<u64>) -> bool {
    t matches Some(x) ==> number::magnitude(x) < number::INFINITY && 0 < number::rank(x) <= one()
}

/// Whether a threshold, where it is given, is less than the whole and not negative.
pub open spec fn is_part(t: Option<u64>) -> bool {
    t matches Some(x) ==> number::magnitude(x) < number::INFINITY && 0 <= number::rank(x) < one()
}

/// Whether each threshold that is given lies in its range.
pub open spec fn are_in_range(t: TolerancesConfig) -> bool {
    &&& is_not_negative(t.clock_skew_ms) && is_not_negative(t.sensor_clock_offset_ms) && is_not_negative(t.start_offset_ms)
        && is_not_negative(t.end_offset_ms)
    &&& is_not_negative(t.rate_deviation) && is_not_negative(t.jitter_cv)
    &&& is_positive(t.gap_factor) && is_positive(t.ego_max_speed_mps)
    &&& is_above_one(t.episode_duration_factor) && is_above_one(t.outlier_z)
    &&& is_share(t.saturation_fraction) && is_share(t.near_duplicate_fraction)
    &&& is_part(t.sequence_drop_fraction)
}

/// The faults of single thresholds.
proof fn lemma_faults(name: Seq<char>, t: Option<u64>)
    ensures
        config::negative_fault(name, t) is None <==> is_not_negative(t),
        config::positive_fault(name, t) is None <==> is_positive(t),
        config::factor_fault(name, t) is None <==> is_above_one(t),
        config::share_fault(name, t) is None <==> is_share(t),
        config::part_fault(name, t) is None <==> is_part(t),
{
}

/// A configuration has no fault exactly where the least score is at most a hundred and each threshold
/// that it gives lies in its range.
pub proof fn law_a_configuration_is_accepted_in_range(c: CheckConfigView)
    ensures
        config::fault(c) is None <==> (c.min_score matches Some(n) ==> n <= 100) && are_in_range(c.tolerances),
{
    let t = c.tolerances;
    lemma_faults("clock_skew_ms"@, t.clock_skew_ms);
    lemma_faults("sensor_clock_offset_ms"@, t.sensor_clock_offset_ms);
    lemma_faults("start_offset_ms"@, t.start_offset_ms);
    lemma_faults("end_offset_ms"@, t.end_offset_ms);
    lemma_faults("rate_deviation"@, t.rate_deviation);
    lemma_faults("jitter_cv"@, t.jitter_cv);
    lemma_faults("gap_factor"@, t.gap_factor);
    lemma_faults("episode_duration_factor"@, t.episode_duration_factor);
    lemma_faults("saturation_fraction"@, t.saturation_fraction);
    lemma_faults("outlier_z"@, t.outlier_z);
    lemma_faults("sequence_drop_fraction"@, t.sequence_drop_fraction);
    lemma_faults("ego_max_speed_mps"@, t.ego_max_speed_mps);
    lemma_faults("near_duplicate_fraction"@, t.near_duplicate_fraction);
}

/// Whether a time is the one given, in milliseconds, or the usual one.
pub open spec fn is_time(now: i64, given: Option<u64>, usual: i64) -> bool {
    match given {
        Some(ms) => now == number::nanos(ms) as i64,
        None => now == usual,
    }
}

/// Whether a threshold is the one given, or the usual one.
pub open spec fn is_value(now: u64, given: Option<u64>, usual: u64) -> bool {
    match given {
        Some(x) => now == x,
        None => now == usual,
    }
}

/// Each threshold is the one given for it, and the usual one where none is.
pub proof fn law_thresholds_are_the_given_ones(t: TolerancesConfig)
    ensures
        ({
            let r = config::resolved(t);
            let d = tolerances::default_tolerances();
            &&& is_time(r.clock_skew_ns, t.clock_skew_ms, d.clock_skew_ns)
            &&& is_time(r.start_offset_ns, t.start_offset_ms, d.start_offset_ns)
            &&& is_time(r.end_offset_ns, t.end_offset_ms, d.end_offset_ns)
            &&& is_time(r.sensor_clock_offset_ns, t.sensor_clock_offset_ms, d.sensor_clock_offset_ns)
            &&& is_value(r.rate_deviation, t.rate_deviation, d.rate_deviation)
            &&& is_value(r.gap_factor, t.gap_factor, d.gap_factor)
            &&& is_value(r.jitter_cv, t.jitter_cv, d.jitter_cv)
            &&& is_value(r.episode_duration_factor, t.episode_duration_factor, d.episode_duration_factor)
            &&& is_value(r.saturation_fraction, t.saturation_fraction, d.saturation_fraction)
            &&& is_value(r.saturation_min_samples, t.saturation_min_samples, d.saturation_min_samples)
            &&& is_value(r.outlier_z, t.outlier_z, d.outlier_z)
            &&& is_value(r.sequence_drop_fraction, t.sequence_drop_fraction, d.sequence_drop_fraction)
            &&& is_value(r.ego_max_speed_mps, t.ego_max_speed_mps, d.ego_max_speed_mps)
            &&& is_value(r.near_duplicate_fraction, t.near_duplicate_fraction, d.near_duplicate_fraction)
        }),
{
}

/// Each threshold reaches the check that goes by it.
pub proof fn law_thresholds_reach_their_checks(t: Tolerances)
    ensures
        exists|k: int| 0 <= k < standard::standard_list(t).len() && (#[trigger] standard::standard_list(t)[k] matches StandardCheck::NearDuplicateEpisode(c) && c.min_overlap == t.near_duplicate_fraction),
        exists|k: int| 0 <= k < standard::standard_list(t).len() && (#[trigger] standard::standard_list(t)[k] matches StandardCheck::RateConformance(c) && c.relative_tolerance == t.rate_deviation),
        exists|k: int| 0 <= k < standard::standard_list(t).len() && (#[trigger] standard::standard_list(t)[k] matches StandardCheck::Gaps(c) && c.gap_factor == t.gap_factor),
        exists|k: int| 0 <= k < standard::standard_list(t).len() && (#[trigger] standard::standard_list(t)[k] matches StandardCheck::Jitter(c) && c.max_cv == t.jitter_cv),
        exists|k: int| 0 <= k < standard::standard_list(t).len() && (#[trigger] standard::standard_list(t)[k] matches StandardCheck::ClockSkew(c) && c.tolerance_ns == t.clock_skew_ns),
        exists|k: int| 0 <= k < standard::standard_list(t).len() && (#[trigger] standard::standard_list(t)[k] matches StandardCheck::StartOffset(c) && c.tolerance_ns == t.start_offset_ns),
        exists|k: int| 0 <= k < standard::standard_list(t).len() && (#[trigger] standard::standard_list(t)[k] matches StandardCheck::EndOffset(c) && c.tolerance_ns == t.end_offset_ns),
        exists|k: int| 0 <= k < standard::standard_list(t).len() && (#[trigger] standard::standard_list(t)[k] matches StandardCheck::EpisodeDuration(c) && c.factor == t.episode_duration_factor),
        exists|k: int| 0 <= k < standard::standard_list(t).len() && (#[trigger] standard::standard_list(t)[k] matches StandardCheck::RigSync(c) && c.tolerance_ns == t.clock_skew_ns),
        exists|k: int| 0 <= k < standard::standard_list(t).len() && (#[trigger] standard::standard_list(t)[k] matches StandardCheck::SequenceComplete(c) && c.max_drop_fraction == t.sequence_drop_fraction),
        exists|k: int| 0 <= k < standard::standard_list(t).len() && (#[trigger] standard::standard_list(t)[k] matches StandardCheck::EgoPoseContinuity(c) && c.max_speed_mps == t.ego_max_speed_mps),
        exists|k: int| 0 <= k < standard::standard_list(t).len() && (#[trigger] standard::standard_list(t)[k] matches StandardCheck::Saturation(c) && c.min_fraction == t.saturation_fraction && c.min_samples == t.saturation_min_samples),
        exists|k: int| 0 <= k < standard::standard_list(t).len() && (#[trigger] standard::standard_list(t)[k] matches StandardCheck::ExtremeOutlier(c) && c.z_threshold == t.outlier_z),
        exists|k: int| 0 <= k < standard::standard_list(t).len() && (#[trigger] standard::standard_list(t)[k] matches StandardCheck::MediaConformance(c) && c.fps_tolerance == t.rate_deviation),
{
    reveal(standard::standard_list);
    let s = standard::standard_list(t);
    assert(s[9] is NearDuplicateEpisode);
    assert(s[16] is RateConformance);
    assert(s[17] is Gaps);
    assert(s[18] is Jitter);
    assert(s[19] is ClockSkew);
    assert(s[20] is StartOffset);
    assert(s[21] is EndOffset);
    assert(s[23] is EpisodeDuration);
    assert(s[24] is RigSync);
    assert(s[25] is SequenceComplete);
    assert(s[26] is EgoPoseContinuity);
    assert(s[32] is Saturation);
    assert(s[33] is ExtremeOutlier);
    assert(s[40] is MediaConformance);
}

// ---- attestations against what is recorded ---------------------------------------------------

/// Whether a conflict is between an attested value and another that is recorded as known under its key.
pub open spec fn is_conflict(e: (Seq<char>, Seq<char>), p: ProvenanceElement, c: ConflictView) -> bool {
    &&& c.key == e.0 && p.key@ == e.0
    &&& p.class is Known
    &&& p.value matches Some(x) && x@ == c.recorded
    &&& c.attested == e.1
    &&& c.recorded != c.attested
}

/// The conflicts of a value.
proof fn lemma_conflicts_of(e: (Seq<char>, Seq<char>), s: Seq<ProvenanceElement>, c: ConflictView)
    ensures
        attestation::conflicts_of(e, s).contains(c) <==> exists|k: int| 0 <= k < s.len() && is_conflict(e, #[trigger] s[k], c),
    decreases s.len(),
{
    if s.len() > 0 {
        let rest = s.drop_last();
        let n = s.len() - 1;
        lemma_conflicts_of(e, rest, c);
        if attestation::contradicts(e, s.last()) {
            found::lemma_one_more(
                attestation::conflicts_of(e, rest),
                ConflictView { key: e.0, recorded: s.last().value->0@, attested: e.1 },
                c,
            );
        }
        assert(s[n] == s.last());
        assert forall|j: int| 0 <= j < n implies #[trigger] s[j] == rest[j] by {}
        if attestation::conflicts_of(e, rest).contains(c) {
            let k = choose|k: int| 0 <= k < rest.len() && is_conflict(e, #[trigger] rest[k], c);
            assert(s[k] == rest[k]);
        }
    }
}

/// An attestation conflicts with what is recorded exactly where it attests under a key another value than
/// one that is recorded there as known.
pub proof fn law_conflicts_are_found(es: Seq<(Seq<char>, Seq<char>)>, s: Seq<ProvenanceElement>, c: ConflictView)
    ensures
        attestation::all_conflicts(es, s).contains(c) <==> exists|i: int, k: int|
            0 <= i < es.len() && 0 <= k < s.len() && is_conflict(#[trigger] es[i], #[trigger] s[k], c),
    decreases es.len(),
{
    if es.len() > 0 {
        let rest = es.drop_last();
        let n = es.len() - 1;
        law_conflicts_are_found(rest, s, c);
        lemma_conflicts_of(es.last(), s, c);
        found::lemma_both(attestation::all_conflicts(rest, s), attestation::conflicts_of(es.last(), s), c);
        assert(es[n] == es.last());
        assert forall|j: int| 0 <= j < n implies #[trigger] es[j] == rest[j] by {}
        if attestation::all_conflicts(rest, s).contains(c) {
            let (i, k) = choose|i: int, k: int|
                0 <= i < rest.len() && 0 <= k < s.len() && is_conflict(#[trigger] rest[i], #[trigger] s[k], c);
            assert(es[i] == rest[i]);
            assert(is_conflict(es[i], s[k], c));
        }
        if attestation::conflicts_of(es.last(), s).contains(c) {
            let k = choose|k: int| 0 <= k < s.len() && is_conflict(es.last(), #[trigger] s[k], c);
            assert(is_conflict(es[n], s[k], c));
        }
    }
}

} // verus!
