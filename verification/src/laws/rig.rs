//! Laws of the checks for autonomy rigs.

use vstd::prelude::*;

use crate::cdm::{Episode, Modality, Stream};
use crate::checks::autonomy;
use crate::seqs;

verus! {

/// Whether a kind of stream is a sensor that only a rig carries.
pub open spec fn is_rig_kind(m: Modality) -> bool {
    m == Modality::PointCloud || m == Modality::Imu || m == Modality::Gnss || m == Modality::CanSignal || m
        == Modality::EgoPose
}

/// Whether three streams of an episode are of a rig, at least two of them of different kinds.
pub open spec fn are_of_a_rig(s: Seq<Stream>, a: int, b: int, c: int) -> bool {
    &&& 0 <= a < s.len()
    &&& 0 <= b < s.len()
    &&& 0 <= c < s.len()
    &&& a != b && b != c && a != c
    &&& is_rig_kind(s[a].modality)
    &&& is_rig_kind(s[b].modality)
    &&& is_rig_kind(s[c].modality)
    &&& s[a].modality != s[b].modality
}

/// The positions of the streams of a rig, up to a place.
spec fn rig_places(s: Seq<Stream>, n: int) -> Set<int> {
    Set::new(|k: int| 0 <= k < n && is_rig_kind(s[k].modality))
}

/// How many streams of a rig there are.
proof fn lemma_rig_sensors(s: Seq<Stream>, n: int)
    requires
        0 <= n <= s.len(),
    ensures
        rig_places(s, n).finite(),
        rig_places(s, n).len() == autonomy::rig_sensors(s.take(n)),
    decreases n,
{
    if n > 0 {
        lemma_rig_sensors(s, n - 1);
        assert(s.take(n).drop_last() =~= s.take(n - 1));
        if is_rig_kind(s[n - 1].modality) {
            assert(rig_places(s, n) =~= rig_places(s, n - 1).insert(n - 1));
        } else {
            assert(rig_places(s, n) =~= rig_places(s, n - 1));
        }
    } else {
        assert(rig_places(s, n) =~= Set::empty());
    }
}

/// An episode is of a rig exactly where at least three of its streams are, of at least two kinds.
#[verifier::rlimit(40)]
pub proof fn law_a_rig_has_three_sensors_of_two_kinds(e: Episode)
    ensures
        autonomy::is_rig(e) <==> exists|a: int, b: int, c: int| #[trigger] are_of_a_rig(e.streams@, a, b, c),
{
    let s = e.streams@;
    let n = s.len() as int;
    let all = rig_places(s, n);
    lemma_rig_sensors(s, n);
    assert(s.take(n) =~= s);
    if autonomy::is_rig(e) {
        let (i, j) = choose|i: int, j: int|
            0 <= i < s.len() && 0 <= j < s.len() && (#[trigger] s[i]).modality.spec_is_rig_sensor() && (
            #[trigger] s[j]).modality.spec_is_rig_sensor() && s[i].modality != s[j].modality;
        assert(all.contains(i) && all.contains(j));
        let rest = all.remove(i).remove(j);
        assert(rest.len() > 0);
        vstd::set_lib::lemma_set_empty_equivalency_len(rest);
        let k = choose|k: int| rest.contains(k);
        assert(are_of_a_rig(s, i, j, k));
    }
    if exists|a: int, b: int, c: int| #[trigger] are_of_a_rig(s, a, b, c) {
        let (a, b, c) = choose|a: int, b: int, c: int| #[trigger] are_of_a_rig(s, a, b, c);
        assert(all.contains(a) && all.contains(b) && all.contains(c));
        let three = Set::empty().insert(a).insert(b).insert(c);
        assert(three.len() == 3);
        vstd::set_lib::lemma_len_subset(three, all);
        assert(s[a].modality.spec_is_rig_sensor() && s[b].modality.spec_is_rig_sensor());
        assert(autonomy::mixes_rig_sensors(s));
    }
}

/// One for a stream of a rig.
spec fn rig_ones() -> spec_fn(Stream) -> Seq<int> {
    |x: Stream| if x.modality.spec_is_rig_sensor() { seq![1int] } else { Seq::empty() }
}

/// The streams of a rig, counted as a list.
proof fn lemma_rig_gathered(s: Seq<Stream>)
    ensures
        autonomy::rig_sensors(s) == seqs::gather(s, rig_ones()).len(),
    decreases s.len(),
{
    if s.len() > 0 {
        lemma_rig_gathered(s.drop_last());
    }
}

/// Whether kinds are mixed does not depend on the order.
proof fn lemma_mixes(s: Seq<Stream>, t: Seq<Stream>)
    requires
        s.to_multiset() == t.to_multiset(),
        autonomy::mixes_rig_sensors(s),
    ensures
        autonomy::mixes_rig_sensors(t),
{
    broadcast use vstd::seq_lib::group_to_multiset_ensures;

    let (i, j) = choose|i: int, j: int|
        0 <= i < s.len() && 0 <= j < s.len() && (#[trigger] s[i]).modality.spec_is_rig_sensor() && (
        #[trigger] s[j]).modality.spec_is_rig_sensor() && s[i].modality != s[j].modality;
    assert(s.contains(s[i]) && s.contains(s[j]));
    assert(t.to_multiset().count(s[i]) > 0 && t.to_multiset().count(s[j]) > 0);
    assert(t.contains(s[i]) && t.contains(s[j]));
    let x = choose|x: int| 0 <= x < t.len() && t[x] == s[i];
    let y = choose|y: int| 0 <= y < t.len() && t[y] == s[j];
    assert(t[x].modality.spec_is_rig_sensor() && t[y].modality.spec_is_rig_sensor());
}

/// Whether an episode is of a rig does not depend on the order of its streams.
pub proof fn law_a_rig_is_one_in_any_order(a: Episode, b: Episode)
    requires
        a.streams@.to_multiset() == b.streams@.to_multiset(),
    ensures
        autonomy::is_rig(a) == autonomy::is_rig(b),
{
    lemma_rig_gathered(a.streams@);
    lemma_rig_gathered(b.streams@);
    seqs::lemma_gather_multiset(a.streams@, b.streams@, rig_ones());
    if autonomy::mixes_rig_sensors(a.streams@) {
        lemma_mixes(a.streams@, b.streams@);
    }
    if autonomy::mixes_rig_sensors(b.streams@) {
        lemma_mixes(b.streams@, a.streams@);
    }
}

} // verus!
