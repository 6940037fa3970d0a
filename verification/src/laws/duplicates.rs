//! Laws of the checks for duplicated and nearly duplicated episodes.

use vstd::prelude::*;
use vstd::string::*;

use crate::cdm::{Dataset, Episode, Frame, Stream};
use crate::check::{Check, FindingView};
use crate::checks::duplicates;
use crate::checks::duplicates::{DuplicateEpisode, DUPLICATE_CODE};
use crate::checks::lists;
use crate::checks::near_duplicates;
use crate::checks::near_duplicates::{
    EvidenceView, ItemView, NearDuplicateEpisode, MAX_EPISODES_PER_HASH, MAX_TRACKED_PAIRS, NEAR_CODE, NEAR_UNCHECKED_CODE,
};
use crate::checks::structural;
use crate::laws::found;
use crate::number;
use crate::seqs;
use crate::sort;
use crate::text;

verus! {

// ---- what frames show ------------------------------------------------------------------------

/// The fingerprints of frames.
pub open spec fn prints(frames: Seq<Frame>) -> Set<Seq<u8>> {
    Set::new(
        |h: Seq<u8>|
            exists|k: int|
                0 <= k < frames.len() && ((#[trigger] frames[k]).value_ref.content_hash matches Some(x) && x@ == h),
    )
}

/// Whether a stream can tell episodes apart: it has at least eight frames, every one carries a
/// fingerprint, and at least four fifths of them are distinct.
pub open spec fn is_distinctive(s: Stream) -> bool {
    let frames = s.frames@;
    &&& frames.len() >= 8
    &&& forall|k: int| 0 <= k < frames.len() ==> (#[trigger] frames[k]).value_ref.content_hash is Some
    &&& number::nearest_bits(prints(frames).len(), frames.len()) as u64 >= 0x3fe9_9999_9999_999a
}

/// Whether a stream speaks for an episode under a name: it is the last of that name that can.
pub open spec fn speaks(e: Episode, k: int, name: Seq<char>) -> bool {
    &&& 0 <= k < e.streams@.len()
    &&& e.streams@[k].name@ == name
    &&& is_distinctive(e.streams@[k])
    &&& forall|m: int| k < m < e.streams@.len() && (#[trigger] e.streams@[m]).name@ == name ==> !is_distinctive(e.streams@[m])
}

/// How many fingerprints two streams have in common.
pub open spec fn common(a: Stream, b: Stream) -> nat {
    prints(a.frames@).intersect(prints(b.frames@)).len()
}

/// The lesser number of distinct fingerprints of two streams.
pub open spec fn fewer(a: Stream, b: Stream) -> nat {
    if prints(a.frames@).len() <= prints(b.frames@).len() { prints(a.frames@).len() } else { prints(b.frames@).len() }
}

/// Whether a share reaches a threshold.
pub open spec fn reaches(n: nat, of: nat, min: u64) -> bool {
    number::magnitude(min) <= number::INFINITY && number::rank(min) <= number::nearest_bits(n, of) as u64
}

/// Whether two episodes are near-duplicates: they have a fingerprint in common in some stream that
/// speaks for both, in every stream that speaks for both they have enough in common, and they are no
/// exact copies.
pub open spec fn are_near(min: u64, a: Episode, b: Episode) -> bool {
    &&& exists|name: Seq<char>, k: int, l: int|
        #[trigger] speaks(a, k, name) && #[trigger] speaks(b, l, name) && common(a.streams@[k], b.streams@[l]) > 0
    &&& forall|name: Seq<char>, k: int, l: int|
        #[trigger] speaks(a, k, name) && #[trigger] speaks(b, l, name) ==> reaches(
            common(a.streams@[k], b.streams@[l]),
            fewer(a.streams@[k], b.streams@[l]),
            min,
        )
    &&& !(duplicates::signature_of(a) is Some && duplicates::signature_of(a) == duplicates::signature_of(b))
}

/// Fingerprints are totally ordered.
proof fn lemma_hash_order()
    ensures
        seqs::total_order(near_duplicates::hash_order()),
{
    let lt = near_duplicates::hash_order();
    assert forall|a: Seq<u8>, b: Seq<u8>| #[trigger] lt(a, b) implies !lt(b, a) by {
        text::lemma_bytes_trichotomy(a, b);
    }
    assert forall|a: Seq<u8>, b: Seq<u8>| !(#[trigger] lt(a, b)) && !lt(b, a) implies a == b by {
        text::lemma_bytes_trichotomy(a, b);
    }
    assert forall|a: Seq<u8>, b: Seq<u8>, c: Seq<u8>| #[trigger] lt(a, b) && #[trigger] lt(b, c) implies lt(a, c) by {
        text::lemma_bytes_transitive(a, b, c);
    }
}

/// The distinct fingerprints of frames, as a list and as a set.
#[verifier::rlimit(40)]
proof fn lemma_prints(frames: Seq<Frame>)
    requires
        forall|k: int| 0 <= k < frames.len() ==> (#[trigger] frames[k]).value_ref.content_hash is Some,
    ensures
        near_duplicates::hash_set(frames).no_duplicates(),
        near_duplicates::hash_set(frames).to_set() == prints(frames),
        near_duplicates::hash_set(frames).len() == prints(frames).len(),
        prints(frames).finite(),
        prints(frames).len() <= frames.len(),
        frames.len() > 0 ==> prints(frames).len() > 0,
{
    broadcast use vstd::seq_lib::seq_to_set_is_finite;

    let all = near_duplicates::frame_hashes(frames);
    let s = near_duplicates::hash_set(frames);
    lemma_hash_order();
    seqs::lemma_distinct_strictly(all, near_duplicates::hash_order());
    assert forall|i: int, j: int| 0 <= i < s.len() && 0 <= j < s.len() && i != j implies s[i] != s[j] by {
        if i < j {
            text::lemma_bytes_trichotomy(s[i], s[j]);
        } else {
            text::lemma_bytes_trichotomy(s[j], s[i]);
        }
    }
    assert forall|h: Seq<u8>| s.to_set().contains(h) <==> prints(frames).contains(h) by {
        seqs::lemma_distinct_contains(all, near_duplicates::hash_order(), h);
        if s.contains(h) {
            let k = choose|k: int| 0 <= k < all.len() && all[k] == h;
            assert(structural::fingerprint(frames[k]) == Some(h));
        }
        if prints(frames).contains(h) {
            let k = choose|k: int|
                0 <= k < frames.len() && ((#[trigger] frames[k]).value_ref.content_hash matches Some(x) && x@ == h);
            assert(all[k] == h);
            assert(all.contains(h));
        }
    }
    assert(s.to_set() =~= prints(frames));
    s.unique_seq_to_set();
    seqs::lemma_distinct_contains(all, near_duplicates::hash_order(), Seq::empty());
    if frames.len() > 0 {
        assert(all.contains(all[0]));
        seqs::lemma_distinct_contains(all, near_duplicates::hash_order(), all[0]);
        assert(s.contains(all[0]));
    }
}

/// A stream is evidence where it is distinctive.
proof fn lemma_evidence(s: Stream)
    ensures
        near_duplicates::is_evidence(s) == is_distinctive(s),
{
    let frames = s.frames@;
    assert(structural::lacks_fingerprint(frames) <==> !(forall|k: int|
        0 <= k < frames.len() ==> (#[trigger] frames[k]).value_ref.content_hash is Some)) by {
        if structural::lacks_fingerprint(frames) {
            let k = choose|k: int| 0 <= k < frames.len() && structural::fingerprint(#[trigger] frames[k]) is None;
            assert(frames[k].value_ref.content_hash is None);
        } else {
            assert forall|k: int| 0 <= k < frames.len() implies (#[trigger] frames[k]).value_ref.content_hash is Some by {
                assert(structural::fingerprint(frames[k]) is Some);
            }
        }
    }
    if !structural::lacks_fingerprint(frames) && frames.len() >= 8 {
        lemma_prints(frames);
        let n = s.frames.len();
        number::lemma_share(prints(frames).len(), frames.len());
    }
}

// ---- evidence by name ------------------------------------------------------------------------

/// What is filed under a name is found there.
proof fn lemma_filed(s: Seq<EvidenceView>, x: EvidenceView, name: Seq<char>)
    ensures
        near_duplicates::hashes_named(near_duplicates::filed(s, x), name) == (if x.name == name {
            Some(x.hashes)
        } else {
            near_duplicates::hashes_named(s, name)
        }),
    decreases s.len(),
{
    let t = near_duplicates::filed(s, x);
    if s.len() == 0 {
        assert(t.skip(1) =~= s);
        assert(t[0] == x);
    } else if text::str_lt(s[0].name, x.name) {
        text::lemma_str_trichotomy(s[0].name, x.name);
        lemma_filed(s.skip(1), x, name);
        assert(t.skip(1) =~= near_duplicates::filed(s.skip(1), x));
    } else if s[0].name == x.name {
        assert(t.skip(1) =~= s.skip(1));
    } else {
        assert(t.skip(1) =~= s);
    }
}

/// Whether a stream is the last of a name among some that can speak.
spec fn is_last(s: Seq<Stream>, k: int, name: Seq<char>) -> bool {
    &&& 0 <= k < s.len()
    &&& s[k].name@ == name
    &&& is_distinctive(s[k])
    &&& forall|m: int| k < m < s.len() && (#[trigger] s[m]).name@ == name ==> !is_distinctive(s[m])
}

/// The evidence under a name is that of the last stream of the name that can speak.
#[verifier::rlimit(40)]
proof fn lemma_evidence_named(s: Seq<Stream>, name: Seq<char>)
    ensures
        match near_duplicates::hashes_named(near_duplicates::evidence(s), name) {
            Some(h) => exists|k: int|
                #![trigger s[k]]
                is_last(s, k, name) && h == near_duplicates::hash_set(s[k].frames@),
            None => forall|k: int| 0 <= k < s.len() && (#[trigger] s[k]).name@ == name ==> !is_distinctive(s[k]),
        },
    decreases s.len(),
{
    if s.len() > 0 {
        let rest = s.drop_last();
        let x = s.last();
        let n = s.len() - 1;
        lemma_evidence_named(rest, name);
        lemma_evidence(x);
        if is_distinctive(x) {
            lemma_filed(
                near_duplicates::evidence(rest),
                EvidenceView { name: x.name@, hashes: near_duplicates::hash_set(x.frames@) },
                name,
            );
        }
        if is_distinctive(x) && x.name@ == name {
            assert(is_last(s, n, name));
            assert(s[n] == x);
        } else {
            match near_duplicates::hashes_named(near_duplicates::evidence(rest), name) {
                Some(h) => {
                    let k = choose|k: int|
                        #![trigger rest[k]]
                        is_last(rest, k, name) && h == near_duplicates::hash_set(rest[k].frames@);
                    assert(s[k] == rest[k]);
                    assert forall|m: int| k < m < s.len() && (#[trigger] s[m]).name@ == name implies !is_distinctive(s[m]) by {
                        if m < n {
                            assert(rest[m] == s[m]);
                        }
                    }
                    assert(is_last(s, k, name));
                },
                None => {
                    assert forall|k: int| 0 <= k < s.len() && (#[trigger] s[k]).name@ == name implies !is_distinctive(s[k]) by {
                        if k < n {
                            assert(rest[k] == s[k]);
                        }
                    }
                },
            }
        }
    }
}

/// The evidence of an episode under a name is that of the stream that speaks for it.
proof fn lemma_speaker(e: Episode, k: int, name: Seq<char>)
    requires
        speaks(e, k, name),
    ensures
        near_duplicates::hashes_named(near_duplicates::evidence(e.streams@), name) == Some(
            near_duplicates::hash_set(e.streams@[k].frames@),
        ),
{
    let s = e.streams@;
    lemma_evidence_named(s, name);
    match near_duplicates::hashes_named(near_duplicates::evidence(s), name) {
        Some(h) => {
            let l = choose|l: int| #![trigger s[l]] is_last(s, l, name) && h == near_duplicates::hash_set(s[l].frames@);
            if l < k {
                assert(s[k].name@ == name);
            } else if k < l {
                assert(s[l].name@ == name);
            }
        },
        None => {
            assert(s[k].name@ == name);
        },
    }
}

/// The stream that speaks for an episode under a name, where it has evidence under it.
proof fn lemma_spoken_for(e: Episode, name: Seq<char>) -> (k: int)
    requires
        near_duplicates::hashes_named(near_duplicates::evidence(e.streams@), name) is Some,
    ensures
        speaks(e, k, name),
{
    let s = e.streams@;
    lemma_evidence_named(s, name);
    let h = near_duplicates::hashes_named(near_duplicates::evidence(s), name)->0;
    let k = choose|k: int| #![trigger s[k]] is_last(s, k, name) && h == near_duplicates::hash_set(s[k].frames@);
    k
}

// ---- who holds what --------------------------------------------------------------------------

/// Who holds which fingerprint under a name.
proof fn lemma_holdings(items: Seq<ItemView>, name: Seq<char>, h: Seq<u8>, a: int)
    ensures
        near_duplicates::holdings(items, name).contains((h, a)) <==> 0 <= a < items.len() && (
        near_duplicates::hashes_named(items[a].streams, name) matches Some(hs) && hs.contains(h)),
    decreases items.len(),
{
    if items.len() > 0 {
        let rest = items.drop_last();
        let n = items.len() - 1;
        lemma_holdings(rest, name, h, a);
        if let Some(hs) = near_duplicates::hashes_named(items.last().streams, name) {
            let here = near_duplicates::held_by(hs, n);
            found::lemma_both(near_duplicates::holdings(rest, name), here, (h, a));
            if here.contains((h, a)) {
                let k = choose|k: int| 0 <= k < here.len() && here[k] == (h, a);
                assert(hs[k] == h);
            }
            if a == n && hs.contains(h) {
                let k = choose|k: int| 0 <= k < hs.len() && hs[k] == h;
                assert(here[k] == (h, a));
            }
        }
        if 0 <= a < n {
            assert(rest[a] == items[a]);
        }
    }
}

/// Whether the fingerprints of each stream are distinct.
spec fn are_apart(items: Seq<ItemView>, name: Seq<char>) -> bool {
    forall|a: int|
        0 <= a < items.len() ==> (near_duplicates::hashes_named((#[trigger] items[a]).streams, name) matches Some(hs)
            ==> hs.no_duplicates())
}

/// No one holds a fingerprint twice.
#[verifier::rlimit(40)]
proof fn lemma_held_once(items: Seq<ItemView>, name: Seq<char>)
    requires
        are_apart(items, name),
    ensures
        near_duplicates::holdings(items, name).no_duplicates(),
    decreases items.len(),
{
    if items.len() > 0 {
        let rest = items.drop_last();
        let n = items.len() - 1;
        assert(are_apart(rest, name)) by {
            assert forall|a: int| 0 <= a < rest.len() implies (near_duplicates::hashes_named((#[trigger] rest[a]).streams, name)
                matches Some(hs) ==> hs.no_duplicates()) by {
                assert(rest[a] == items[a]);
            }
        }
        lemma_held_once(rest, name);
        let old = near_duplicates::holdings(rest, name);
        assert(items[n] == items.last());
        if let Some(hs) = near_duplicates::hashes_named(items.last().streams, name) {
            let here = near_duplicates::held_by(hs, n);
            let all = old + here;
            assert forall|i: int, j: int| 0 <= i < j < all.len() implies all[i] != all[j] by {
                if j < old.len() {
                    assert(old[i] != old[j]);
                } else if i >= old.len() {
                    assert(hs[i - old.len()] != hs[j - old.len()]);
                } else {
                    assert(old.contains(old[i]));
                    lemma_holdings(rest, name, old[i].0, old[i].1);
                }
            }
        }
    }
}

/// The holdings in order, each once.
proof fn lemma_runs(items: Seq<ItemView>, name: Seq<char>)
    requires
        are_apart(items, name),
    ensures
        seqs::strictly(near_duplicates::runs(items, name), sort::key_order()),
{
    broadcast use vstd::seq_lib::group_to_multiset_ensures;

    let h = near_duplicates::holdings(items, name);
    let t = near_duplicates::runs(items, name);
    lemma_held_once(items, name);
    sort::lemma_key_order();
    seqs::lemma_sorted_in_order(h, sort::key_order());
    seqs::lemma_sorted_multiset(h, sort::key_order());
    h.lemma_multiset_has_no_duplicates();
    t.lemma_multiset_has_no_duplicates_conv();
    assert forall|i: int, j: int| 0 <= i < j < t.len() implies sort::key_lt(#[trigger] t[i], #[trigger] t[j]) by {
        let lt = sort::key_order();
        assert(!lt(t[j], t[i]));
        assert(t[i] != t[j]);
    }
}

/// Who stands in the ordered holdings.
proof fn lemma_runs_hold(items: Seq<ItemView>, name: Seq<char>, h: Seq<u8>, a: int)
    ensures
        near_duplicates::runs(items, name).contains((h, a)) <==> 0 <= a < items.len() && (near_duplicates::hashes_named(
            items[a].streams,
            name,
        ) matches Some(hs) && hs.contains(h)),
{
    broadcast use vstd::seq_lib::group_to_multiset_ensures;

    let s = near_duplicates::holdings(items, name);
    let t = near_duplicates::runs(items, name);
    seqs::lemma_sorted_multiset(s, sort::key_order());
    assert(t.contains((h, a)) <==> t.to_multiset().count((h, a)) > 0);
    assert(s.contains((h, a)) <==> s.to_multiset().count((h, a)) > 0);
    lemma_holdings(items, name, h, a);
}

// ---- counting what is shared -----------------------------------------------------------------

/// What occurs in two lists.
proof fn lemma_occurrences(s: Seq<(int, int)>, t: Seq<(int, int)>, p: (int, int))
    ensures
        near_duplicates::occurrences(s + t, p) == near_duplicates::occurrences(s, p) + near_duplicates::occurrences(t, p),
    decreases t.len(),
{
    if t.len() == 0 {
        assert(s + t =~= s);
    } else {
        assert((s + t).drop_last() =~= s + t.drop_last());
        lemma_occurrences(s, t.drop_last(), p);
    }
}

/// What one element's list holds.
proof fn lemma_occurs_once(x: (int, int), p: (int, int))
    ensures
        near_duplicates::occurrences(seq![x], p) == (if x == p { 1nat } else { 0 }),
{
    let s = seq![x];
    assert(s.drop_last() =~= Seq::empty());
    assert(near_duplicates::occurrences(s.drop_last(), p) == 0);
}

/// Whether positions rise from one place to another.
spec fn is_rising(t: Seq<(Seq<u8>, int)>, x: int, end: int) -> bool {
    forall|u: int, v: int| x <= u < v < end ==> (#[trigger] t[u]).1 < (#[trigger] t[v]).1
}

/// Whether a position stands between two places.
spec fn stands(t: Seq<(Seq<u8>, int)>, x: int, end: int, a: int) -> bool {
    exists|u: int| x <= u < end && (#[trigger] t[u]).1 == a
}

/// A pair is told once with a holder where the other stands behind.
#[verifier::rlimit(40)]
proof fn lemma_with_each(t: Seq<(Seq<u8>, int)>, x: int, y: int, end: int, a: int, b: int)
    requires
        0 <= x < y <= end <= t.len(),
        is_rising(t, x, end),
    ensures
        near_duplicates::occurrences(near_duplicates::with_each(t, x, y, end), (a, b)) == (if t[x].1 == a && stands(
            t,
            y,
            end,
            b,
        ) {
            1nat
        } else {
            0
        }),
    decreases end - y,
{
    if y < end {
        lemma_with_each(t, x, y + 1, end, a, b);
        let one = seq![(t[x].1, t[y].1)];
        lemma_occurrences(one, near_duplicates::with_each(t, x, y + 1, end), (a, b));
        lemma_occurs_once((t[x].1, t[y].1), (a, b));
        if t[y].1 == b {
            assert(stands(t, y, end, b));
            assert forall|u: int| y + 1 <= u < end implies (#[trigger] t[u]).1 != b by {
                assert(t[y].1 < t[u].1);
            }
        } else if stands(t, y, end, b) {
            let u = choose|u: int| y <= u < end && (#[trigger] t[u]).1 == b;
            assert(y + 1 <= u < end && t[u].1 == b);
        } else if stands(t, y + 1, end, b) {
            let u = choose|u: int| y + 1 <= u < end && (#[trigger] t[u]).1 == b;
            assert(y <= u < end && t[u].1 == b);
        }
    }
}

/// A pair is told once among holders where the two stand there, the lesser first.
#[verifier::rlimit(40)]
proof fn lemma_each_two(t: Seq<(Seq<u8>, int)>, x: int, end: int, a: int, b: int)
    requires
        0 <= x <= end <= t.len(),
        is_rising(t, x, end),
    ensures
        near_duplicates::occurrences(near_duplicates::each_two(t, x, end), (a, b)) == (if a < b && stands(t, x, end, a)
            && stands(t, x, end, b) {
            1nat
        } else {
            0
        }),
    decreases end - x,
{
    if x < end {
        assert(is_rising(t, x + 1, end));
        lemma_each_two(t, x + 1, end, a, b);
        lemma_with_each(t, x, x + 1, end, a, b);
        lemma_occurrences(near_duplicates::with_each(t, x, x + 1, end), near_duplicates::each_two(t, x + 1, end), (a, b));
        lemma_stands(t, x, end, a);
        lemma_stands(t, x, end, b);
        if t[x].1 == a {
            assert(!stands(t, x + 1, end, a)) by {
                if stands(t, x + 1, end, a) {
                    let u = choose|u: int| x + 1 <= u < end && (#[trigger] t[u]).1 == a;
                    assert(t[x].1 < t[u].1);
                }
            }
            if stands(t, x + 1, end, b) {
                let u = choose|u: int| x + 1 <= u < end && (#[trigger] t[u]).1 == b;
                assert(t[x].1 < t[u].1);
            }
        } else if t[x].1 == b && stands(t, x, end, a) {
            let u = choose|u: int| x <= u < end && (#[trigger] t[u]).1 == a;
            assert(t[x].1 < t[u].1);
        }
    }
}

/// A position stands first or behind.
proof fn lemma_stands(t: Seq<(Seq<u8>, int)>, x: int, end: int, a: int)
    requires
        0 <= x < end <= t.len(),
    ensures
        stands(t, x, end, a) <==> t[x].1 == a || stands(t, x + 1, end, a),
{
    if stands(t, x, end, a) {
        let u = choose|u: int| x <= u < end && (#[trigger] t[u]).1 == a;
        if u > x {
            assert(x + 1 <= u < end && t[u].1 == a);
        }
    }
    if stands(t, x + 1, end, a) {
        let u = choose|u: int| x + 1 <= u < end && (#[trigger] t[u]).1 == a;
        assert(x <= u < end && t[u].1 == a);
    }
    if t[x].1 == a {
        assert(x <= x < end && t[x].1 == a);
    }
}

/// The fingerprints that two positions hold from a place on.
spec fn held_by_both(t: Seq<(Seq<u8>, int)>, i: int, a: int, b: int) -> Set<Seq<u8>> {
    Set::new(|h: Seq<u8>| holds(t, i, h, a) && holds(t, i, h, b))
}

/// Whether a position holds a fingerprint from a place on.
spec fn holds(t: Seq<(Seq<u8>, int)>, i: int, h: Seq<u8>, a: int) -> bool {
    exists|x: int| i <= x < t.len() && #[trigger] t[x] == (h, a)
}

/// A run is of one fingerprint, and those behind it are of others.
proof fn lemma_run(t: Seq<(Seq<u8>, int)>, i: int, j: int)
    requires
        0 <= i < j <= t.len(),
        seqs::strictly(t, sort::key_order()),
        forall|x: int| i <= x < j ==> (#[trigger] t[x]).0 == t[i].0,
    ensures
        ({
            let e = near_duplicates::run_end(t, i, j);
            &&& j <= e <= t.len()
            &&& forall|x: int| i <= x < e ==> (#[trigger] t[x]).0 == t[i].0
            &&& forall|x: int| e <= x < t.len() ==> (#[trigger] t[x]).0 != t[i].0
            &&& is_rising(t, i, e)
        }),
    decreases t.len() - j,
{
    let lt = sort::key_order();
    let e = near_duplicates::run_end(t, i, j);
    if j < t.len() && t[j].0 == t[i].0 {
        lemma_run(t, i, j + 1);
    } else {
        assert(e == j);
        assert forall|x: int| j <= x < t.len() implies (#[trigger] t[x]).0 != t[i].0 by {
            if x > j {
                assert(lt(t[i], t[j]));
                assert(lt(t[j], t[x]));
                if t[x].0 == t[i].0 {
                    text::lemma_bytes_trichotomy(t[i].0, t[j].0);
                    text::lemma_bytes_trichotomy(t[j].0, t[x].0);
                }
            }
        }
        assert forall|u: int, v: int| i <= u < v < j implies (#[trigger] t[u]).1 < (#[trigger] t[v]).1 by {
            assert(lt(t[u], t[v]));
            text::lemma_bytes_trichotomy(t[u].0, t[v].0);
        }
    }
}

/// Whether positions are few enough for no fingerprint to be held by too many.
spec fn are_few(t: Seq<(Seq<u8>, int)>) -> bool {
    forall|k: int| 0 <= k < t.len() ==> 0 <= (#[trigger] t[k]).1 < MAX_EPISODES_PER_HASH
}

/// Rising positions are as far apart as their places.
proof fn lemma_rises(t: Seq<(Seq<u8>, int)>, i: int, j: int, e: int)
    requires
        0 <= i <= j < e <= t.len(),
        is_rising(t, i, e),
    ensures
        t[j].1 - t[i].1 >= j - i,
    decreases j - i,
{
    if i < j {
        lemma_rises(t, i, j - 1, e);
        assert(t[j - 1].1 < t[j].1);
    }
}

/// A pair is told at most as often as the two hold a fingerprint in common, and as often where no
/// fingerprint is held by too many; a pair the wrong way round is never told.
#[verifier::rlimit(40)]
proof fn lemma_shared_from(t: Seq<(Seq<u8>, int)>, i: int, a: int, b: int)
    requires
        0 <= i <= t.len(),
        seqs::strictly(t, sort::key_order()),
    ensures
        held_by_both(t, i, a, b).finite(),
        near_duplicates::occurrences(near_duplicates::shared_from(t, i), (a, b)) <= held_by_both(t, i, a, b).len(),
        a >= b ==> near_duplicates::occurrences(near_duplicates::shared_from(t, i), (a, b)) == 0,
        a < b && are_few(t) ==> near_duplicates::occurrences(near_duplicates::shared_from(t, i), (a, b)) == held_by_both(
            t,
            i,
            a,
            b,
        ).len(),
    decreases t.len() - i,
{
    let all = held_by_both(t, i, a, b);
    if i < t.len() {
        let j = near_duplicates::run_end(t, i, i + 1);
        lemma_run(t, i, i + 1);
        lemma_shared_from(t, j, a, b);
        lemma_each_two(t, i, j, a, b);
        lemma_occurrences(near_duplicates::each_two(t, i, j), near_duplicates::shared_from(t, j), (a, b));
        let rest = held_by_both(t, j, a, b);
        let h = t[i].0;
        let here = stands(t, i, j, a) && stands(t, i, j, b);
        assert(!rest.contains(h)) by {
            if rest.contains(h) {
                let x = choose|x: int| j <= x < t.len() && #[trigger] t[x] == (h, a);
                assert(t[x].0 != t[i].0);
            }
        }
        assert forall|g: Seq<u8>, c: int| holds(t, i, g, c) <==> holds(t, j, g, c) || (g == h && stands(t, i, j, c)) by {
            if holds(t, i, g, c) {
                let x = choose|x: int| i <= x < t.len() && #[trigger] t[x] == (g, c);
                if x < j {
                    assert(i <= x < j && t[x].1 == c);
                } else {
                    assert(j <= x < t.len() && t[x] == (g, c));
                }
            }
            if holds(t, j, g, c) {
                let x = choose|x: int| j <= x < t.len() && #[trigger] t[x] == (g, c);
                assert(i <= x < t.len() && t[x] == (g, c));
            }
            if g == h && stands(t, i, j, c) {
                let x = choose|x: int| i <= x < j && (#[trigger] t[x]).1 == c;
                assert(t[x] == (g, c));
            }
        }
        assert forall|c: int| !#[trigger] holds(t, j, h, c) by {
            if holds(t, j, h, c) {
                let x = choose|x: int| j <= x < t.len() && #[trigger] t[x] == (h, c);
                assert(t[x].0 != t[i].0);
            }
        }
        if here {
            assert(all =~= rest.insert(h));
        } else {
            assert(all =~= rest);
        }
        if are_few(t) {
            lemma_rises(t, i, j - 1, j);
            assert(t[i].1 >= 0 && t[j - 1].1 < MAX_EPISODES_PER_HASH);
            assert(j - i <= MAX_EPISODES_PER_HASH);
        }
    } else {
        assert(all =~= Set::empty()) by {
            assert forall|g: Seq<u8>| !all.contains(g) by {
                if holds(t, i, g, a) {
                    let x = choose|x: int| i <= x < t.len() && #[trigger] t[x] == (g, a);
                }
            }
        }
    }
}

// ---- episodes with evidence ------------------------------------------------------------------

/// An episode with its evidence.
spec fn item_of(e: Episode) -> ItemView {
    ItemView {
        index: e.index,
        streams: near_duplicates::evidence(e.streams@),
        signature: duplicates::signature_of(e),
    }
}

/// An episode where it has evidence.
spec fn itemized() -> spec_fn(Episode) -> Seq<ItemView> {
    |e: Episode| if near_duplicates::evidence(e.streams@).len() > 0 { seq![item_of(e)] } else { Seq::empty() }
}

/// The episodes with evidence, gathered.
proof fn lemma_items(s: Seq<Episode>)
    ensures
        near_duplicates::items_of(s) == seqs::gather(s, itemized()),
    decreases s.len(),
{
    if s.len() > 0 {
        lemma_items(s.drop_last());
        assert(near_duplicates::items_of(s) =~= near_duplicates::items_of(s.drop_last()) + itemized()(s.last()));
    }
}

/// An episode that something speaks for has evidence.
proof fn lemma_has_evidence(e: Episode, k: int, name: Seq<char>)
    requires
        speaks(e, k, name),
    ensures
        near_duplicates::evidence(e.streams@).len() > 0,
{
    lemma_speaker(e, k, name);
}

/// Whether positions in a list of items are those of episodes.
spec fn is_item(items: Seq<ItemView>, a: int, e: Episode) -> bool {
    0 <= a < items.len() && items[a] == item_of(e)
}

/// Whether all items are of episodes.
spec fn are_items(items: Seq<ItemView>) -> bool {
    forall|a: int| 0 <= a < items.len() ==> exists|e: Episode| (#[trigger] items[a]) == #[trigger] item_of(e)
}

/// Items of episodes hold each fingerprint once.
proof fn lemma_apart(items: Seq<ItemView>, name: Seq<char>)
    requires
        are_items(items),
    ensures
        are_apart(items, name),
{
    assert forall|a: int| 0 <= a < items.len() implies (near_duplicates::hashes_named((#[trigger] items[a]).streams, name)
        matches Some(hs) ==> hs.no_duplicates()) by {
        let e = choose|e: Episode| items[a] == #[trigger] item_of(e);
        if near_duplicates::hashes_named(items[a].streams, name) is Some {
            let k = lemma_spoken_for(e, name);
            lemma_speaker(e, k, name);
            lemma_prints(e.streams@[k].frames@);
        }
    }
}

/// A name under which an item has evidence is among the names.
proof fn lemma_named(items: Seq<ItemView>, a: int, name: Seq<char>)
    requires
        0 <= a < items.len(),
        near_duplicates::hashes_named(items[a].streams, name) is Some,
    ensures
        near_duplicates::evidence_names(items).contains(name),
{
    lemma_name_in(items, a, name);
    seqs::lemma_distinct_contains(near_duplicates::names_in(items), seqs::text_order(), name);
}

/// A name under which an item has evidence is among the names in the items.
proof fn lemma_name_in(items: Seq<ItemView>, a: int, name: Seq<char>)
    requires
        0 <= a < items.len(),
        near_duplicates::hashes_named(items[a].streams, name) is Some,
    ensures
        near_duplicates::names_in(items).contains(name),
    decreases items.len(),
{
    let rest = items.drop_last();
    let here = near_duplicates::stream_names(items.last().streams);
    found::lemma_both(near_duplicates::names_in(rest), here, name);
    if a < items.len() - 1 {
        assert(rest[a] == items[a]);
        lemma_name_in(rest, a, name);
    } else {
        lemma_found_name(items.last().streams, name);
    }
}

/// A name under which there is evidence is that of a stream.
proof fn lemma_found_name(s: Seq<EvidenceView>, name: Seq<char>)
    requires
        near_duplicates::hashes_named(s, name) is Some,
    ensures
        near_duplicates::stream_names(s).contains(name),
    decreases s.len(),
{
    let all = near_duplicates::stream_names(s);
    if s[0].name == name {
        assert(all[0] == name);
    } else {
        lemma_found_name(s.skip(1), name);
        let rest = near_duplicates::stream_names(s.skip(1));
        let k = choose|k: int| 0 <= k < rest.len() && rest[k] == name;
        assert(all[k + 1] == name);
    }
}

// ---- the weakest stream ----------------------------------------------------------------------

/// How often a pair is told under a name.
spec fn told(items: Seq<ItemView>, name: Seq<char>, p: (int, int)) -> nat {
    near_duplicates::occurrences(near_duplicates::shared(items, name), p)
}

/// Whether both of a pair have evidence under a name.
spec fn both_have(items: Seq<ItemView>, name: Seq<char>, p: (int, int)) -> bool {
    near_duplicates::hashes_named(items[p.0].streams, name) is Some && near_duplicates::hashes_named(items[p.1].streams, name)
        is Some
}

/// The share of a pair under a name.
spec fn share(items: Seq<ItemView>, name: Seq<char>, p: (int, int)) -> u64 {
    let (x, y) = (
        near_duplicates::hashes_named(items[p.0].streams, name)->0,
        near_duplicates::hashes_named(items[p.1].streams, name)->0,
    );
    number::nearest_bits(told(items, name, p), near_duplicates::lesser(x.len(), y.len())) as u64
}

/// The weakest share is no greater than any, and is one of them where it is not infinite.
#[verifier::rlimit(40)]
proof fn lemma_weakest(items: Seq<ItemView>, names: Seq<Seq<char>>, p: (int, int))
    ensures
        forall|k: int|
            0 <= k < names.len() && both_have(items, #[trigger] names[k], p) ==> near_duplicates::weakest(items, names, p)
                <= share(items, names[k], p),
        near_duplicates::weakest(items, names, p) == number::INFINITY || exists|k: int|
            0 <= k < names.len() && both_have(items, #[trigger] names[k], p) && near_duplicates::weakest(items, names, p)
                == share(items, names[k], p),
    decreases names.len(),
{
    if names.len() > 0 {
        let rest = names.drop_last();
        lemma_weakest(items, rest, p);
        let w = near_duplicates::weakest(items, names, p);
        let n = names.len() - 1;
        assert forall|k: int| 0 <= k < names.len() && both_have(items, #[trigger] names[k], p) implies w <= share(
            items,
            names[k],
            p,
        ) by {
            if k < n {
                assert(rest[k] == names[k]);
            }
        }
        if w != number::INFINITY {
            if both_have(items, names[n], p) && w == share(items, names[n], p) {
            } else {
                let k = choose|k: int|
                    0 <= k < rest.len() && both_have(items, #[trigger] rest[k], p) && near_duplicates::weakest(items, rest, p)
                        == share(items, rest[k], p);
                assert(rest[k] == names[k]);
                assert(both_have(items, names[k], p));
            }
        }
    }
}

/// How often a pair is told under a name that something speaks for both under: at most as often as
/// they have a fingerprint in common, and as often where there are few episodes.
#[verifier::rlimit(40)]
proof fn lemma_told(items: Seq<ItemView>, p: (int, int), a: Episode, b: Episode, name: Seq<char>, k: int, l: int)
    requires
        are_items(items),
        is_item(items, p.0, a),
        is_item(items, p.1, b),
        p.0 < p.1,
        speaks(a, k, name),
        speaks(b, l, name),
    ensures
        both_have(items, name, p),
        told(items, name, p) <= common(a.streams@[k], b.streams@[l]) <= fewer(a.streams@[k], b.streams@[l]),
        items.len() <= MAX_EPISODES_PER_HASH ==> told(items, name, p) == common(a.streams@[k], b.streams@[l]),
        share(items, name, p) == number::nearest_bits(told(items, name, p), fewer(a.streams@[k], b.streams@[l])),
        share(items, name, p) < number::INFINITY,
{
    let t = near_duplicates::runs(items, name);
    let (fa, fb) = (a.streams@[k].frames@, b.streams@[l].frames@);
    let (x, y) = (near_duplicates::hash_set(fa), near_duplicates::hash_set(fb));
    lemma_speaker(a, k, name);
    lemma_speaker(b, l, name);
    lemma_prints(fa);
    lemma_prints(fb);
    lemma_apart(items, name);
    lemma_runs(items, name);
    lemma_shared_from(t, 0, p.0, p.1);
    let both = held_by_both(t, 0, p.0, p.1);
    assert forall|h: Seq<u8>| both.contains(h) <==> prints(fa).intersect(prints(fb)).contains(h) by {
        lemma_runs_hold(items, name, h, p.0);
        lemma_runs_hold(items, name, h, p.1);
        assert(x.to_set().contains(h) == x.contains(h));
        assert(y.to_set().contains(h) == y.contains(h));
        if t.contains((h, p.0)) {
            let u = choose|u: int| 0 <= u < t.len() && t[u] == (h, p.0);
            assert(holds(t, 0, h, p.0));
        }
        if t.contains((h, p.1)) {
            let u = choose|u: int| 0 <= u < t.len() && t[u] == (h, p.1);
            assert(holds(t, 0, h, p.1));
        }
        if holds(t, 0, h, p.0) {
            let u = choose|u: int| 0 <= u < t.len() && #[trigger] t[u] == (h, p.0);
            assert(t.contains((h, p.0)));
        }
        if holds(t, 0, h, p.1) {
            let u = choose|u: int| 0 <= u < t.len() && #[trigger] t[u] == (h, p.1);
            assert(t.contains((h, p.1)));
        }
    }
    assert(both =~= prints(fa).intersect(prints(fb)));
    vstd::set_lib::lemma_len_intersect(prints(fa), prints(fb));
    vstd::set_lib::lemma_len_intersect(prints(fb), prints(fa));
    assert(prints(fa).intersect(prints(fb)) =~= prints(fb).intersect(prints(fa)));
    if items.len() <= MAX_EPISODES_PER_HASH {
        assert forall|u: int| 0 <= u < t.len() implies 0 <= (#[trigger] t[u]).1 < MAX_EPISODES_PER_HASH by {
            assert(t.contains(t[u]));
            assert(t.contains((t[u].0, t[u].1)));
            lemma_runs_hold(items, name, t[u].0, t[u].1);
        }
    }
    let n = told(items, name, p);
    let m = fewer(a.streams@[k], b.streams@[l]);
    let size = a.streams@[k].frames.len();
    if n > 0 {
        number::lemma_share(n, m);
    }
}

/// How often a pair is told is how often it is in the list.
proof fn lemma_told_is_listed(s: Seq<(int, int)>, p: (int, int))
    ensures
        near_duplicates::occurrences(s, p) > 0 <==> s.contains(p),
    decreases s.len(),
{
    if s.len() > 0 {
        let rest = s.drop_last();
        lemma_told_is_listed(rest, p);
        assert(s =~= rest.push(s.last()));
        found::lemma_one_more(rest, s.last(), p);
    }
}

/// A pair shares something where it does under some name.
proof fn lemma_all_shared(items: Seq<ItemView>, names: Seq<Seq<char>>, p: (int, int))
    ensures
        near_duplicates::all_shared(items, names).contains(p) <==> exists|k: int|
            0 <= k < names.len() && told(items, #[trigger] names[k], p) > 0,
    decreases names.len(),
{
    if names.len() > 0 {
        let rest = names.drop_last();
        let n = names.len() - 1;
        lemma_all_shared(items, rest, p);
        let here = near_duplicates::shared(items, names.last());
        found::lemma_both(near_duplicates::all_shared(items, rest), here, p);
        lemma_told_is_listed(here, p);
        if near_duplicates::all_shared(items, rest).contains(p) {
            let k = choose|k: int| 0 <= k < rest.len() && told(items, #[trigger] rest[k], p) > 0;
            assert(told(items, names[k], p) > 0);
        }
        if here.contains(p) {
            assert(told(items, names[n], p) > 0);
        }
        if exists|k: int| 0 <= k < names.len() && told(items, #[trigger] names[k], p) > 0 {
            let k = choose|k: int| 0 <= k < names.len() && told(items, #[trigger] names[k], p) > 0;
            if k < n {
                assert(told(items, rest[k], p) > 0);
            }
        }
    }
}

/// A pair that is told of is one of two that have evidence under the name, the lesser first.
proof fn lemma_told_of(items: Seq<ItemView>, name: Seq<char>, p: (int, int))
    requires
        are_items(items),
        told(items, name, p) > 0,
    ensures
        0 <= p.0 < p.1 < items.len(),
        both_have(items, name, p),
{
    let t = near_duplicates::runs(items, name);
    lemma_apart(items, name);
    lemma_runs(items, name);
    lemma_shared_from(t, 0, p.0, p.1);
    let both = held_by_both(t, 0, p.0, p.1);
    vstd::set_lib::lemma_set_empty_equivalency_len(both);
    let h = choose|h: Seq<u8>| both.contains(h);
    let u = choose|u: int| 0 <= u < t.len() && #[trigger] t[u] == (h, p.0);
    let v = choose|v: int| 0 <= v < t.len() && #[trigger] t[v] == (h, p.1);
    assert(t.contains((h, p.0)) && t.contains((h, p.1)));
    lemma_runs_hold(items, name, h, p.0);
    lemma_runs_hold(items, name, h, p.1);
}

// ---- what is flagged -------------------------------------------------------------------------

/// Whether two episodes can be near-duplicates: they have a fingerprint in common in some stream that
/// speaks for both, in every stream that speaks for both they have enough of those that count in
/// common, and they are no exact copies. A fingerprint that too many episodes hold does not count.
pub open spec fn may_be_near(min: u64, a: Episode, b: Episode) -> bool {
    &&& exists|name: Seq<char>, k: int, l: int|
        #[trigger] speaks(a, k, name) && #[trigger] speaks(b, l, name) && common(a.streams@[k], b.streams@[l]) > 0
    &&& forall|name: Seq<char>, k: int, l: int|
        #[trigger] speaks(a, k, name) && #[trigger] speaks(b, l, name) ==> exists|n: nat|
            n <= common(a.streams@[k], b.streams@[l]) && #[trigger] reaches(n, fewer(a.streams@[k], b.streams@[l]), min)
    &&& !(duplicates::signature_of(a) is Some && duplicates::signature_of(a) == duplicates::signature_of(b))
}

/// A flagged pair that shares something is one that can be near-duplicates, and is one where there are
/// few episodes.
#[verifier::rlimit(40)]
proof fn lemma_flagged(items: Seq<ItemView>, min: u64, p: (int, int), a: Episode, b: Episode)
    requires
        are_items(items),
        is_item(items, p.0, a),
        is_item(items, p.1, b),
        p.0 < p.1,
        near_duplicates::all_shared(items, near_duplicates::evidence_names(items)).contains(p),
        near_duplicates::is_flagged(items, near_duplicates::evidence_names(items), min, p),
    ensures
        may_be_near(min, a, b),
        items.len() <= MAX_EPISODES_PER_HASH ==> are_near(min, a, b),
{
    let names = near_duplicates::evidence_names(items);
    let w = near_duplicates::weakest(items, names, p);
    lemma_weakest(items, names, p);
    lemma_all_shared(items, names, p);
    let z = choose|z: int| 0 <= z < names.len() && told(items, #[trigger] names[z], p) > 0;
    lemma_told_of(items, names[z], p);
    let (k0, l0) = (lemma_spoken_for(a, names[z]), lemma_spoken_for(b, names[z]));
    lemma_told(items, p, a, b, names[z], k0, l0);
    assert(speaks(a, k0, names[z]) && speaks(b, l0, names[z]) && common(a.streams@[k0], b.streams@[l0]) > 0);
    assert forall|name: Seq<char>, k: int, l: int|
        #[trigger] speaks(a, k, name) && #[trigger] speaks(b, l, name) implies reaches(
        told(items, name, p),
        fewer(a.streams@[k], b.streams@[l]),
        min,
    ) && told(items, name, p) <= common(a.streams@[k], b.streams@[l]) && (items.len() <= MAX_EPISODES_PER_HASH ==> told(
        items,
        name,
        p,
    ) == common(a.streams@[k], b.streams@[l])) by {
        lemma_told(items, p, a, b, name, k, l);
        lemma_named(items, p.0, name);
        let x = choose|x: int| 0 <= x < names.len() && names[x] == name;
        assert(both_have(items, names[x], p));
        assert(w <= share(items, name, p));
        assert(number::rank(w) == w);
    }
}

/// Near-duplicates share something and are flagged, where there are few episodes.
proof fn lemma_near_is_flagged(items: Seq<ItemView>, min: u64, p: (int, int), a: Episode, b: Episode)
    requires
        are_items(items),
        is_item(items, p.0, a),
        is_item(items, p.1, b),
        p.0 < p.1,
        items.len() <= MAX_EPISODES_PER_HASH,
        are_near(min, a, b),
    ensures
        near_duplicates::all_shared(items, near_duplicates::evidence_names(items)).contains(p),
        near_duplicates::is_flagged(items, near_duplicates::evidence_names(items), min, p),
{
    let names = near_duplicates::evidence_names(items);
    let w = near_duplicates::weakest(items, names, p);
    lemma_weakest(items, names, p);
    lemma_all_shared(items, names, p);
    let (name, k, l) = choose|name: Seq<char>, k: int, l: int|
        #[trigger] speaks(a, k, name) && #[trigger] speaks(b, l, name) && common(a.streams@[k], b.streams@[l]) > 0;
    lemma_told(items, p, a, b, name, k, l);
    lemma_named(items, p.0, name);
    let x = choose|x: int| 0 <= x < names.len() && names[x] == name;
    assert(told(items, names[x], p) > 0);
    assert(both_have(items, names[x], p));
    assert(w <= share(items, names[x], p));
    assert(w != number::INFINITY);
    let z = choose|z: int| 0 <= z < names.len() && both_have(items, #[trigger] names[z], p) && w == share(items, names[z], p);
    let (u, v) = (lemma_spoken_for(a, names[z]), lemma_spoken_for(b, names[z]));
    lemma_told(items, p, a, b, names[z], u, v);
    assert(speaks(a, u, names[z]) && speaks(b, v, names[z]));
    assert(number::rank(w) == w);
}

/// What is flagged among pairs is what is flagged of them.
#[verifier::rlimit(40)]
proof fn lemma_flagged_list(items: Seq<ItemView>, names: Seq<Seq<char>>, min: u64, pairs: Seq<(int, int)>)
    ensures
        forall|k: int|
            0 <= k < near_duplicates::flagged(items, names, min, pairs).len() ==> {
                let x = #[trigger] near_duplicates::flagged(items, names, min, pairs)[k];
                pairs.contains((x.0, x.1)) && near_duplicates::is_flagged(items, names, min, (x.0, x.1))
            },
        forall|p: (int, int)|
            #[trigger] pairs.contains(p) && near_duplicates::is_flagged(items, names, min, p) ==> near_duplicates::flagged(
                items,
                names,
                min,
                pairs,
            ).contains((p.0, p.1, near_duplicates::weakest(items, names, p))),
    decreases pairs.len(),
{
    if pairs.len() > 0 {
        let rest = pairs.drop_last();
        let q = pairs.last();
        lemma_flagged_list(items, names, min, rest);
        let (old, all) = (
            near_duplicates::flagged(items, names, min, rest),
            near_duplicates::flagged(items, names, min, pairs),
        );
        let last = (q.0, q.1, near_duplicates::weakest(items, names, q));
        assert(pairs =~= rest.push(q));
        assert forall|k: int| 0 <= k < all.len() implies ({
            let x = #[trigger] all[k];
            pairs.contains((x.0, x.1)) && near_duplicates::is_flagged(items, names, min, (x.0, x.1))
        }) by {
            let x = all[k];
            found::lemma_one_more(rest, q, (x.0, x.1));
            if k < old.len() {
                assert(old[k] == all[k]);
            } else {
                assert(x == last);
                assert((x.0, x.1) == q);
            }
        }
        assert forall|p: (int, int)| #[trigger] pairs.contains(p) && near_duplicates::is_flagged(items, names, min, p) implies all.contains(
        (p.0, p.1, near_duplicates::weakest(items, names, p))) by {
            found::lemma_one_more(rest, q, p);
            let x = (p.0, p.1, near_duplicates::weakest(items, names, p));
            if rest.contains(p) {
                assert(old.contains(x));
            }
            if near_duplicates::is_flagged(items, names, min, q) {
                found::lemma_one_more(old, last, x);
            }
        }
    }
}

/// The distinct elements of a list are its elements, each once.
proof fn lemma_first_seen(s: Seq<(int, int)>)
    ensures
        near_duplicates::first_seen(s).no_duplicates(),
        forall|p: (int, int)| #[trigger] near_duplicates::first_seen(s).contains(p) <==> s.contains(p),
    decreases s.len(),
{
    if s.len() > 0 {
        let rest = s.drop_last();
        let old = near_duplicates::first_seen(rest);
        lemma_first_seen(rest);
        assert(s =~= rest.push(s.last()));
        assert forall|p: (int, int)| #[trigger] near_duplicates::first_seen(s).contains(p) <==> s.contains(p) by {
            found::lemma_one_more(rest, s.last(), p);
            found::lemma_one_more(old, s.last(), p);
            assert(old.contains(p) <==> rest.contains(p));
        }
        if !old.contains(s.last()) {
            let all = old.push(s.last());
            assert forall|i: int, j: int| 0 <= i < j < all.len() implies all[i] != all[j] by {
                if j < old.len() {
                    assert(old[i] != old[j]);
                } else {
                    assert(old.contains(old[i]));
                }
            }
        }
    } else {
        assert(near_duplicates::first_seen(s) =~= Seq::empty());
    }
}

/// Distinct pairs of positions are no more than the square of how many positions there are.
#[verifier::rlimit(40)]
proof fn lemma_few_pairs(s: Seq<(int, int)>, n: int)
    requires
        s.no_duplicates(),
        forall|k: int| 0 <= k < s.len() ==> 0 <= (#[trigger] s[k]).0 < n && 0 <= s[k].1 < n,
    ensures
        s.len() <= n * n,
{
    broadcast use vstd::seq_lib::seq_to_set_is_finite;

    let c = s.map_values(|p: (int, int)| p.0 * n + p.1);
    assert forall|i: int, j: int| 0 <= i < c.len() && 0 <= j < c.len() && i != j implies c[i] != c[j] by {
        let (p, q) = (s[i], s[j]);
        assert(p != q);
        assert(p.0 * n + p.1 != q.0 * n + q.1) by (nonlinear_arith)
            requires
                0 <= p.1 < n,
                0 <= q.1 < n,
                p.0 != q.0 || p.1 != q.1,
        ;
    }
    c.unique_seq_to_set();
    if s.len() > 0 {
        assert(0 <= s[0].0 < n);
    }
    assert(n * n >= 0) by (nonlinear_arith);
    vstd::set_lib::lemma_int_range(0, n * n);
    assert forall|x: int| c.to_set().contains(x) implies vstd::set_lib::set_int_range(0, n * n).contains(x) by {
        let k = choose|k: int| 0 <= k < c.len() && c[k] == x;
        let p = s[k];
        assert(0 <= p.0 * n + p.1 < n * n) by (nonlinear_arith)
            requires
                0 <= p.0 < n,
                0 <= p.1 < n,
        ;
    }
    vstd::set_lib::lemma_len_subset(c.to_set(), vstd::set_lib::set_int_range(0, n * n));
}

// ---- what is reported ------------------------------------------------------------------------

/// Whether flagged pairs are of the first so many.
spec fn within(s: Seq<(int, int, u64)>, n: int) -> bool {
    forall|k: int| 0 <= k < s.len() ==> 0 <= (#[trigger] s[k]).0 < n && 0 <= s[k].1 < n
}

/// Labels are among the positions, and the two of each pair have the same.
proof fn lemma_labels(n: nat, s: Seq<(int, int, u64)>)
    requires
        within(s, n as int),
    ensures
        near_duplicates::labels(n, s).len() == n,
        forall|i: int| 0 <= i < n ==> 0 <= #[trigger] near_duplicates::labels(n, s)[i] < n,
        forall|k: int|
            0 <= k < s.len() ==> near_duplicates::labels(n, s)[(#[trigger] s[k]).0] == near_duplicates::labels(n, s)[s[k].1],
    decreases s.len(),
{
    if s.len() > 0 {
        let rest = s.drop_last();
        assert(within(rest, n as int)) by {
            assert forall|k: int| 0 <= k < rest.len() implies 0 <= (#[trigger] rest[k]).0 < n && 0 <= rest[k].1 < n by {
                assert(rest[k] == s[k]);
            }
        }
        lemma_labels(n, rest);
        let old = near_duplicates::labels(n, rest);
        let all = near_duplicates::labels(n, s);
        let last = s[s.len() - 1];
        assert(0 <= last.0 < n && 0 <= last.1 < n);
        assert forall|k: int| 0 <= k < s.len() implies all[(#[trigger] s[k]).0] == all[s[k].1] by {
            assert(0 <= s[k].0 < n && 0 <= s[k].1 < n);
            if k < rest.len() {
                assert(rest[k] == s[k]);
                assert(old[rest[k].0] == old[rest[k].1]);
            }
        }
    }
}

/// A group holds the two of each pair under its label.
proof fn lemma_members(items: Seq<ItemView>, l: Seq<int>, s: Seq<(int, int, u64)>, label: int, k: int)
    requires
        0 <= k < s.len(),
        l[s[k].0] == label,
    ensures
        near_duplicates::members(items, l, s, label).contains(items[s[k].0].index),
        near_duplicates::members(items, l, s, label).contains(items[s[k].1].index),
    decreases s.len(),
{
    let rest = s.drop_last();
    let old = near_duplicates::members(items, l, rest, label);
    let last = s.last();
    let (x, y) = (items[last.0].index, items[last.1].index);
    let one = seqs::with_new(old, x, seqs::number_order());
    let (u, v) = (items[s[k].0].index, items[s[k].1].index);
    if k < rest.len() {
        assert(rest[k] == s[k]);
        lemma_members(items, l, rest, label, k);
    }
    seqs::lemma_with_new_contains(old, x, seqs::number_order(), u);
    seqs::lemma_with_new_contains(old, x, seqs::number_order(), v);
    seqs::lemma_with_new_contains(one, y, seqs::number_order(), u);
    seqs::lemma_with_new_contains(one, y, seqs::number_order(), v);
}

/// A group without pairs is empty.
proof fn lemma_no_members(items: Seq<ItemView>, l: Seq<int>, s: Seq<(int, int, u64)>, label: int)
    requires
        near_duplicates::members(items, l, s, label).len() > 0,
    ensures
        s.len() > 0,
{
}

/// The groups up to a label.
proof fn lemma_near_findings(items: Seq<ItemView>, l: Seq<int>, s: Seq<(int, int, u64)>, n: nat, f: FindingView)
    ensures
        near_duplicates::near_findings(items, l, s, n).contains(f) <==> exists|k: int|
            0 <= k < n && #[trigger] near_duplicates::members(items, l, s, k).len() > 0 && f == near_duplicates::near_finding(
                near_duplicates::members(items, l, s, k),
                near_duplicates::overlap(l, s, k),
            ),
    decreases n,
{
    if n > 0 {
        lemma_near_findings(items, l, s, (n - 1) as nat, f);
        let rest = near_duplicates::near_findings(items, l, s, (n - 1) as nat);
        let group = near_duplicates::members(items, l, s, n - 1);
        found::lemma_one_more(
            rest,
            near_duplicates::near_finding(group, near_duplicates::overlap(l, s, n - 1)),
            f,
        );
    }
}

/// The pairs flagged in a dataset.
spec fn flagged_in(check: NearDuplicateEpisode, dataset: &Dataset) -> Seq<(int, int, u64)> {
    let items = near_duplicates::items_of(dataset.episodes@);
    let names = near_duplicates::evidence_names(items);
    near_duplicates::flagged(
        items,
        names,
        check.min_overlap,
        near_duplicates::held_pairs(near_duplicates::all_shared(items, names)),
    )
}

/// Items are of episodes.
proof fn lemma_are_items(eps: Seq<Episode>)
    ensures
        are_items(near_duplicates::items_of(eps)),
{
    let items = near_duplicates::items_of(eps);
    lemma_items(eps);
    assert forall|a: int| 0 <= a < items.len() implies exists|e: Episode| (#[trigger] items[a]) == #[trigger] item_of(e) by {
        let x = found::lemma_gather_from(eps, itemized(), a);
        assert(items[a] == item_of(eps[x]));
    }
}

/// The episodes of two items, in order.
proof fn lemma_episodes_of(eps: Seq<Episode>, a: int, b: int) -> (r: (int, int))
    requires
        0 <= a < b < near_duplicates::items_of(eps).len(),
    ensures
        0 <= r.0 < r.1 < eps.len(),
        is_item(near_duplicates::items_of(eps), a, eps[r.0]),
        is_item(near_duplicates::items_of(eps), b, eps[r.1]),
{
    lemma_items(eps);
    let x = found::lemma_gather_from(eps, itemized(), a);
    let y = found::lemma_gather_from(eps, itemized(), b);
    if y <= x {
        found::lemma_gather_grows(eps, itemized(), y, x);
    }
    (x, y)
}

/// The items of two episodes with evidence, in order.
proof fn lemma_items_of(eps: Seq<Episode>, x: int, y: int) -> (r: (int, int))
    requires
        0 <= x < y < eps.len(),
        near_duplicates::evidence(eps[x].streams@).len() > 0,
        near_duplicates::evidence(eps[y].streams@).len() > 0,
    ensures
        0 <= r.0 < r.1 < near_duplicates::items_of(eps).len(),
        is_item(near_duplicates::items_of(eps), r.0, eps[x]),
        is_item(near_duplicates::items_of(eps), r.1, eps[y]),
{
    lemma_items(eps);
    found::lemma_gather_at(eps, itemized(), x);
    found::lemma_gather_at(eps, itemized(), y);
    found::lemma_gather_grows(eps, itemized(), x, y);
    (seqs::gather(eps.take(x), itemized()).len() as int, seqs::gather(eps.take(y), itemized()).len() as int)
}

/// There are no more items than episodes.
proof fn lemma_fewer_items(eps: Seq<Episode>)
    ensures
        near_duplicates::items_of(eps).len() <= eps.len(),
    decreases eps.len(),
{
    if eps.len() > 0 {
        lemma_fewer_items(eps.drop_last());
    }
}

/// A pair that is flagged is of two episodes that can be near-duplicates.
proof fn lemma_flagged_are_near(check: NearDuplicateEpisode, dataset: &Dataset, k: int) -> (r: (int, int))
    requires
        0 <= k < flagged_in(check, dataset).len(),
    ensures
        0 <= r.0 < r.1 < dataset.episodes@.len(),
        may_be_near(check.min_overlap, dataset.episodes@[r.0], dataset.episodes@[r.1]),
        dataset.episodes@.len() <= MAX_EPISODES_PER_HASH ==> are_near(
            check.min_overlap,
            dataset.episodes@[r.0],
            dataset.episodes@[r.1],
        ),
        0 <= flagged_in(check, dataset)[k].0 < flagged_in(check, dataset)[k].1 < near_duplicates::items_of(
            dataset.episodes@,
        ).len(),
{
    let eps = dataset.episodes@;
    let items = near_duplicates::items_of(eps);
    let names = near_duplicates::evidence_names(items);
    let pairs = near_duplicates::all_shared(items, names);
    let held = near_duplicates::held_pairs(pairs);
    lemma_flagged_list(items, names, check.min_overlap, held);
    lemma_first_seen(pairs);
    let x = flagged_in(check, dataset)[k];
    let p = (x.0, x.1);
    assert(held.contains(p));
    let h = choose|h: int| 0 <= h < held.len() && held[h] == p;
    assert(near_duplicates::first_seen(pairs)[h] == p);
    assert(near_duplicates::first_seen(pairs).contains(p));
    assert(pairs.contains(p));
    lemma_are_items(eps);
    lemma_all_shared(items, names, p);
    let z = choose|z: int| 0 <= z < names.len() && told(items, #[trigger] names[z], p) > 0;
    lemma_told_of(items, names[z], p);
    let r = lemma_episodes_of(eps, p.0, p.1);
    lemma_fewer_items(eps);
    lemma_flagged(items, check.min_overlap, p, eps[r.0], eps[r.1]);
    r
}

/// The codes of the check tell near-duplicates from an abstention.
proof fn lemma_codes()
    ensures
        NEAR_CODE@ != NEAR_UNCHECKED_CODE@,
{
    reveal_strlit("STRUCTURAL.NEAR_DUPLICATE_EPISODE");
    reveal_strlit("STRUCTURAL.NEAR_DUPLICATE_UNCHECKED");
    assert(NEAR_CODE@.len() != NEAR_UNCHECKED_CODE@.len());
}

/// Near-duplicates are reported only where two episodes are: they have a fingerprint in common, and in
/// **every** stream that speaks for both, enough of them. A stream in which they have none in common
/// rules a pair out, for any positive threshold.
#[verifier::rlimit(40)]
pub proof fn law_only_near_duplicates_are_reported(check: NearDuplicateEpisode, dataset: &Dataset)
    requires
        found::finds_any(check.report(dataset), NEAR_CODE@),
    ensures
        exists|i: int, j: int|
            0 <= i < j < dataset.episodes@.len() && may_be_near(
                check.min_overlap,
                #[trigger] dataset.episodes@[i],
                #[trigger] dataset.episodes@[j],
            ),
        dataset.episodes@.len() <= MAX_EPISODES_PER_HASH ==> exists|i: int, j: int|
            0 <= i < j < dataset.episodes@.len() && are_near(
                check.min_overlap,
                #[trigger] dataset.episodes@[i],
                #[trigger] dataset.episodes@[j],
            ),
{
    let eps = dataset.episodes@;
    let report = check.report(dataset);
    let items = near_duplicates::items_of(eps);
    let names = near_duplicates::evidence_names(items);
    let pairs = near_duplicates::all_shared(items, names);
    let s = flagged_in(check, dataset);
    let l = near_duplicates::labels(items.len(), s);
    let k = choose|k: int| 0 <= k < report.len() && (#[trigger] report[k]).code == NEAR_CODE@;
    let quiet = near_duplicates::abstention(
        near_duplicates::first_seen(pairs).len() > MAX_TRACKED_PAIRS,
        near_duplicates::missing(near_duplicates::all_examined(items, names), items.len()),
    );
    lemma_codes();
    assert(k >= quiet.len()) by {
        if k < quiet.len() {
            assert(report[k] == quiet[k]);
        }
    }
    let f = report[k];
    let near = near_duplicates::near_findings(items, l, s, items.len());
    assert(near[k - quiet.len()] == f);
    assert(near.contains(f));
    lemma_near_findings(items, l, s, items.len(), f);
    let g = choose|g: int|
        0 <= g < items.len() && #[trigger] near_duplicates::members(items, l, s, g).len() > 0 && f
            == near_duplicates::near_finding(near_duplicates::members(items, l, s, g), near_duplicates::overlap(l, s, g));
    lemma_no_members(items, l, s, g);
    let r = lemma_flagged_are_near(check, dataset, 0);
    assert(may_be_near(check.min_overlap, eps[r.0], eps[r.1]));
    if eps.len() <= MAX_EPISODES_PER_HASH {
        assert(are_near(check.min_overlap, eps[r.0], eps[r.1]));
    }
}

/// Two near-duplicates are reported together, in one finding that names both, where the dataset is not
/// too large for all its pairs to be compared.
#[verifier::rlimit(40)]
pub proof fn law_near_duplicates_are_reported(check: NearDuplicateEpisode, dataset: &Dataset, i: int, j: int)
    requires
        dataset.episodes@.len() <= MAX_EPISODES_PER_HASH,
        dataset.episodes@.len() * dataset.episodes@.len() <= MAX_TRACKED_PAIRS,
        0 <= i < j < dataset.episodes@.len(),
        are_near(check.min_overlap, dataset.episodes@[i], dataset.episodes@[j]),
    ensures
        exists|group: Seq<u64>, share: u64|
            check.report(dataset).contains(#[trigger] near_duplicates::near_finding(group, share)) && group.contains(
                dataset.episodes@[i].index,
            ) && group.contains(dataset.episodes@[j].index),
        found::finds_any(check.report(dataset), NEAR_CODE@),
{
    let eps = dataset.episodes@;
    let report = check.report(dataset);
    let items = near_duplicates::items_of(eps);
    let names = near_duplicates::evidence_names(items);
    let pairs = near_duplicates::all_shared(items, names);
    let s = flagged_in(check, dataset);
    let l = near_duplicates::labels(items.len(), s);
    let (a, b) = (eps[i], eps[j]);
    let (name, k, m) = choose|name: Seq<char>, k: int, m: int|
        #[trigger] speaks(a, k, name) && #[trigger] speaks(b, m, name) && common(a.streams@[k], b.streams@[m]) > 0;
    lemma_has_evidence(a, k, name);
    lemma_has_evidence(b, m, name);
    let p = lemma_items_of(eps, i, j);
    lemma_are_items(eps);
    lemma_fewer_items(eps);
    lemma_near_is_flagged(items, check.min_overlap, p, a, b);
    // All pairs are held.
    let first = near_duplicates::first_seen(pairs);
    lemma_first_seen(pairs);
    let n = items.len() as int;
    assert forall|x: int| 0 <= x < first.len() implies 0 <= (#[trigger] first[x]).0 < n && 0 <= first[x].1 < n by {
        assert(first.contains(first[x]));
        assert(pairs.contains(first[x]));
        lemma_all_shared(items, names, first[x]);
        let z = choose|z: int| 0 <= z < names.len() && told(items, #[trigger] names[z], first[x]) > 0;
        lemma_told_of(items, names[z], first[x]);
    }
    lemma_few_pairs(first, n);
    assert(n * n <= eps.len() * eps.len()) by (nonlinear_arith)
        requires
            0 <= n <= eps.len(),
    ;
    assert(near_duplicates::held_pairs(pairs) == first);
    assert(first.contains(p));
    lemma_flagged_list(items, names, check.min_overlap, first);
    let x = (p.0, p.1, near_duplicates::weakest(items, names, p));
    assert(s.contains(x));
    let q = choose|q: int| 0 <= q < s.len() && s[q] == x;
    assert(within(s, n)) by {
        assert forall|y: int| 0 <= y < s.len() implies 0 <= (#[trigger] s[y]).0 < n && 0 <= s[y].1 < n by {
            let r = lemma_flagged_are_near(check, dataset, y);
        }
    }
    lemma_labels(items.len(), s);
    let label = l[p.0];
    assert(0 <= label < n);
    lemma_members(items, l, s, label, q);
    let group = near_duplicates::members(items, l, s, label);
    let share = near_duplicates::overlap(l, s, label);
    let f = near_duplicates::near_finding(group, share);
    assert(group.len() > 0);
    lemma_near_findings(items, l, s, items.len(), f);
    let near = near_duplicates::near_findings(items, l, s, items.len());
    assert(near.contains(f));
    let quiet = near_duplicates::abstention(
        near_duplicates::first_seen(pairs).len() > MAX_TRACKED_PAIRS,
        near_duplicates::missing(near_duplicates::all_examined(items, names), items.len()),
    );
    found::lemma_both(quiet, near, f);
    assert(report =~= quiet + near);
    assert(report.contains(f));
    let z = choose|z: int| 0 <= z < report.len() && report[z] == f;
    assert(report[z].code == NEAR_CODE@);
}

/// A stream that speaks for both of two episodes and shows no fingerprint in common rules them out as
/// near-duplicates, for every positive threshold, however much they share elsewhere.
pub proof fn law_a_stream_with_nothing_in_common_rules_a_pair_out(
    min: u64,
    a: Episode,
    b: Episode,
    name: Seq<char>,
    k: int,
    l: int,
)
    requires
        number::less(0, min),
        speaks(a, k, name),
        speaks(b, l, name),
        prints(a.streams@[k].frames@).disjoint(prints(b.streams@[l].frames@)),
    ensures
        !may_be_near(min, a, b),
        !are_near(min, a, b),
{
    let (x, y) = (a.streams@[k], b.streams@[l]);
    assert(prints(x.frames@).intersect(prints(y.frames@)) =~= Set::empty());
    assert(common(x, y) == 0);
    assert(number::nearest_bits(0, fewer(x, y)) == 0);
    if may_be_near(min, a, b) {
        let n = choose|n: nat| n <= common(x, y) && #[trigger] reaches(n, fewer(x, y), min);
        assert(n == 0);
    }
    if are_near(min, a, b) {
        assert(reaches(common(x, y), fewer(x, y), min));
    }
}

// ---- exact duplicates ------------------------------------------------------------------------

/// Whether two episodes have one signature.
pub open spec fn are_the_same(s: Seq<Episode>, p: int, q: int) -> bool {
    0 <= p < q < s.len() && duplicates::signature_of(s[p]) is Some && duplicates::signature_of(s[p]) == duplicates::signature_of(s[q])
}

/// The episodes of a signature.
proof fn lemma_signed(s: Seq<Episode>, key: Seq<u8>)
    ensures
        duplicates::indices_signed(s, key).len() > 0 <==> exists|p: int|
            0 <= p < s.len() && duplicates::signature_of(#[trigger] s[p]) == Some(key),
        duplicates::indices_signed(s, key).len() > 1 <==> exists|p: int, q: int|
            0 <= p < q < s.len() && duplicates::signature_of(#[trigger] s[p]) == Some(key) && duplicates::signature_of(
                #[trigger] s[q],
            ) == Some(key),
    decreases s.len(),
{
    if s.len() > 0 {
        let rest = s.drop_last();
        let n = s.len() - 1;
        lemma_signed(rest, key);
        assert(s[n] == s.last());
        assert forall|j: int| 0 <= j < n implies #[trigger] s[j] == rest[j] by {}
        if duplicates::indices_signed(rest, key).len() > 0 {
            let p = choose|p: int| 0 <= p < rest.len() && duplicates::signature_of(#[trigger] rest[p]) == Some(key);
            assert(s[p] == rest[p]);
            assert(duplicates::signature_of(s[p]) == Some(key));
        }
        if duplicates::indices_signed(rest, key).len() > 1 {
            let (p, q) = choose|p: int, q: int|
                0 <= p < q < rest.len() && duplicates::signature_of(#[trigger] rest[p]) == Some(key)
                    && duplicates::signature_of(#[trigger] rest[q]) == Some(key);
            assert(s[p] == rest[p] && s[q] == rest[q]);
        }
    }
}

/// A table has a group to tell of exactly where one holds two.
proof fn lemma_repeated(t: Seq<(Seq<u8>, Seq<u64>)>)
    ensures
        duplicates::repeated(t).len() > 0 <==> exists|k: int| 0 <= k < t.len() && (#[trigger] t[k]).1.len() > 1,
    decreases t.len(),
{
    if t.len() > 0 {
        let rest = t.drop_last();
        let n = t.len() - 1;
        lemma_repeated(rest);
        assert(t[n] == t.last());
        assert forall|j: int| 0 <= j < n implies #[trigger] t[j] == rest[j] by {}
        if duplicates::repeated(rest).len() > 0 {
            let k = choose|k: int| 0 <= k < rest.len() && (#[trigger] rest[k]).1.len() > 1;
            assert(t[k] == rest[k]);
        }
    }
}

/// Exact duplicates are reported exactly where two episodes have one signature, wherever they stand.
#[verifier::rlimit(40)]
pub proof fn law_exact_duplicates_are_reported(check: DuplicateEpisode, dataset: &Dataset)
    ensures
        found::finds_any(check.report(dataset), DUPLICATE_CODE@) <==> exists|p: int, q: int|
            #[trigger] are_the_same(dataset.episodes@, p, q),
{
    let s = dataset.episodes@;
    let t = duplicates::grouped(s);
    let groups = duplicates::duplicate_groups(s);
    let report = check.report(dataset);
    duplicates::lemma_grouped(s);
    lemma_repeated(t);
    seqs::lemma_sorted_multiset(duplicates::repeated(t), duplicates::first_order());
    assert(report.len() == groups.len());
    if report.len() > 0 {
        assert(report[0].code == DUPLICATE_CODE@);
        let k = choose|k: int| 0 <= k < t.len() && (#[trigger] t[k]).1.len() > 1;
        lemma_signed(s, t[k].0);
        let (p, q) = choose|p: int, q: int|
            0 <= p < q < s.len() && duplicates::signature_of(#[trigger] s[p]) == Some(t[k].0) && duplicates::signature_of(
                #[trigger] s[q],
            ) == Some(t[k].0);
        assert(are_the_same(s, p, q));
    }
    if exists|p: int, q: int| #[trigger] are_the_same(s, p, q) {
        let (p, q) = choose|p: int, q: int| #[trigger] are_the_same(s, p, q);
        let key = duplicates::signature_of(s[p])->0;
        lemma_signed(s, key);
        assert(duplicates::signature_of(s[p]) == Some(key) && duplicates::signature_of(s[q]) == Some(key));
        assert(duplicates::indices_signed(s, key).len() > 1);
        assert(exists|j: int| 0 <= j < t.len() && (#[trigger] t[j]).0 == key);
        let j = choose|j: int| 0 <= j < t.len() && (#[trigger] t[j]).0 == key;
        assert(t[j].1.len() > 1);
        assert(report[0].code == DUPLICATE_CODE@);
    }
}

} // verus!
