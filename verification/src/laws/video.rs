//! Laws of the checks on video.

use vstd::prelude::*;
use vstd::string::*;

use crate::cdm::{Dataset, Episode, Stream};
use crate::check::{Check, FindingView, LocationView};
use crate::checks::video;
use crate::checks::video::{
    Defect, DefectKeyView, MediaConformance, MediaReadable, RecordView, ABSENT_CODE, CODEC_CODE, FPS_CODE, FRAME_COUNT_CODE,
    MISSING_CODE, RESOLUTION_CODE, UNATTRIBUTED_CODE, UNREADABLE_CODE,
};
use crate::checks::walk;
use crate::deviation;
use crate::laws::found;
use crate::number;
use crate::seqs;

verus! {

// ---- what can be read ------------------------------------------------------------------------

/// Whether a stream of a name refers to media.
pub open spec fn refers(s: Stream, name: Seq<char>) -> bool {
    s.name@ == name && s.media is Some
}

/// Whether the media of a stream of a name are missing.
pub open spec fn is_gone(s: Stream, name: Seq<char>) -> bool {
    refers(s, name) && s.media->0.status is Missing
}

/// Whether the media of a stream of a name cannot be read.
pub open spec fn is_unreadable(s: Stream, name: Seq<char>) -> bool {
    refers(s, name) && s.media->0.status is Unreadable
}

/// Whether the media of a stream of a name cannot be told apart.
pub open spec fn is_unattributed(s: Stream, name: Seq<char>) -> bool {
    refers(s, name) && s.media->0.status is Unattributable
}

/// Whether no media of a name are there, though some are referred to.
pub open spec fn are_all_gone(all: Seq<(Episode, Stream)>, name: Seq<char>) -> bool {
    &&& exists|k: int| 0 <= k < all.len() && refers((#[trigger] all[k]).1, name)
    &&& forall|k: int| 0 <= k < all.len() && refers((#[trigger] all[k]).1, name) ==> is_gone(all[k].1, name)
}

/// How many refer to media, and how many of those are missing.
proof fn lemma_counts(s: Seq<(Episode, Stream)>, name: Seq<char>)
    ensures
        video::without_media(s, name) <= video::with_media(s, name),
        video::with_media(s, name) > 0 <==> exists|k: int| 0 <= k < s.len() && refers((#[trigger] s[k]).1, name),
        video::without_media(s, name) == video::with_media(s, name) <==> forall|k: int|
            0 <= k < s.len() && refers((#[trigger] s[k]).1, name) ==> is_gone(s[k].1, name),
    decreases s.len(),
{
    if s.len() > 0 {
        let rest = s.drop_last();
        let n = s.len() - 1;
        lemma_counts(rest, name);
        assert(s[n] == s.last());
        assert forall|j: int| 0 <= j < n implies #[trigger] s[j] == rest[j] by {}
        if video::with_media(rest, name) > 0 {
            let k = choose|k: int| 0 <= k < rest.len() && refers((#[trigger] rest[k]).1, name);
            assert(refers(s[k].1, name));
        }
        if forall|k: int| 0 <= k < s.len() && refers((#[trigger] s[k]).1, name) ==> is_gone(s[k].1, name) {
            assert forall|k: int| 0 <= k < rest.len() && refers((#[trigger] rest[k]).1, name) implies is_gone(rest[k].1, name) by {
                assert(s[k] == rest[k]);
            }
        }
        if video::without_media(s, name) == video::with_media(s, name) {
            assert forall|k: int| 0 <= k < s.len() && refers((#[trigger] s[k]).1, name) implies is_gone(s[k].1, name) by {
                if k < n {
                    assert(refers(rest[k].1, name));
                }
            }
        }
    }
}

/// What was reported before is shared.
proof fn lemma_reported(all: Seq<(Episode, Stream)>, s: Seq<(Episode, Stream)>, name: Seq<char>)
    ensures
        video::was_reported(all, s, name) <==> exists|k: int|
            0 <= k < s.len() && (#[trigger] s[k]).1.name@ == name && video::is_shared(all, s[k].1),
    decreases s.len(),
{
    if s.len() > 0 {
        let rest = s.drop_last();
        let n = s.len() - 1;
        lemma_reported(all, rest, name);
        assert(s[n] == s.last());
        assert forall|j: int| 0 <= j < n implies #[trigger] s[j] == rest[j] by {}
        if video::was_reported(all, rest, name) {
            let k = choose|k: int| 0 <= k < rest.len() && (#[trigger] rest[k]).1.name@ == name && video::is_shared(all, rest[k].1);
            assert(s[k] == rest[k]);
        }
    }
}

/// The codes differ.
proof fn lemma_codes()
    ensures
        ABSENT_CODE@.len() == 18,
        MISSING_CODE@.len() == 19,
        UNREADABLE_CODE@.len() == 22,
        UNATTRIBUTED_CODE@.len() == 24,
        FRAME_COUNT_CODE@.len() == 26,
        RESOLUTION_CODE@.len() == 25,
        CODEC_CODE@.len() == 20,
        FPS_CODE@.len() == 18,
{
    reveal_strlit("VIDEO.MEDIA_ABSENT");
    reveal_strlit("VIDEO.MEDIA_MISSING");
    reveal_strlit("VIDEO.MEDIA_UNREADABLE");
    reveal_strlit("VIDEO.MEDIA_UNATTRIBUTED");
    reveal_strlit("VIDEO.FRAME_COUNT_MISMATCH");
    reveal_strlit("VIDEO.RESOLUTION_MISMATCH");
    reveal_strlit("VIDEO.CODEC_MISMATCH");
    reveal_strlit("VIDEO.FPS_MISMATCH");
}

/// What is told of a name.
pub open spec fn is_told(
    report: Seq<FindingView>,
    all: Seq<(Episode, Stream)>,
    n: int,
    name: Seq<char>,
) -> bool {
    &&& found::finds_named(report, UNREADABLE_CODE@, name) <==> exists|k: int|
        0 <= k < n && is_unreadable((#[trigger] all[k]).1, name)
    &&& found::finds_named(report, UNATTRIBUTED_CODE@, name) <==> exists|k: int|
        0 <= k < n && is_unattributed((#[trigger] all[k]).1, name)
    &&& found::finds_named(report, MISSING_CODE@, name) <==> !are_all_gone(all, name) && exists|k: int|
        0 <= k < n && is_gone((#[trigger] all[k]).1, name)
    &&& found::finds_named(report, ABSENT_CODE@, name) <==> are_all_gone(all, name) && exists|k: int|
        0 <= k < n && is_gone((#[trigger] all[k]).1, name)
}

/// What one more stream adds to what is told of a name.
proof fn lemma_media_step(all: Seq<(Episode, Stream)>, n: int, name: Seq<char>)
    requires
        0 < n <= all.len(),
    ensures
        ({
            let r = video::media_findings(all, all.take(n - 1), all[n - 1].0, all[n - 1].1);
            let x = all[n - 1].1;
            &&& found::finds_named(r, UNREADABLE_CODE@, name) <==> is_unreadable(x, name)
            &&& found::finds_named(r, UNATTRIBUTED_CODE@, name) ==> is_unattributed(x, name)
            &&& found::finds_named(r, MISSING_CODE@, name) <==> is_gone(x, name) && !are_all_gone(all, name)
            &&& found::finds_named(r, ABSENT_CODE@, name) ==> is_gone(x, name) && are_all_gone(all, name)
            &&& is_unattributed(x, name) && !found::finds_named(r, UNATTRIBUTED_CODE@, name) ==> exists|k: int|
                0 <= k < n - 1 && is_unattributed((#[trigger] all[k]).1, name)
            &&& is_gone(x, name) && are_all_gone(all, name) && !found::finds_named(r, ABSENT_CODE@, name) ==> exists|k: int|
                0 <= k < n - 1 && is_gone((#[trigger] all[k]).1, name)
        }),
{
    let s = all.take(n - 1);
    let x = all[n - 1].1;
    let r = video::media_findings(all, s, all[n - 1].0, x);
    lemma_codes();
    lemma_counts(all, name);
    lemma_counts(all, x.name@);
    assert(video::wholly_absent(all, name) <==> are_all_gone(all, name));
    assert(video::wholly_absent(all, x.name@) <==> are_all_gone(all, x.name@));
    lemma_reported(all, s, x.name@);
    if r.len() > 0 {
        assert(r.len() == 1);
        assert(r[0].location == (LocationView::Stream { episode: all[n - 1].0.index, stream: x.name@ }));
    }
    if x.media is Some && video::is_shared(all, x) && video::was_reported(all, s, x.name@) {
        let k = choose|k: int| 0 <= k < s.len() && (#[trigger] s[k]).1.name@ == x.name@ && video::is_shared(all, s[k].1);
        assert(s[k] == all[k]);
        assert(refers(all[k].1, x.name@));
        assert(refers(all[n - 1].1, x.name@));
    }
}

/// What is told up to a stream.
proof fn lemma_readable(all: Seq<(Episode, Stream)>, n: int, name: Seq<char>)
    requires
        0 <= n <= all.len(),
    ensures
        is_told(video::readable_findings(all, all.take(n)), all, n, name),
    decreases n,
{
    if n > 0 {
        let s = all.take(n);
        let x = all[n - 1].1;
        assert(s.drop_last() =~= all.take(n - 1));
        assert(s.last() == all[n - 1]);
        lemma_readable(all, n - 1, name);
        lemma_media_step(all, n, name);
        let old = video::readable_findings(all, all.take(n - 1));
        let new = video::media_findings(all, all.take(n - 1), all[n - 1].0, x);
        found::lemma_named_both(old, new, UNREADABLE_CODE@, name);
        found::lemma_named_both(old, new, UNATTRIBUTED_CODE@, name);
        found::lemma_named_both(old, new, MISSING_CODE@, name);
        found::lemma_named_both(old, new, ABSENT_CODE@, name);
    } else {
        assert(all.take(0).len() == 0);
    }
}

/// Media are reported by name: as unreadable exactly where some cannot be read, as unattributed exactly
/// where some cannot be told apart, and, where some are missing, as absent if none are there, and as
/// missing otherwise.
pub proof fn law_unread_media_are_reported(check: MediaReadable, dataset: &Dataset, name: Seq<char>)
    ensures
        is_told(
            check.report(dataset),
            walk::pairs(dataset.episodes@),
            walk::pairs(dataset.episodes@).len() as int,
            name,
        ),
{
    let all = walk::pairs(dataset.episodes@);
    lemma_readable(all, all.len() as int, name);
    seqs::lemma_take_all(all);
}

// ---- what media say --------------------------------------------------------------------------

/// Whether media were read, and declare a size other than theirs.
pub open spec fn is_resized(s: Stream, name: Seq<char>) -> bool {
    &&& s.name@ == name
    &&& s.media matches Some(m)
    &&& m.status is Read
    &&& m.declared.width matches Some(w)
    &&& m.declared.height matches Some(h)
    &&& m.observed.width matches Some(x)
    &&& m.observed.height matches Some(y)
    &&& w != x || h != y
}

/// Whether media were read, and declare a codec other than theirs.
pub open spec fn is_recoded(s: Stream, name: Seq<char>) -> bool {
    &&& s.name@ == name
    &&& s.media matches Some(m)
    &&& m.status is Read
    &&& m.declared.codec matches Some(a)
    &&& m.observed.codec matches Some(b)
    &&& a.canonical matches Some(x)
    &&& b.canonical matches Some(y)
    &&& x@ != y@
}

/// Whether media were read, and declare a rate off theirs by more than is allowed.
pub open spec fn is_retimed(s: Stream, name: Seq<char>, tolerance: u64) -> bool {
    &&& s.name@ == name
    &&& s.media matches Some(m)
    &&& m.status is Read
    &&& m.declared.fps matches Some(a)
    &&& m.observed.fps matches Some(b)
    &&& 0 < a < number::INFINITY && 0 < b < number::INFINITY
    &&& deviation::is_off(b as int, a as int, tolerance)
}

/// Whether media were read, and hold fewer or more frames than the stream.
pub open spec fn is_recut(s: Stream, name: Seq<char>) -> bool {
    &&& s.name@ == name
    &&& s.media matches Some(m)
    &&& m.status is Read
    &&& m.frame_count matches Some(n)
    &&& n != s.frames@.len()
}

/// The defects that are recorded.
proof fn lemma_records(all: Seq<(Episode, Stream)>, tolerance: u64, s: Seq<(Episode, Stream)>, r: RecordView)
    ensures
        video::all_records(all, tolerance, s).contains(r) <==> exists|k: int|
            0 <= k < s.len() && video::records_of(all, tolerance, (#[trigger] s[k]).0, s[k].1).contains(r),
    decreases s.len(),
{
    if s.len() > 0 {
        let rest = s.drop_last();
        let n = s.len() - 1;
        lemma_records(all, tolerance, rest, r);
        found::lemma_both(
            video::all_records(all, tolerance, rest),
            video::records_of(all, tolerance, s.last().0, s.last().1),
            r,
        );
        assert(s[n] == s.last());
        assert forall|j: int| 0 <= j < n implies #[trigger] s[j] == rest[j] by {}
        if video::all_records(all, tolerance, rest).contains(r) {
            let k = choose|k: int|
                0 <= k < rest.len() && video::records_of(all, tolerance, (#[trigger] rest[k]).0, rest[k].1).contains(r);
            assert(s[k] == rest[k]);
        }
    }
}

/// Whether a defect of a stream is recorded.
pub open spec fn is_defective(all: Seq<(Episode, Stream)>, tolerance: u64, s: Stream, defect: Defect) -> bool {
    s.media matches Some(m) && m.status is Read && match defect {
        Defect::FrameCount => video::length_defect(all, s) is Some,
        Defect::Resolution => video::resolution_defect(m) is Some,
        Defect::Codec => video::codec_defect(m) is Some,
        Defect::Fps => video::fps_defect(tolerance, m) is Some,
    }
}

/// A record is of a defect.
#[verifier::rlimit(40)]
proof fn lemma_record_of(all: Seq<(Episode, Stream)>, tolerance: u64, e: Episode, s: Stream, defect: Defect)
    ensures
        is_defective(all, tolerance, s, defect) <==> exists|r: RecordView|
            #[trigger] video::records_of(all, tolerance, e, s).contains(r) && r.key.name == s.name@ && r.key.defect == defect,
        forall|r: RecordView| #[trigger] video::records_of(all, tolerance, e, s).contains(r) ==> r.key.name == s.name@,
{
    let t = video::records_of(all, tolerance, e, s);
    if let Some(m) = s.media {
        if m.status is Read {
            let (name, i) = (s.name@, e.index);
            let a = video::maybe(video::length_defect(all, s), Defect::FrameCount, name, i);
            let b = video::maybe(video::resolution_defect(m), Defect::Resolution, name, i);
            let c = video::maybe(video::codec_defect(m), Defect::Codec, name, i);
            let d = video::maybe(video::fps_defect(tolerance, m), Defect::Fps, name, i);
            assert(t == a + b + c + d);
            assert forall|r: RecordView| #[trigger] t.contains(r) <==> a.contains(r) || b.contains(r) || c.contains(r) || d.contains(r) by {
                found::lemma_both(a, b, r);
                found::lemma_both(a + b, c, r);
                found::lemma_both(a + b + c, d, r);
            }
            if a.len() > 0 {
                assert(a.contains(a[0]) && t.contains(a[0]));
            }
            if b.len() > 0 {
                assert(b.contains(b[0]) && t.contains(b[0]));
            }
            if c.len() > 0 {
                assert(c.contains(c[0]) && t.contains(c[0]));
            }
            if d.len() > 0 {
                assert(d.contains(d[0]) && t.contains(d[0]));
            }
        }
    }
}

/// A key occurs exactly where a record has it.
proof fn lemma_occurrence(records: Seq<RecordView>, key: DefectKeyView)
    ensures
        video::occurrence(records, key) is Some <==> video::record_keys(records).contains(key),
    decreases records.len(),
{
    let keys = video::record_keys(records);
    if records.len() > 0 {
        let rest = records.drop_last();
        lemma_occurrence(rest, key);
        assert(keys =~= video::record_keys(rest).push(records.last().key));
        found::lemma_one_more(video::record_keys(rest), records.last().key, key);
    }
}

/// What is told of keys.
proof fn lemma_export(records: Seq<RecordView>, keys: Seq<DefectKeyView>, code: Seq<char>, name: Seq<char>)
    requires
        forall|k: int| 0 <= k < keys.len() ==> video::record_keys(records).contains(#[trigger] keys[k]),
    ensures
        found::finds_named(video::export_findings(records, keys), code, name) <==> exists|k: int|
            0 <= k < keys.len() && (#[trigger] keys[k]).name == name && keys[k].defect.spec_wording().0 == code,
    decreases keys.len(),
{
    if keys.len() > 0 {
        let rest = keys.drop_last();
        let n = keys.len() - 1;
        assert(keys[n] == keys.last());
        assert forall|j: int| 0 <= j < n implies #[trigger] keys[j] == rest[j] by {}
        assert forall|k: int| 0 <= k < rest.len() implies video::record_keys(records).contains(#[trigger] rest[k]) by {
            assert(keys[k] == rest[k]);
        }
        lemma_export(records, rest, code, name);
        lemma_occurrence(records, keys.last());
        let old = video::export_findings(records, rest);
        let new = video::export_findings(records, keys);
        let g = new.last();
        assert(new =~= old + seq![g]);
        found::lemma_named_both(old, seq![g], code, name);
        assert(seq![g][0] == g);
        if found::finds_named(old, code, name) {
            let k = choose|k: int| 0 <= k < rest.len() && (#[trigger] rest[k]).name == name && rest[k].defect.spec_wording().0 == code;
            assert(keys[k] == rest[k]);
        }
    }
}

/// What is told of each stream.
proof fn lemma_each(all: Seq<(Episode, Stream)>, s: Seq<(Episode, Stream)>, code: Seq<char>, name: Seq<char>)
    ensures
        found::finds_named(video::each_findings(all, s), code, name) <==> code == FRAME_COUNT_CODE@ && exists|k: int|
            0 <= k < s.len() && is_recut((#[trigger] s[k]).1, name) && video::systematic_delta(all, name) is None,
    decreases s.len(),
{
    if s.len() > 0 {
        let rest = s.drop_last();
        let n = s.len() - 1;
        lemma_each(all, rest, code, name);
        let own = video::own_findings(all, s.last().0, s.last().1);
        found::lemma_named_both(video::each_findings(all, rest), own, code, name);
        assert(s[n] == s.last());
        assert forall|j: int| 0 <= j < n implies #[trigger] s[j] == rest[j] by {}
        if own.len() > 0 {
            assert(own.len() == 1 && own[0].code == FRAME_COUNT_CODE@ && own[0].location == (LocationView::Stream {
                episode: s.last().0.index,
                stream: s.last().1.name@,
            }));
        }
        if found::finds_named(video::each_findings(all, rest), code, name) {
            let k = choose|k: int|
                0 <= k < rest.len() && is_recut((#[trigger] rest[k]).1, name) && video::systematic_delta(all, name) is None;
            assert(s[k] == rest[k]);
        }
    }
}

/// What is told of a defect.
#[verifier::rlimit(40)]
proof fn lemma_conformance(check: MediaConformance, dataset: &Dataset, defect: Defect, name: Seq<char>)
    ensures
        ({
            let all = walk::pairs(dataset.episodes@);
            found::finds_named(check.report(dataset), defect.spec_wording().0, name) <==> {
                ||| defect is FrameCount && exists|k: int|
                    0 <= k < all.len() && is_recut((#[trigger] all[k]).1, name) && video::systematic_delta(all, name) is None
                ||| exists|k: int|
                    0 <= k < all.len() && (#[trigger] all[k]).1.name@ == name && is_defective(
                        all,
                        check.fps_tolerance,
                        all[k].1,
                        defect,
                    )
            }
        }),
{
    let all = walk::pairs(dataset.episodes@);
    let t = check.fps_tolerance;
    let records = video::all_records(all, t, all);
    let every = video::record_keys(records);
    let keys = seqs::distinct(every, video::key_order());
    let code = defect.spec_wording().0;
    lemma_codes();
    assert forall|k: int| 0 <= k < keys.len() implies every.contains(#[trigger] keys[k]) by {
        assert(keys.contains(keys[k]));
        seqs::lemma_distinct_contains(every, video::key_order(), keys[k]);
    }
    lemma_export(records, keys, code, name);
    lemma_each(all, all, code, name);
    found::lemma_named_both(video::each_findings(all, all), video::export_findings(records, keys), code, name);
    if exists|k: int| 0 <= k < keys.len() && (#[trigger] keys[k]).name == name && keys[k].defect.spec_wording().0 == code {
        let k = choose|k: int| 0 <= k < keys.len() && (#[trigger] keys[k]).name == name && keys[k].defect.spec_wording().0 == code;
        assert(keys[k].defect == defect);
        let m = choose|m: int| 0 <= m < every.len() && every[m] == keys[k];
        let r = records[m];
        assert(records.contains(r));
        lemma_records(all, t, all, r);
        let q = choose|q: int| 0 <= q < all.len() && video::records_of(all, t, (#[trigger] all[q]).0, all[q].1).contains(r);
        lemma_record_of(all, t, all[q].0, all[q].1, defect);
        assert(all[q].1.name@ == name && is_defective(all, t, all[q].1, defect));
    }
    if exists|k: int| 0 <= k < all.len() && (#[trigger] all[k]).1.name@ == name && is_defective(all, t, all[k].1, defect) {
        let k = choose|k: int| 0 <= k < all.len() && (#[trigger] all[k]).1.name@ == name && is_defective(all, t, all[k].1, defect);
        lemma_record_of(all, t, all[k].0, all[k].1, defect);
        let r = choose|r: RecordView|
            #[trigger] video::records_of(all, t, all[k].0, all[k].1).contains(r) && r.key.name == all[k].1.name@ && r.key.defect
                == defect;
        lemma_records(all, t, all, r);
        let m = choose|m: int| 0 <= m < records.len() && records[m] == r;
        assert(every[m] == r.key);
        seqs::lemma_distinct_contains(every, video::key_order(), r.key);
        let q = choose|q: int| 0 <= q < keys.len() && keys[q] == r.key;
        assert(keys[q].name == name && keys[q].defect.spec_wording().0 == code);
    }
}

/// Whether some stream of a name is of a kind.
pub open spec fn some_stream(dataset: &Dataset, p: spec_fn(Stream) -> bool) -> bool {
    exists|k: int| 0 <= k < walk::pairs(dataset.episodes@).len() && p((#[trigger] walk::pairs(dataset.episodes@)[k]).1)
}

/// A name is reported for size, codec, rate or length exactly where the media of a stream of it were
/// read and differ from what is declared, or from the frames that the stream has.
pub proof fn law_misdeclared_media_are_reported(check: MediaConformance, dataset: &Dataset, name: Seq<char>)
    ensures
        found::finds_named(check.report(dataset), RESOLUTION_CODE@, name) <==> some_stream(
            dataset,
            |s: Stream| is_resized(s, name),
        ),
        found::finds_named(check.report(dataset), CODEC_CODE@, name) <==> some_stream(dataset, |s: Stream| is_recoded(s, name)),
        found::finds_named(check.report(dataset), FPS_CODE@, name) <==> some_stream(
            dataset,
            |s: Stream| is_retimed(s, name, check.fps_tolerance),
        ),
        found::finds_named(check.report(dataset), FRAME_COUNT_CODE@, name) <==> some_stream(
            dataset,
            |s: Stream| is_recut(s, name),
        ),
{
    let all = walk::pairs(dataset.episodes@);
    let t = check.fps_tolerance;
    lemma_conformance(check, dataset, Defect::Resolution, name);
    lemma_conformance(check, dataset, Defect::Codec, name);
    lemma_conformance(check, dataset, Defect::Fps, name);
    lemma_conformance(check, dataset, Defect::FrameCount, name);
    assert forall|k: int| 0 <= k < all.len() implies {
        let s = (#[trigger] all[k]).1;
        &&& s.name@ == name && is_defective(all, t, s, Defect::Resolution) <==> is_resized(s, name)
        &&& s.name@ == name && is_defective(all, t, s, Defect::Codec) <==> is_recoded(s, name)
        &&& s.name@ == name && is_defective(all, t, s, Defect::Fps) <==> is_retimed(s, name, t)
        &&& s.name@ == name && is_defective(all, t, s, Defect::FrameCount) <==> is_recut(s, name) && video::systematic_delta(
            all,
            name,
        ) is Some
    } by {}
}

} // verus!
