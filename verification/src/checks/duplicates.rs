//! Exact duplicates: episodes with identical content.

use vstd::prelude::*;
use vstd::string::*;

use crate::cat::cat3;
use crate::cdm::{Dataset, Episode};
use crate::check;
use crate::check::{Category, Check, CheckContext, CheckInfo, CheckMeta, Finding, FindingView, Location, LocationView, Scope, Severity};
use crate::checks::lists;
use crate::checks::lists::join_numbers;
use crate::checks::signature;
use crate::checks::structural;
use crate::checks::structural::same_hash;
use crate::digest;
use crate::seqs;
use crate::sort::sort_numbers;
use crate::text;

verus! {

/// Duplicate episodes: the same recording present more than once (a re-upload, a bad merge, a
/// copied shard). Duplicates silently over-weight their trajectories and inflate the apparent
/// dataset size.
///
/// The claim needs proof, not a coincidence of shapes: two episodes are duplicates only when their
/// streams, timestamps, stored statistics and every frame's fingerprint are identical. An episode
/// with a frame that carries no fingerprint is not compared.
#[derive(Debug, Clone, Copy)]
pub struct DuplicateEpisode;

/// The id of [`DuplicateEpisode`].
pub const DUPLICATE_ID: &'static str = "structural.duplicate-episode";

/// The code of its findings.
pub const DUPLICATE_CODE: &'static str = "STRUCTURAL.DUPLICATE_EPISODE";

pub const DUPLICATE_RISK: &'static str = "Duplicate episodes over-weight their trajectories and inflate the apparent \
     dataset size — a re-upload or a bad merge — biasing training toward the \
     repeated data.";

pub const DUPLICATE_REMEDY: &'static str = "De-duplicate the dataset so each episode appears once.";

/// The signature of an episode, where its content is proven.
pub open spec fn signature_of(e: Episode) -> Option<Seq<u8>> {
    if signature::is_fingerprintable(e) {
        Some(digest::sha256(signature::encode(signature::content_of(e))))
    } else {
        None
    }
}

/// A table of signatures with one episode entered: behind the episodes of its signature, or at the
/// end.
pub open spec fn entered(table: Seq<(Seq<u8>, Seq<u64>)>, key: Seq<u8>, index: u64) -> Seq<(Seq<u8>, Seq<u64>)>
    decreases table.len(),
{
    if table.len() == 0 {
        seq![(key, seq![index])]
    } else if table[0].0 == key {
        seq![(key, table[0].1.push(index))] + table.skip(1)
    } else {
        seq![table[0]] + entered(table.skip(1), key, index)
    }
}

/// The signatures that occur, in order of first appearance, each with its episodes.
pub open spec fn grouped(episodes: Seq<Episode>) -> Seq<(Seq<u8>, Seq<u64>)>
    decreases episodes.len(),
{
    if episodes.len() == 0 {
        Seq::empty()
    } else {
        match signature_of(episodes.last()) {
            Some(key) => entered(grouped(episodes.drop_last()), key, episodes.last().index),
            None => grouped(episodes.drop_last()),
        }
    }
}

/// The episodes of each signature that occurs more than once, ascending.
pub open spec fn repeated(table: Seq<(Seq<u8>, Seq<u64>)>) -> Seq<Seq<u64>>
    decreases table.len(),
{
    if table.len() == 0 {
        Seq::empty()
    } else if table.last().1.len() > 1 {
        repeated(table.drop_last()).push(seqs::sorted(table.last().1, seqs::number_order()))
    } else {
        repeated(table.drop_last())
    }
}

/// The order of groups by their smallest index, as a function.
pub open spec fn first_order() -> spec_fn(Seq<u64>, Seq<u64>) -> bool {
    |a: Seq<u64>, b: Seq<u64>| a[0] < b[0]
}

/// The groups of duplicates, ordered by their smallest index.
pub open spec fn duplicate_groups(episodes: Seq<Episode>) -> Seq<Seq<u64>> {
    seqs::sorted(repeated(grouped(episodes)), first_order())
}

/// The finding for a group of duplicates.
pub open spec fn duplicate_finding(group: Seq<u64>) -> FindingView {
    check::finding(
        DUPLICATE_ID@,
        Category::Structure,
        Severity::Warning,
        LocationView::Dataset,
        DUPLICATE_CODE@,
        "episodes "@ + text::joined(lists::decimals(group), ", "@)
            + " are exact duplicates (identical streams, timestamps, and stored statistics)"@,
        DUPLICATE_RISK@,
        DUPLICATE_REMEDY@,
    )
}

/// The findings for groups of duplicates.
pub open spec fn duplicate_findings(groups: Seq<Seq<u64>>) -> Seq<FindingView> {
    groups.map_values(|g: Seq<u64>| duplicate_finding(g))
}

/// Where an episode belongs in a table of signatures.
proof fn lemma_entered_at(table: Seq<(Seq<u8>, Seq<u64>)>, key: Seq<u8>, index: u64, i: int)
    requires
        0 <= i <= table.len(),
        forall|k: int| 0 <= k < i ==> (#[trigger] table[k]).0 != key,
        i < table.len() ==> table[i].0 == key,
    ensures
        entered(table, key, index) == (if i < table.len() {
            table.update(i, (key, table[i].1.push(index)))
        } else {
            table.push((key, seq![index]))
        }),
    decreases table.len(),
{
    if table.len() == 0 {
        assert(table.push((key, seq![index])) =~= seq![(key, seq![index])]);
    } else if i == 0 {
        assert(seq![(key, table[0].1.push(index))] + table.skip(1) =~= table.update(0, (key, table[0].1.push(index))));
    } else {
        assert(table[0].0 != key);
        let rest = table.skip(1);
        assert forall|k: int| 0 <= k < i - 1 implies (#[trigger] rest[k]).0 != key by {
            assert(rest[k] == table[k + 1]);
        }
        lemma_entered_at(rest, key, index, i - 1);
        if i < table.len() {
            assert(rest[i - 1] == table[i]);
            assert(seq![table[0]] + rest.update(i - 1, (key, table[i].1.push(index))) =~= table.update(
                i,
                (key, table[i].1.push(index)),
            ));
        } else {
            assert(seq![table[0]] + rest.push((key, seq![index])) =~= table.push((key, seq![index])));
        }
    }
}

/// Every group of duplicates is made of the episodes that share one signature.
pub proof fn law_duplicates_share_a_signature(episodes: Seq<Episode>, i: int)
    requires
        0 <= i < grouped(episodes).len(),
    ensures
        grouped(episodes)[i].1 == indices_signed(episodes, grouped(episodes)[i].0),
        forall|j: int| 0 <= j < grouped(episodes).len() && j != i ==> #[trigger] grouped(episodes)[j].0 != grouped(episodes)[i].0,
{
    lemma_grouped(episodes);
}

/// An episode's signature does not depend on its index, nor on the order of its labels and streams,
/// whose names are distinct; and there is none exactly where the episode has no stream, a stream has no
/// frame, or a frame has no fingerprint.
pub proof fn law_signature_is_of_the_content(a: Episode, b: Episode)
    requires
        a.task == b.task,
        a.labels@.to_multiset() == b.labels@.to_multiset(),
        a.streams@.to_multiset() == b.streams@.to_multiset(),
        signature::stream_names(a.streams@).no_duplicates(),
    ensures
        signature_of(a) == signature_of(b),
        signature_of(a) is None <==> a.streams@.len() == 0 || exists|j: int|
            0 <= j < a.streams@.len() && ((#[trigger] a.streams@[j]).frames@.len() == 0 || structural::lacks_fingerprint(
                a.streams@[j].frames@,
            )),
{
    signature::law_signature_ignores_index_and_order(a, b);
}

/// The indices of the episodes with a signature, in order.
pub open spec fn indices_signed(episodes: Seq<Episode>, key: Seq<u8>) -> Seq<u64>
    decreases episodes.len(),
{
    if episodes.len() == 0 {
        Seq::empty()
    } else if signature_of(episodes.last()) == Some(key) {
        indices_signed(episodes.drop_last(), key).push(episodes.last().index)
    } else {
        indices_signed(episodes.drop_last(), key)
    }
}

/// The table of signatures holds every signature once, with its episodes.
pub proof fn lemma_grouped(episodes: Seq<Episode>)
    ensures
        forall|j: int|
            0 <= j < grouped(episodes).len() ==> (#[trigger] grouped(episodes)[j]).1 == indices_signed(episodes, grouped(episodes)[j].0),
        forall|j: int, k: int| 0 <= j < k < grouped(episodes).len() ==> (#[trigger] grouped(episodes)[j]).0 != (
        #[trigger] grouped(episodes)[k]).0,
        forall|key: Seq<u8>|
            (forall|j: int| 0 <= j < grouped(episodes).len() ==> (#[trigger] grouped(episodes)[j]).0 != key)
                ==> #[trigger] indices_signed(episodes, key) == Seq::<u64>::empty(),
    decreases episodes.len(),
{
    if episodes.len() > 0 {
        let rest = episodes.drop_last();
        lemma_grouped(rest);
        let was = grouped(rest);
        let now = grouped(episodes);
        match signature_of(episodes.last()) {
            None => {
                assert forall|other: Seq<u8>|
                    (forall|j: int| 0 <= j < now.len() ==> (#[trigger] now[j]).0 != other) implies #[trigger] indices_signed(
                    episodes,
                    other,
                ) == Seq::<u64>::empty() by {
                    assert(indices_signed(rest, other) == Seq::<u64>::empty());
                }
            },
            Some(key) => {
                let index = episodes.last().index;
                if exists|j: int| 0 <= j < was.len() && (#[trigger] was[j]).0 == key {
                    let i = choose|j: int| 0 <= j < was.len() && (#[trigger] was[j]).0 == key;
                    lemma_entered_at(was, key, index, i);
                    assert forall|other: Seq<u8>|
                        (forall|j: int| 0 <= j < now.len() ==> (#[trigger] now[j]).0 != other) implies
                        #[trigger] indices_signed(episodes, other) == Seq::<u64>::empty() by {
                        assert(now[i].0 != other);
                        assert forall|j: int| 0 <= j < was.len() implies (#[trigger] was[j]).0 != other by {
                            assert(now[j].0 != other);
                        }
                        assert(indices_signed(rest, other) == Seq::<u64>::empty());
                    }
                } else {
                    lemma_entered_at(was, key, index, was.len() as int);
                    assert(indices_signed(rest, key) == Seq::<u64>::empty());
                    assert(indices_signed(episodes, key) =~= seq![index]);
                    assert forall|other: Seq<u8>|
                        (forall|j: int| 0 <= j < now.len() ==> (#[trigger] now[j]).0 != other) implies
                        #[trigger] indices_signed(episodes, other) == Seq::<u64>::empty() by {
                        assert(now[was.len() as int].0 != other);
                        assert forall|j: int| 0 <= j < was.len() implies (#[trigger] was[j]).0 != other by {
                            assert(now[j].0 != other);
                        }
                        assert(indices_signed(rest, other) == Seq::<u64>::empty());
                    }
                }
            },
        }
    }
}

/// An episode with a signature is entered behind those before it.
proof fn lemma_grouped_step(episodes: Seq<Episode>, e: Episode, key: Seq<u8>)
    requires
        signature_of(e) == Some(key),
    ensures
        grouped(episodes.push(e)) == entered(grouped(episodes), key, e.index),
{
    assert(episodes.push(e).drop_last() =~= episodes);
}

/// A table with one signature that occurs twice has one group.
proof fn lemma_one_group(key: Seq<u8>, i: u64, j: u64)
    ensures
        repeated(entered(entered(Seq::empty(), key, i), key, j)).len() == 1,
{
    let none = Seq::<(Seq<u8>, Seq<u64>)>::empty();
    let one = entered(none, key, i);
    assert(one =~= seq![(key, seq![i])]);
    let two = entered(one, key, j);
    assert(one.skip(1) =~= none);
    assert(two =~= seq![(key, seq![i].push(j))]);
    assert(two.drop_last() =~= none);
    assert(two.last().1.len() == 2);
    assert(repeated(none) =~= Seq::empty());
}

/// Two episodes with one signature are one group.
pub proof fn lemma_pair(a: Episode, b: Episode, key: Seq<u8>)
    requires
        signature_of(a) == Some(key),
        signature_of(b) == Some(key),
    ensures
        duplicate_groups(seq![a, b]).len() == 1,
{
    let none = Seq::<Episode>::empty();
    lemma_grouped_step(none, a, key);
    lemma_grouped_step(none.push(a), b, key);
    assert(none.push(a).push(b) =~= seq![a, b]);
    lemma_one_group(key, a.index, b.index);
    seqs::lemma_sorted_multiset(repeated(grouped(seq![a, b])), first_order());
}

/// The episodes of one signature.
struct Group {
    /// The signature.
    key: [u8; 32],
    /// The episodes.
    indices: Vec<u64>,
}

/// What a table of groups holds.
spec fn table_of(s: Seq<Group>) -> Seq<(Seq<u8>, Seq<u64>)> {
    s.map_values(|g: Group| (g.key@, g.indices@))
}

/// What a list of lists holds.
spec fn lists_of(s: Seq<Vec<u64>>) -> Seq<Seq<u64>> {
    s.map_values(|v: Vec<u64>| v@)
}

/// Groups the episodes by their signature.
fn group(episodes: &Vec<Episode>) -> (r: Vec<Group>)
    ensures
        table_of(r@) == grouped(episodes@),
{
    let mut table: Vec<Group> = Vec::new();
    let mut i: usize = 0;
    assert(table_of(table@) =~= Seq::empty());
    while i < episodes.len()
        invariant
            i <= episodes@.len(),
            table_of(table@) == grouped(episodes@.take(i as int)),
        decreases episodes@.len() - i,
    {
        assert(episodes@.take(i + 1).drop_last() =~= episodes@.take(i as int));
        if let Some(key) = signature::signature(&episodes[i]) {
            let ghost was = table_of(table@);
            let mut k: usize = 0;
            while k < table.len() && !same_hash(&table[k].key, &key)
                invariant
                    k <= table@.len(),
                    was == table_of(table@),
                    forall|j: int| 0 <= j < k ==> (#[trigger] was[j]).0 != key@,
                decreases table@.len() - k,
            {
                assert(was[k as int].0 == table@[k as int].key@);
                k = k + 1;
            }
            proof {
                if k < table@.len() {
                    assert(was[k as int].0 == table@[k as int].key@);
                }
                lemma_entered_at(was, key@, episodes@[i as int].index, k as int);
            }
            if k < table.len() {
                let mut found: Group = table.remove(k);
                let ghost before = found.indices@;
                found.indices.push(episodes[i].index);
                table.insert(k, found);
                assert(table_of(table@) =~= was.update(k as int, (key@, before.push(episodes@[i as int].index))));
            } else {
                let mut indices: Vec<u64> = Vec::new();
                indices.push(episodes[i].index);
                assert(indices@ =~= seq![episodes@[i as int].index]);
                table.push(Group { key, indices });
                assert(table_of(table@) =~= was.push((key@, seq![episodes@[i as int].index])));
            }
        }
        i = i + 1;
    }
    assert(episodes@.take(i as int) =~= episodes@);
    table
}

/// Puts a group in its place among others.
fn place_group(list: &mut Vec<Vec<u64>>, g: Vec<u64>)
    requires
        g@.len() > 0,
        forall|k: int| 0 <= k < old(list)@.len() ==> (#[trigger] old(list)@[k])@.len() > 0,
    ensures
        lists_of(final(list)@) == seqs::placed(lists_of(old(list)@), g@, first_order()),
        forall|k: int| 0 <= k < final(list)@.len() ==> (#[trigger] final(list)@[k])@.len() > 0,
{
    let ghost was = lists_of(list@);
    let mut i: usize = 0;
    while i < list.len() && !(g[0] < list[i][0])
        invariant
            i <= list@.len(),
            list@ == old(list)@,
            was == lists_of(list@),
            g@.len() > 0,
            forall|k: int| 0 <= k < list@.len() ==> (#[trigger] list@[k])@.len() > 0,
            forall|k: int| 0 <= k < i ==> !(g@[0] < (#[trigger] was[k])[0]),
        decreases list@.len() - i,
    {
        assert(was[i as int] == list@[i as int]@);
        i = i + 1;
    }
    proof {
        if i < list@.len() {
            assert(was[i as int] == list@[i as int]@);
        }
        seqs::lemma_placed_at(was, g@, first_order(), i as int);
    }
    list.insert(i, g);
    assert(lists_of(list@) =~= was.insert(i as int, g@));
}

impl DuplicateEpisode {
    /// What the check reports.
    pub open spec fn outcome(dataset: &Dataset) -> Seq<FindingView> {
        duplicate_findings(duplicate_groups(dataset.episodes@))
    }

    /// Reports the groups of episodes with identical content.
    pub fn evaluate(&self, dataset: &Dataset) -> (r: Vec<Finding>)
        ensures
            check::views(r@) == Self::outcome(dataset),
    {
        broadcast use check::group_views;

        let table: Vec<Group> = group(&dataset.episodes);
        let ghost t = table_of(table@);
        let mut groups: Vec<Vec<u64>> = Vec::new();
        let mut i: usize = 0;
        assert(lists_of(groups@) =~= Seq::empty());
        assert(repeated(t.take(0)) =~= Seq::empty());
        while i < table.len()
            invariant
                i <= table@.len(),
                t == table_of(table@),
                lists_of(groups@) == seqs::sorted(repeated(t.take(i as int)), first_order()),
                forall|k: int| 0 <= k < groups@.len() ==> (#[trigger] groups@[k])@.len() > 0,
            decreases table@.len() - i,
        {
            assert(t.take(i + 1).drop_last() =~= t.take(i as int));
            assert(t[i as int].1 == table@[i as int].indices@);
            if table[i].indices.len() > 1 {
                let g: Vec<u64> = sort_numbers(&table[i].indices);
                proof {
                    seqs::lemma_sorted_multiset(table@[i as int].indices@, seqs::number_order());
                    let was = repeated(t.take(i as int));
                    assert(was.push(g@).drop_last() =~= was);
                }
                place_group(&mut groups, g);
            }
            i = i + 1;
        }
        assert(t.take(i as int) =~= t);
        let ghost all = lists_of(groups@);
        let mut out: Vec<Finding> = Vec::new();
        let mut k: usize = 0;
        assert(duplicate_findings(all.take(0)) =~= Seq::empty());
        while k < groups.len()
            invariant
                k <= groups@.len(),
                all == lists_of(groups@),
                check::views(out@) == duplicate_findings(all.take(k as int)),
            decreases groups@.len() - k,
        {
            assert(all[k as int] == groups@[k as int]@);
            assert(lists::first_few(all[k as int], all[k as int].len() as int) == all[k as int]);
            let message: String = cat3(
                "episodes ",
                join_numbers(&groups[k], groups[k].len()).as_str(),
                " are exact duplicates (identical streams, timestamps, and stored statistics)",
            );
            out.push(
                Finding::new(
                    DUPLICATE_ID,
                    Category::Structure,
                    Severity::Warning,
                    Location::Dataset,
                    DUPLICATE_CODE,
                    message,
                ).with_risk(DUPLICATE_RISK).with_remedy(DUPLICATE_REMEDY),
            );
            assert(duplicate_findings(all.take(k + 1)) =~= duplicate_findings(all.take(k as int)).push(
                duplicate_finding(all[k as int]),
            ));
            k = k + 1;
        }
        assert(all.take(k as int) =~= all);
        out
    }
}

impl Check for DuplicateEpisode {
    open spec fn meta(&self) -> CheckMeta {
        CheckMeta {
            id: DUPLICATE_ID@,
            title: "Duplicate episodes"@,
            category: Category::Structure,
            default_severity: Severity::Warning,
            scope: Scope::Dataset,
            version: "1"@,
            finding_codes: seq![DUPLICATE_CODE@],
        }
    }

    fn info(&self) -> (r: CheckInfo) {
        let finding_codes: &'static [&'static str] = &[DUPLICATE_CODE];
        assert(text::str_texts(finding_codes@) =~= self.meta().finding_codes);
        CheckInfo {
            id: DUPLICATE_ID,
            title: "Duplicate episodes",
            category: Category::Structure,
            default_severity: Severity::Warning,
            scope: Scope::Dataset,
            version: "1",
            finding_codes,
        }
    }

    open spec fn report(&self, dataset: &Dataset) -> Seq<FindingView> {
        Self::outcome(dataset)
    }

    open spec fn report_in(&self, dataset: &Dataset, frames_read: bool, attested: Seq<Seq<char>>) -> Seq<FindingView> {
        self.report(dataset)
    }

    fn run(&self, dataset: &Dataset) -> (r: Vec<Finding>) {
        self.evaluate(dataset)
    }

    fn run_in(&self, dataset: &Dataset, context: &CheckContext) -> (r: Vec<Finding>) {
        self.run(dataset)
    }
}

} // verus!
