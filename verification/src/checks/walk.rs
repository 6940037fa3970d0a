//! Walking a dataset: rules for one episode, for one stream, and for the first stream that shows a
//! defect.

use vstd::prelude::*;
use vstd::string::*;

use crate::cdm::{Dataset, Episode, Stream};
use crate::check;
use crate::check::{Finding, FindingView};
use crate::text;
use crate::text::same;

verus! {

// ---- rules for one episode -------------------------------------------------------------------

/// A rule that judges each episode on its own.
pub trait EpisodeRule: Sized {
    /// What the rule reports of an episode.
    spec fn of_episode(&self, episode: Episode) -> Seq<FindingView>;

    /// What the rule reports of an episode.
    fn check_episode(&self, episode: &Episode) -> (r: Vec<Finding>)
        ensures
            check::views(r@) == self.of_episode(*episode),
    ;
}

/// What a rule reports of each episode, in order.
pub open spec fn by_episode<R: EpisodeRule>(rule: R, episodes: Seq<Episode>) -> Seq<FindingView>
    decreases episodes.len(),
{
    if episodes.len() == 0 {
        Seq::empty()
    } else {
        by_episode(rule, episodes.drop_last()) + rule.of_episode(episodes.last())
    }
}

/// Applies a rule to each episode, in order.
pub fn walk_episodes<R: EpisodeRule>(rule: &R, dataset: &Dataset) -> (r: Vec<Finding>)
    ensures
        check::views(r@) == by_episode(*rule, dataset.episodes@),
{
    broadcast use check::group_views;

    let mut out: Vec<Finding> = Vec::new();
    let mut i: usize = 0;
    while i < dataset.episodes.len()
        invariant
            i <= dataset.episodes@.len(),
            check::views(out@) == by_episode(*rule, dataset.episodes@.take(i as int)),
        decreases dataset.episodes@.len() - i,
    {
        let mut more: Vec<Finding> = rule.check_episode(&dataset.episodes[i]);
        out.append(&mut more);
        proof {
            let e = dataset.episodes@;
            assert(e.take(i + 1).drop_last() =~= e.take(i as int));
        }
        i = i + 1;
    }
    assert(dataset.episodes@.take(i as int) =~= dataset.episodes@);
    out
}

// ---- rules for one stream --------------------------------------------------------------------

/// A rule that judges each stream of an episode on its own.
pub trait StreamRule: Sized {
    /// What the rule reports of a stream.
    spec fn of_stream(&self, episode: Episode, stream: Stream) -> Seq<FindingView>;

    /// What the rule reports of a stream.
    fn check_stream(&self, episode: &Episode, stream: &Stream) -> (r: Vec<Finding>)
        ensures
            check::views(r@) == self.of_stream(*episode, *stream),
    ;
}

/// What a rule reports of each stream of an episode, in order.
pub open spec fn by_stream<R: StreamRule>(rule: R, episode: Episode, streams: Seq<Stream>) -> Seq<FindingView>
    decreases streams.len(),
{
    if streams.len() == 0 {
        Seq::empty()
    } else {
        by_stream(rule, episode, streams.drop_last()) + rule.of_stream(episode, streams.last())
    }
}

/// What a rule reports of each stream of each episode, in order.
pub open spec fn by_streams<R: StreamRule>(rule: R, episodes: Seq<Episode>) -> Seq<FindingView>
    decreases episodes.len(),
{
    if episodes.len() == 0 {
        Seq::empty()
    } else {
        by_streams(rule, episodes.drop_last()) + by_stream(rule, episodes.last(), episodes.last().streams@)
    }
}

/// Applies a rule to each stream of an episode, in order.
pub fn walk_episode_streams<R: StreamRule>(rule: &R, episode: &Episode) -> (r: Vec<Finding>)
    ensures
        check::views(r@) == by_stream(*rule, *episode, episode.streams@),
{
    broadcast use check::group_views;

    let mut out: Vec<Finding> = Vec::new();
    let mut i: usize = 0;
    while i < episode.streams.len()
        invariant
            i <= episode.streams@.len(),
            check::views(out@) == by_stream(*rule, *episode, episode.streams@.take(i as int)),
        decreases episode.streams@.len() - i,
    {
        let mut more: Vec<Finding> = rule.check_stream(episode, &episode.streams[i]);
        out.append(&mut more);
        proof {
            let s = episode.streams@;
            assert(s.take(i + 1).drop_last() =~= s.take(i as int));
        }
        i = i + 1;
    }
    assert(episode.streams@.take(i as int) =~= episode.streams@);
    out
}

/// Applies a rule to each stream of each episode, in order.
pub fn walk_streams<R: StreamRule>(rule: &R, dataset: &Dataset) -> (r: Vec<Finding>)
    ensures
        check::views(r@) == by_streams(*rule, dataset.episodes@),
{
    broadcast use check::group_views;

    let mut out: Vec<Finding> = Vec::new();
    let mut i: usize = 0;
    while i < dataset.episodes.len()
        invariant
            i <= dataset.episodes@.len(),
            check::views(out@) == by_streams(*rule, dataset.episodes@.take(i as int)),
        decreases dataset.episodes@.len() - i,
    {
        let mut more: Vec<Finding> = walk_episode_streams(rule, &dataset.episodes[i]);
        out.append(&mut more);
        proof {
            let e = dataset.episodes@;
            assert(e.take(i + 1).drop_last() =~= e.take(i as int));
        }
        i = i + 1;
    }
    assert(dataset.episodes@.take(i as int) =~= dataset.episodes@);
    out
}

// ---- every stream of a dataset, in order -----------------------------------------------------

/// The streams of an episode, each with the episode.
pub open spec fn pairs_in(episode: Episode, streams: Seq<Stream>) -> Seq<(Episode, Stream)> {
    streams.map_values(|s: Stream| (episode, s))
}

/// The streams of all episodes, in order, each with its episode.
pub open spec fn pairs(episodes: Seq<Episode>) -> Seq<(Episode, Stream)>
    decreases episodes.len(),
{
    if episodes.len() == 0 {
        Seq::empty()
    } else {
        pairs(episodes.drop_last()) + pairs_in(episodes.last(), episodes.last().streams@)
    }
}

/// The pairs before a stream of an episode.
pub open spec fn pairs_before(episodes: Seq<Episode>, i: int, j: int) -> Seq<(Episode, Stream)> {
    pairs(episodes.take(i)) + pairs_in(episodes[i], episodes[i].streams@.take(j))
}

/// Walking on by one stream.
pub proof fn lemma_pairs_step(episodes: Seq<Episode>, i: int, j: int)
    requires
        0 <= i < episodes.len(),
        0 <= j < episodes[i].streams@.len(),
    ensures
        pairs_before(episodes, i, j + 1) == pairs_before(episodes, i, j).push(
            (episodes[i], episodes[i].streams@[j]),
        ),
{
    assert(pairs_before(episodes, i, j + 1) =~= pairs_before(episodes, i, j).push(
        (episodes[i], episodes[i].streams@[j]),
    ));
}

/// Walking on by one episode.
pub proof fn lemma_pairs_next(episodes: Seq<Episode>, i: int)
    requires
        0 <= i < episodes.len(),
    ensures
        pairs_before(episodes, i, 0) == pairs(episodes.take(i)),
        pairs_before(episodes, i, episodes[i].streams@.len() as int) == pairs(episodes.take(i + 1)),
{
    assert(episodes.take(i + 1).drop_last() =~= episodes.take(i));
    assert(episodes[i].streams@.take(episodes[i].streams@.len() as int) =~= episodes[i].streams@);
    assert(pairs_before(episodes, i, 0) =~= pairs(episodes.take(i)));
}

/// There are no more streams than fit in 128 bits.
pub proof fn lemma_pairs_len(episodes: Seq<Episode>, i: int, j: int)
    requires
        0 <= i < episodes.len() <= usize::MAX,
        0 <= j < episodes[i].streams@.len(),
    ensures
        pairs_before(episodes, i, j).len() < u128::MAX,
{
    lemma_pairs_bound(episodes.take(i));
    let n = episodes[i].streams.len();
    assert(i * 0x1_0000_0000_0000_0000 + 0x1_0000_0000_0000_0000 <= 0x1_0000_0000_0000_0000
        * 0x1_0000_0000_0000_0000) by (nonlinear_arith)
        requires
            0 <= i < 0xffff_ffff_ffff_ffff,
    ;
}

/// Each episode has no more streams than its list holds.
proof fn lemma_pairs_bound(episodes: Seq<Episode>)
    ensures
        pairs(episodes).len() <= episodes.len() * 0x1_0000_0000_0000_0000,
    decreases episodes.len(),
{
    if episodes.len() > 0 {
        lemma_pairs_bound(episodes.drop_last());
        let n = episodes.last().streams.len();
        assert(n == episodes.last().streams@.len());
    }
}

// ---- the first stream that shows a defect ----------------------------------------------------

/// A rule that reports a defect once for each distinct key: the first stream that shows it.
pub trait KeyedRule: Sized {
    /// What the rule works with.
    type Tool;

    /// Whether a tool is fit for the rule.
    spec fn fits(&self, tool: &Self::Tool) -> bool;

    /// The defect that a stream shows, with the key it is reported under.
    spec fn hit(&self, episode: Episode, stream: Stream) -> Option<(Seq<Seq<char>>, FindingView)>;

    /// The defect that a stream shows, with the key it is reported under.
    fn probe(&self, tool: &Self::Tool, episode: &Episode, stream: &Stream) -> (r: Option<(Vec<String>, Finding)>)
        requires
            self.fits(tool),
        ensures
            match r {
                Some((key, f)) => self.hit(*episode, *stream) == Some((text::texts(key@), f@)),
                None => self.hit(*episode, *stream) is None,
            },
    ;
}

/// The keys of the defects that streams show.
pub open spec fn hit_keys<R: KeyedRule>(rule: R, s: Seq<(Episode, Stream)>) -> Set<Seq<Seq<char>>>
    decreases s.len(),
{
    if s.len() == 0 {
        Set::empty()
    } else {
        match rule.hit(s.last().0, s.last().1) {
            Some((key, _)) => hit_keys(rule, s.drop_last()).insert(key),
            None => hit_keys(rule, s.drop_last()),
        }
    }
}

/// The defects that streams show, each key once.
pub open spec fn first_hits<R: KeyedRule>(rule: R, s: Seq<(Episode, Stream)>) -> Seq<FindingView>
    decreases s.len(),
{
    if s.len() == 0 {
        Seq::empty()
    } else {
        let rest = first_hits(rule, s.drop_last());
        match rule.hit(s.last().0, s.last().1) {
            Some((key, f)) => if hit_keys(rule, s.drop_last()).contains(key) { rest } else { rest.push(f) },
            None => rest,
        }
    }
}

/// The texts of a list of keys.
pub open spec fn key_texts(keys: Seq<Vec<String>>) -> Seq<Seq<Seq<char>>> {
    keys.map_values(|k: Vec<String>| text::texts(k@))
}

/// Whether two lists hold the same texts.
pub fn same_texts(a: &Vec<String>, b: &Vec<String>) -> (r: bool)
    ensures
        r == (text::texts(a@) == text::texts(b@)),
{
    let ghost x = text::texts(a@);
    let ghost y = text::texts(b@);
    if a.len() != b.len() {
        assert(x.len() != y.len());
        return false;
    }
    let mut i: usize = 0;
    while i < a.len()
        invariant
            i <= a@.len(),
            a@.len() == b@.len(),
            x == text::texts(a@),
            y == text::texts(b@),
            forall|k: int| 0 <= k < i ==> x[k] == y[k],
        decreases a@.len() - i,
    {
        assert(x[i as int] == a@[i as int]@);
        assert(y[i as int] == b@[i as int]@);
        if !same(a[i].as_str(), b[i].as_str()) {
            return false;
        }
        i = i + 1;
    }
    assert(x =~= y);
    true
}

/// Whether a list of keys holds a key.
pub fn holds_key(keys: &Vec<Vec<String>>, key: &Vec<String>) -> (r: bool)
    ensures
        r == key_texts(keys@).contains(text::texts(key@)),
{
    let mut i: usize = 0;
    while i < keys.len()
        invariant
            i <= keys@.len(),
            forall|k: int| 0 <= k < i ==> #[trigger] key_texts(keys@)[k] != text::texts(key@),
        decreases keys@.len() - i,
    {
        if same_texts(&keys[i], key) {
            assert(key_texts(keys@)[i as int] == text::texts(key@));
            return true;
        }
        i = i + 1;
    }
    false
}

/// Reports each defect once.
pub fn walk_first_hits<R: KeyedRule>(rule: &R, tool: &R::Tool, dataset: &Dataset) -> (r: Vec<Finding>)
    requires
        rule.fits(tool),
    ensures
        check::views(r@) == first_hits(*rule, pairs(dataset.episodes@)),
{
    broadcast use check::group_views;

    let ghost eps = dataset.episodes@;
    let mut out: Vec<Finding> = Vec::new();
    let mut seen: Vec<Vec<String>> = Vec::new();
    let mut i: usize = 0;
    assert(pairs(eps.take(0)) =~= Seq::empty());
    while i < dataset.episodes.len()
        invariant
            i <= dataset.episodes@.len(),
            eps == dataset.episodes@,
            rule.fits(tool),
            check::views(out@) == first_hits(*rule, pairs(eps.take(i as int))),
            forall|k: Seq<Seq<char>>| key_texts(seen@).contains(k) <==> hit_keys(*rule, pairs(eps.take(i as int))).contains(k),
        decreases dataset.episodes@.len() - i,
    {
        let episode: &Episode = &dataset.episodes[i];
        proof {
            lemma_pairs_next(eps, i as int);
        }
        let mut j: usize = 0;
        while j < episode.streams.len()
            invariant
                i < eps.len(),
                *episode == eps[i as int],
                rule.fits(tool),
                j <= episode.streams@.len(),
                check::views(out@) == first_hits(*rule, pairs_before(eps, i as int, j as int)),
                forall|k: Seq<Seq<char>>|
                    key_texts(seen@).contains(k) <==> hit_keys(*rule, pairs_before(eps, i as int, j as int)).contains(k),
            decreases episode.streams@.len() - j,
        {
            let stream: &Stream = &episode.streams[j];
            let ghost was = pairs_before(eps, i as int, j as int);
            proof {
                lemma_pairs_step(eps, i as int, j as int);
                assert(was.push((*episode, *stream)).drop_last() =~= was);
            }
            let ghost known = hit_keys(*rule, was);
            let ghost now = hit_keys(*rule, was.push((*episode, *stream)));
            match rule.probe(tool, episode, stream) {
                Some((key, f)) => {
                    assert(now == known.insert(text::texts(key@)));
                    if !holds_key(&seen, &key) {
                        out.push(f);
                        let ghost old_seen = seen@;
                        seen.push(key);
                        proof {
                            lemma_key_added(old_seen, key);
                        }
                        assert(forall|k: Seq<Seq<char>>| key_texts(seen@).contains(k) <==> now.contains(k));
                    } else {
                        assert(known.contains(text::texts(key@)));
                        assert(forall|k: Seq<Seq<char>>| key_texts(seen@).contains(k) <==> now.contains(k));
                    }
                },
                None => {
                    assert(now == known);
                },
            }
            j = j + 1;
        }
        i = i + 1;
    }
    assert(eps.take(i as int) =~= eps);
    out
}

/// One key more is held.
pub proof fn lemma_key_added(keys: Seq<Vec<String>>, key: Vec<String>)
    ensures
        forall|k: Seq<Seq<char>>|
            #[trigger] key_texts(keys.push(key)).contains(k) <==> (key_texts(keys).contains(k) || k == text::texts(key@)),
{
    let a = key_texts(keys);
    let b = key_texts(keys.push(key));
    assert(b =~= a.push(text::texts(key@)));
    assert forall|k: Seq<Seq<char>>| b.contains(k) <==> a.contains(k) || k == text::texts(key@) by {
        if a.contains(k) {
            let i = choose|i: int| 0 <= i < a.len() && a[i] == k;
            assert(b[i] == k);
        }
        if k == text::texts(key@) {
            assert(b[a.len() as int] == k);
        }
        if b.contains(k) {
            let i = choose|i: int| 0 <= i < b.len() && b[i] == k;
            if i < a.len() {
                assert(a[i] == k);
            }
        }
    }
}

} // verus!
