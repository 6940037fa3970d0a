//! Coordinate frames: the graph that a rig's transforms span.

use vstd::prelude::*;
use vstd::string::*;

use crate::cdm::Transform;
use crate::seqs;
use crate::sort;
use crate::sort::{distinct_words, Word};
use crate::text;
use crate::text::{before, same};

verus! {

// ---- the graph -------------------------------------------------------------------------------

/// A transform between two frames, by their places, with the time it holds for.
pub struct EdgeView {
    /// The place of the parent frame.
    pub parent: int,
    /// The place of the child frame.
    pub child: int,
    /// From when it holds.
    pub start: int,
    /// Until when it holds.
    pub end: int,
}

/// The frames that transforms name, as they come.
pub open spec fn named_frames(s: Seq<Transform>) -> Seq<Seq<char>>
    decreases s.len(),
{
    if s.len() == 0 {
        Seq::empty()
    } else {
        named_frames(s.drop_last()).push(s.last().parent_frame@).push(s.last().child_frame@)
    }
}

/// The frames that transforms name, in order.
pub open spec fn frames_of(s: Seq<Transform>) -> Seq<Seq<char>> {
    seqs::text_set(named_frames(s))
}

/// The place of a text in a list; the length of the list where it is not there.
pub open spec fn place(s: Seq<Seq<char>>, x: Seq<char>) -> int
    decreases s.len(),
{
    if s.len() == 0 {
        0
    } else if s[0] == x {
        0
    } else {
        1 + place(s.skip(1), x)
    }
}

/// From when a transform holds: always, where it does not say.
pub open spec fn start_of(t: Transform) -> int {
    match t.valid_from {
        Some(ts) => ts as int,
        None => i64::MIN as int,
    }
}

/// Until when a transform holds: for ever, where it does not say.
pub open spec fn end_of(t: Transform) -> int {
    match t.valid_to {
        Some(ts) => ts as int,
        None => i64::MAX as int,
    }
}

/// A transform as an edge between frames.
pub open spec fn edge_of(frames: Seq<Seq<char>>, t: Transform) -> EdgeView {
    EdgeView {
        parent: place(frames, t.parent_frame@),
        child: place(frames, t.child_frame@),
        start: start_of(t),
        end: end_of(t),
    }
}

/// The transforms as edges between frames.
pub open spec fn edges_of(s: Seq<Transform>) -> Seq<EdgeView> {
    s.map_values(|t: Transform| edge_of(frames_of(s), t))
}

/// Whether edges join places below `n`.
pub open spec fn within(edges: Seq<EdgeView>, n: int) -> bool {
    forall|k: int| 0 <= k < edges.len() ==> 0 <= (#[trigger] edges[k]).parent < n && 0 <= edges[k].child < n
}

/// An edge.
pub struct Edge {
    /// The place of the parent frame.
    pub parent: usize,
    /// The place of the child frame.
    pub child: usize,
    /// From when it holds.
    pub start: i64,
    /// Until when it holds.
    pub end: i64,
}

impl View for Edge {
    type V = EdgeView;

    open spec fn view(&self) -> EdgeView {
        EdgeView {
            parent: self.parent as int,
            child: self.child as int,
            start: self.start as int,
            end: self.end as int,
        }
    }
}

/// What edges are.
pub open spec fn edge_views(s: Seq<Edge>) -> Seq<EdgeView> {
    s.map_values(|e: Edge| e@)
}

/// The graph of a rig's frames.
pub struct Graph {
    /// The frames, in order.
    pub frames: Vec<String>,
    /// The transforms between them.
    pub edges: Vec<Edge>,
}

impl Graph {
    /// Whether this is the graph of some transforms.
    pub open spec fn is_of(&self, s: Seq<Transform>) -> bool {
        &&& text::texts(self.frames@) == frames_of(s)
        &&& edge_views(self.edges@) == edges_of(s)
        &&& within(edges_of(s), self.frames@.len() as int)
    }
}

/// Where a text is in a list.
pub proof fn lemma_place(s: Seq<Seq<char>>, x: Seq<char>)
    ensures
        0 <= place(s, x) <= s.len(),
        place(s, x) < s.len() <==> s.contains(x),
        place(s, x) < s.len() ==> s[place(s, x)] == x,
    decreases s.len(),
{
    if s.len() > 0 && s[0] != x {
        let rest = s.skip(1);
        lemma_place(rest, x);
        if s.contains(x) {
            let k = choose|k: int| 0 <= k < s.len() && s[k] == x;
            assert(rest[k - 1] == x);
        }
        if rest.contains(x) {
            let k = choose|k: int| 0 <= k < rest.len() && rest[k] == x;
            assert(s[k + 1] == x);
        }
    } else if s.len() > 0 {
        assert(s.contains(s[0]));
    }
}

/// The place of a text in a list.
pub fn find(list: &Vec<String>, x: &str) -> (r: usize)
    ensures
        r as int == place(text::texts(list@), x@),
        r <= list@.len(),
        r < list@.len() <==> text::texts(list@).contains(x@),
        r < list@.len() ==> list@[r as int]@ == x@,
{
    let ghost s = text::texts(list@);
    let mut i: usize = 0;
    assert(s.skip(0) =~= s);
    proof {
        lemma_place(s, x@);
    }
    while i < list.len()
        invariant
            i <= list@.len(),
            s == text::texts(list@),
            place(s, x@) == i + place(s.skip(i as int), x@),
            0 <= place(s, x@) <= s.len(),
            place(s, x@) < s.len() <==> s.contains(x@),
            place(s, x@) < s.len() ==> s[place(s, x@)] == x@,
        decreases list@.len() - i,
    {
        assert(s.skip(i as int)[0] == list@[i as int]@);
        assert(s.skip(i as int).skip(1) =~= s.skip(i + 1));
        if same(list[i].as_str(), x) {
            return i;
        }
        i = i + 1;
    }
    i
}

/// The place of a text in a list that stands in order, without repeats.
pub fn locate(list: &Vec<String>, x: &str) -> (r: usize)
    requires
        seqs::strictly(text::texts(list@), seqs::text_order()),
    ensures
        r as int == place(text::texts(list@), x@),
{
    let ghost s = text::texts(list@);
    let ghost lt = seqs::text_order();
    let mut lo: usize = 0;
    let mut hi: usize = list.len();
    proof {
        lemma_place(s, x@);
        seqs::lemma_text_order();
    }
    while lo < hi
        invariant
            lo <= hi <= list@.len(),
            s == text::texts(list@),
            s.len() == list@.len(),
            lt == seqs::text_order(),
            seqs::total_order(lt),
            seqs::strictly(s, lt),
            forall|k: int| 0 <= k < lo ==> #[trigger] s[k] != x@,
            forall|k: int| hi <= k < s.len() ==> #[trigger] s[k] != x@,
            0 <= place(s, x@) <= s.len(),
            place(s, x@) < s.len() ==> s[place(s, x@)] == x@,
            place(s, x@) < s.len() <==> s.contains(x@),
        decreases hi - lo,
    {
        let mid: usize = lo + (hi - lo) / 2;
        assert(s[mid as int] == list@[mid as int]@);
        if same(list[mid].as_str(), x) {
            proof {
                let p = place(s, x@);
                assert(s.contains(s[mid as int]));
                if p < mid {
                    assert(lt(s[p], s[mid as int]));
                } else if mid < p {
                    assert(lt(s[mid as int], s[p]));
                }
            }
            return mid;
        }
        if before(list[mid].as_str(), x) {
            assert forall|k: int| 0 <= k < mid + 1 implies #[trigger] s[k] != x@ by {
                if k < mid {
                    assert(lt(s[k], s[mid as int]));
                }
            }
            lo = mid + 1;
        } else {
            assert forall|k: int| mid <= k < s.len() implies #[trigger] s[k] != x@ by {
                if k > mid {
                    assert(lt(s[mid as int], s[k]));
                }
            }
            hi = mid;
        }
    }
    proof {
        if s.contains(x@) {
            let k = choose|k: int| 0 <= k < s.len() && s[k] == x@;
            assert(false);
        }
    }
    list.len()
}

/// Every frame that a transform names is a frame.
pub proof fn lemma_named(s: Seq<Transform>, k: int)
    requires
        0 <= k < s.len(),
    ensures
        named_frames(s).contains(s[k].parent_frame@),
        named_frames(s).contains(s[k].child_frame@),
    decreases s.len(),
{
    let rest = named_frames(s.drop_last());
    let all = named_frames(s);
    let n = rest.len() as int;
    if k == s.len() - 1 {
        assert(all[n] == s[k].parent_frame@);
        assert(all[n + 1] == s[k].child_frame@);
    } else {
        lemma_named(s.drop_last(), k);
        let p = choose|j: int| 0 <= j < rest.len() && rest[j] == s[k].parent_frame@;
        let c = choose|j: int| 0 <= j < rest.len() && rest[j] == s[k].child_frame@;
        assert(all[p] == s[k].parent_frame@);
        assert(all[c] == s[k].child_frame@);
    }
}

/// Every edge joins frames.
pub proof fn lemma_within(s: Seq<Transform>)
    ensures
        within(edges_of(s), frames_of(s).len() as int),
{
    let f = frames_of(s);
    assert forall|k: int| 0 <= k < edges_of(s).len() implies 0 <= (#[trigger] edges_of(s)[k]).parent < f.len() && 0
        <= edges_of(s)[k].child < f.len() by {
        lemma_named(s, k);
        seqs::lemma_distinct_contains(named_frames(s), seqs::text_order(), s[k].parent_frame@);
        seqs::lemma_distinct_contains(named_frames(s), seqs::text_order(), s[k].child_frame@);
        lemma_place(f, s[k].parent_frame@);
        lemma_place(f, s[k].child_frame@);
    }
}

/// The graph of some transforms.
pub fn graph(transforms: &Vec<Transform>) -> (r: Graph)
    ensures
        r.is_of(transforms@),
{
    let ghost s = transforms@;
    let mut names: Vec<Word> = Vec::new();
    let mut i: usize = 0;
    assert(sort::words(names@) =~= Seq::empty());
    while i < transforms.len()
        invariant
            i <= transforms@.len(),
            s == transforms@,
            sort::words(names@) == named_frames(s.take(i as int)),
        decreases transforms@.len() - i,
    {
        let ghost was = names@;
        names.push(Word { text: transforms[i].parent_frame.as_str() });
        names.push(Word { text: transforms[i].child_frame.as_str() });
        proof {
            let t = s[i as int];
            assert(s.take(i + 1).drop_last() =~= s.take(i as int));
            assert(sort::words(names@) =~= sort::words(was).push(t.parent_frame@).push(t.child_frame@));
        }
        i = i + 1;
    }
    assert(s.take(i as int) =~= s);
    let frames: Vec<String> = distinct_words(&names);
    let ghost f = frames_of(s);
    let mut edges: Vec<Edge> = Vec::new();
    let mut k: usize = 0;
    proof {
        lemma_within(s);
        seqs::lemma_text_order();
        seqs::lemma_distinct_strictly(named_frames(s), seqs::text_order());
    }
    assert(f.len() == frames@.len());
    while k < transforms.len()
        invariant
            k <= transforms@.len(),
            s == transforms@,
            f == frames_of(s),
            text::texts(frames@) == f,
            f.len() == frames@.len(),
            seqs::strictly(f, seqs::text_order()),
            edges@.len() == k,
            within(edges_of(s), f.len() as int),
            forall|j: int| 0 <= j < k ==> (#[trigger] edges@[j])@ == edges_of(s)[j],
        decreases transforms@.len() - k,
    {
        let t: &Transform = &transforms[k];
        let start: i64 = match t.valid_from {
            Some(ts) => ts,
            None => -0x8000_0000_0000_0000,
        };
        let end: i64 = match t.valid_to {
            Some(ts) => ts,
            None => 0x7fff_ffff_ffff_ffff,
        };
        let parent: usize = locate(&frames, t.parent_frame.as_str());
        let child: usize = locate(&frames, t.child_frame.as_str());
        edges.push(Edge { parent, child, start, end });
        k = k + 1;
    }
    assert(edge_views(edges@) =~= edges_of(s));
    Graph { frames, edges }
}

// ---- connection ------------------------------------------------------------------------------

/// Whether edges connect two places, in either direction: each edge connects what was connected to
/// its two ends.
pub open spec fn connected(edges: Seq<EdgeView>, x: int, y: int) -> bool
    decreases edges.len(),
{
    if edges.len() == 0 {
        x == y
    } else {
        let rest = edges.drop_last();
        let e = edges.last();
        ||| connected(rest, x, y)
        ||| connected(rest, x, e.parent) && connected(rest, e.child, y)
        ||| connected(rest, x, e.child) && connected(rest, e.parent, y)
    }
}

/// Whether two places are joined by an edge, in either direction.
pub open spec fn adjacent(edges: Seq<EdgeView>, x: int, y: int) -> bool {
    exists|k: int|
        0 <= k < edges.len() && ((#[trigger] edges[k]).parent == x && edges[k].child == y || edges[k].parent == y
            && edges[k].child == x)
}

/// Whether a list of places is a walk along edges from one place to another.
pub open spec fn is_walk(edges: Seq<EdgeView>, walk: Seq<int>, x: int, y: int) -> bool {
    &&& walk.len() > 0
    &&& walk[0] == x
    &&& walk.last() == y
    &&& forall|i: int| 0 <= i < walk.len() - 1 ==> adjacent(edges, #[trigger] walk[i], walk[i + 1])
}

/// A place is connected to itself.
proof fn lemma_reflexive(edges: Seq<EdgeView>, x: int)
    ensures
        connected(edges, x, x),
    decreases edges.len(),
{
    if edges.len() > 0 {
        lemma_reflexive(edges.drop_last(), x);
    }
}

/// Connection goes both ways.
proof fn lemma_symmetric(edges: Seq<EdgeView>, x: int, y: int)
    requires
        connected(edges, x, y),
    ensures
        connected(edges, y, x),
    decreases edges.len(),
{
    if edges.len() > 0 {
        let rest = edges.drop_last();
        let (p, c) = (edges.last().parent, edges.last().child);
        if connected(rest, x, y) {
            lemma_symmetric(rest, x, y);
        } else if connected(rest, x, p) && connected(rest, c, y) {
            lemma_symmetric(rest, x, p);
            lemma_symmetric(rest, c, y);
        } else {
            lemma_symmetric(rest, x, c);
            lemma_symmetric(rest, p, y);
        }
    }
}

/// Connection goes on.
proof fn lemma_transitive(edges: Seq<EdgeView>, x: int, y: int, z: int)
    requires
        connected(edges, x, y),
        connected(edges, y, z),
    ensures
        connected(edges, x, z),
    decreases edges.len(),
{
    if edges.len() > 0 {
        let rest = edges.drop_last();
        let (p, c) = (edges.last().parent, edges.last().child);
        if connected(rest, x, y) {
            if connected(rest, y, z) {
                lemma_transitive(rest, x, y, z);
            } else if connected(rest, y, p) && connected(rest, c, z) {
                lemma_transitive(rest, x, y, p);
            } else {
                lemma_transitive(rest, x, y, c);
            }
        } else if connected(rest, x, p) && connected(rest, c, y) {
            if connected(rest, y, z) {
                lemma_transitive(rest, c, y, z);
            } else if connected(rest, y, p) && connected(rest, c, z) {
            } else {
                // From `x` to the parent, and from the parent on.
                lemma_transitive(rest, x, p, z);
            }
        } else {
            if connected(rest, y, z) {
                lemma_transitive(rest, p, y, z);
            } else if connected(rest, y, p) && connected(rest, c, z) {
                lemma_transitive(rest, x, c, z);
            }
        }
    }
}

/// Connection is reflexive, symmetric and transitive.
pub proof fn lemma_connected(edges: Seq<EdgeView>)
    ensures
        forall|x: int| #[trigger] connected(edges, x, x),
        forall|x: int, y: int| #[trigger] connected(edges, x, y) ==> connected(edges, y, x),
        forall|x: int, y: int, z: int| #[trigger]
            connected(edges, x, y) && #[trigger] connected(edges, y, z) ==> connected(edges, x, z),
{
    assert forall|x: int| #[trigger] connected(edges, x, x) by {
        lemma_reflexive(edges, x);
    }
    assert forall|x: int, y: int| #[trigger] connected(edges, x, y) implies connected(edges, y, x) by {
        lemma_symmetric(edges, x, y);
    }
    assert forall|x: int, y: int, z: int| #[trigger]
        connected(edges, x, y) && #[trigger] connected(edges, y, z) implies connected(edges, x, z) by {
        lemma_transitive(edges, x, y, z);
    }
}

/// Two places that an edge joins are connected.
proof fn lemma_adjacent_connected(edges: Seq<EdgeView>, x: int, y: int)
    requires
        adjacent(edges, x, y),
    ensures
        connected(edges, x, y),
    decreases edges.len(),
{
    let rest = edges.drop_last();
    let k = choose|k: int|
        0 <= k < edges.len() && ((#[trigger] edges[k]).parent == x && edges[k].child == y || edges[k].parent == y
            && edges[k].child == x);
    lemma_connected(rest);
    if k < rest.len() {
        assert(rest[k] == edges[k]);
        lemma_adjacent_connected(rest, x, y);
    } else {
        assert(connected(rest, x, x));
        assert(connected(rest, y, y));
    }
}

/// Two walks, end to end.
proof fn lemma_walks_join(edges: Seq<EdgeView>, a: Seq<int>, b: Seq<int>, x: int, y: int, u: int, v: int)
    requires
        is_walk(edges, a, x, u),
        is_walk(edges, b, v, y),
        adjacent(edges, u, v),
    ensures
        is_walk(edges, a + b, x, y),
{
    let w = a + b;
    assert forall|i: int| 0 <= i < w.len() - 1 implies adjacent(edges, #[trigger] w[i], w[i + 1]) by {
        if i < a.len() - 1 {
            assert(w[i] == a[i]);
            assert(w[i + 1] == a[i + 1]);
        } else if i == a.len() - 1 {
            assert(w[i] == u);
            assert(w[i + 1] == v);
        } else {
            let j = i - a.len();
            assert(w[i] == b[j]);
            assert(w[i + 1] == b[j + 1]);
        }
    }
}

/// A walk along fewer edges is a walk along more.
proof fn lemma_walk_extends(edges: Seq<EdgeView>, walk: Seq<int>, x: int, y: int)
    requires
        edges.len() > 0,
        is_walk(edges.drop_last(), walk, x, y),
    ensures
        is_walk(edges, walk, x, y),
{
    let rest = edges.drop_last();
    assert forall|i: int| 0 <= i < walk.len() - 1 implies adjacent(edges, #[trigger] walk[i], walk[i + 1]) by {
        assert(adjacent(rest, walk[i], walk[i + 1]));
        let k = choose|k: int|
            0 <= k < rest.len() && ((#[trigger] rest[k]).parent == walk[i] && rest[k].child == walk[i + 1]
                || rest[k].parent == walk[i + 1] && rest[k].child == walk[i]);
        assert(edges[k] == rest[k]);
    }
}

/// Connected places have a walk between them.
proof fn lemma_connected_has_walk(edges: Seq<EdgeView>, x: int, y: int) -> (walk: Seq<int>)
    requires
        connected(edges, x, y),
    ensures
        is_walk(edges, walk, x, y),
    decreases edges.len(),
{
    if edges.len() == 0 {
        seq![x]
    } else {
        let rest = edges.drop_last();
        let e = edges.last();
        assert(edges[edges.len() - 1] == e);
        if connected(rest, x, y) {
            let w = lemma_connected_has_walk(rest, x, y);
            lemma_walk_extends(edges, w, x, y);
            w
        } else if connected(rest, x, e.parent) && connected(rest, e.child, y) {
            let a = lemma_connected_has_walk(rest, x, e.parent);
            let b = lemma_connected_has_walk(rest, e.child, y);
            lemma_walk_extends(edges, a, x, e.parent);
            lemma_walk_extends(edges, b, e.child, y);
            assert(adjacent(edges, e.parent, e.child));
            lemma_walks_join(edges, a, b, x, y, e.parent, e.child);
            a + b
        } else {
            let a = lemma_connected_has_walk(rest, x, e.child);
            let b = lemma_connected_has_walk(rest, e.parent, y);
            lemma_walk_extends(edges, a, x, e.child);
            lemma_walk_extends(edges, b, e.parent, y);
            assert(adjacent(edges, e.child, e.parent));
            lemma_walks_join(edges, a, b, x, y, e.child, e.parent);
            a + b
        }
    }
}

/// Two places are connected exactly where a walk along the edges, taken in either direction, leads
/// from one to the other.
pub proof fn law_connected_is_walkable(edges: Seq<EdgeView>, x: int, y: int)
    ensures
        connected(edges, x, y) <==> exists|walk: Seq<int>| is_walk(edges, walk, x, y),
{
    if connected(edges, x, y) {
        let w = lemma_connected_has_walk(edges, x, y);
        assert(is_walk(edges, w, x, y));
    }
    if exists|walk: Seq<int>| is_walk(edges, walk, x, y) {
        let w = choose|walk: Seq<int>| is_walk(edges, walk, x, y);
        lemma_walk_connects(edges, w, x, y);
    }
}

/// The ends of a walk are connected.
proof fn lemma_walk_connects(edges: Seq<EdgeView>, walk: Seq<int>, x: int, y: int)
    requires
        is_walk(edges, walk, x, y),
    ensures
        connected(edges, x, y),
    decreases walk.len(),
{
    lemma_connected(edges);
    if walk.len() == 1 {
        assert(connected(edges, x, x));
    } else {
        let rest = walk.drop_last();
        let n = walk.len() as int;
        let u = walk[n - 2];
        assert(adjacent(edges, walk[n - 2], walk[n - 2 + 1]));
        assert forall|i: int| 0 <= i < rest.len() - 1 implies adjacent(edges, #[trigger] rest[i], rest[i + 1]) by {
            assert(adjacent(edges, walk[i], walk[i + 1]));
        }
        lemma_walk_connects(edges, rest, x, u);
        lemma_adjacent_connected(edges, u, y);
    }
}

/// Whether a place is connected to one below it.
pub open spec fn joins_earlier(edges: Seq<EdgeView>, i: int) -> bool {
    exists|j: int| 0 <= j < i && #[trigger] connected(edges, j, i)
}

/// How many of the first `n` places are not connected to one below: the number of components.
pub open spec fn components(edges: Seq<EdgeView>, n: nat) -> nat
    decreases n,
{
    if n == 0 {
        0
    } else {
        components(edges, (n - 1) as nat) + (if joins_earlier(edges, n - 1) { 0nat } else { 1 })
    }
}

/// The component of each place: the least place that it is connected to.
pub fn label(g: &Graph, Ghost(s): Ghost<Seq<Transform>>) -> (r: Vec<usize>)
    requires
        g.is_of(s),
    ensures
        r@.len() == g.frames@.len(),
        forall|x: int, y: int|
            0 <= x < r@.len() && 0 <= y < r@.len() ==> (#[trigger] r@[x] == #[trigger] r@[y] <==> connected(edges_of(s), x, y)),
        forall|x: int| 0 <= x < r@.len() ==> #[trigger] r@[x] <= x && r@[r@[x] as int] == r@[x],
{
    let ghost e = edges_of(s);
    let n: usize = g.frames.len();
    let mut out: Vec<usize> = Vec::new();
    while out.len() < n
        invariant
            out@.len() <= n,
            forall|k: int| 0 <= k < out@.len() ==> #[trigger] out@[k] == k,
        decreases n - out@.len(),
    {
        let k: usize = out.len();
        out.push(k);
    }
    let mut i: usize = 0;
    while i < g.edges.len()
        invariant
            i <= g.edges@.len(),
            n == g.frames@.len(),
            out@.len() == n,
            e == edges_of(s),
            edge_views(g.edges@) == e,
            within(e, n as int),
            forall|x: int, y: int|
                0 <= x < n && 0 <= y < n ==> (#[trigger] out@[x] == #[trigger] out@[y] <==> connected(e.take(i as int), x, y)),
            forall|x: int| 0 <= x < n ==> #[trigger] out@[x] <= x && out@[out@[x] as int] == out@[x],
        decreases g.edges@.len() - i,
    {
        let ghost was = out@;
        let ghost rest = e.take(i as int);
        assert(e[i as int] == g.edges@[i as int]@);
        let a: usize = g.edges[i].parent;
        let b: usize = g.edges[i].child;
        assert(0 <= e[i as int].parent < n && 0 <= e[i as int].child < n);
        let (x, y): (usize, usize) = (out[a], out[b]);
        let lo: usize = if x < y { x } else { y };
        let hi: usize = if x < y { y } else { x };
        let mut k: usize = 0;
        while k < n
            invariant
                k <= n,
                out@.len() == n,
                was.len() == n,
                lo < n,
                forall|j: int| 0 <= j < k ==> #[trigger] out@[j] == (if was[j] == hi { lo } else { was[j] }),
                forall|j: int| k <= j < n ==> #[trigger] out@[j] == was[j],
            decreases n - k,
        {
            if out[k] == hi {
                out.set(k, lo);
            }
            k = k + 1;
        }
        proof {
            let now = e.take(i + 1);
            assert(now.drop_last() =~= rest);
            lemma_connected(rest);
            assert(was[x as int] == x);
            assert(was[y as int] == y);
            assert forall|p: int, q: int| 0 <= p < n && 0 <= q < n implies (#[trigger] out@[p] == #[trigger] out@[q]
                <==> connected(now, p, q)) by {
                assert(connected(rest, p, a as int) <==> was[p] == was[a as int]);
                assert(connected(rest, p, b as int) <==> was[p] == was[b as int]);
                assert(connected(rest, a as int, q) <==> was[a as int] == was[q]);
                assert(connected(rest, b as int, q) <==> was[b as int] == was[q]);
                assert(connected(rest, p, q) <==> was[p] == was[q]);
            }
            assert forall|p: int| 0 <= p < n implies #[trigger] out@[p] <= p && out@[out@[p] as int] == out@[p] by {
                assert(was[was[p] as int] == was[p]);
            }
        }
        i = i + 1;
    }
    assert(e.take(i as int) =~= e);
    out
}

/// How many components a graph has.
pub fn tf_component_count(g: &Graph, Ghost(s): Ghost<Seq<Transform>>) -> (r: usize)
    requires
        g.is_of(s),
    ensures
        r as nat == components(edges_of(s), frames_of(s).len()),
{
    let ghost e = edges_of(s);
    let labels: Vec<usize> = label(g, Ghost(s));
    let mut count: usize = 0;
    let mut i: usize = 0;
    assert(frames_of(s).len() == g.frames@.len());
    while i < labels.len()
        invariant
            i <= labels@.len(),
            count <= i,
            count as nat == components(e, i as nat),
            forall|x: int, y: int|
                0 <= x < labels@.len() && 0 <= y < labels@.len() ==> (#[trigger] labels@[x] == #[trigger] labels@[y]
                    <==> connected(e, x, y)),
            forall|x: int| 0 <= x < labels@.len() ==> #[trigger] labels@[x] <= x && labels@[labels@[x] as int] == labels@[x],
        decreases labels@.len() - i,
    {
        proof {
            let l = labels@[i as int];
            if l < i {
                assert(labels@[l as int] == labels@[i as int]);
                assert(connected(e, l as int, i as int));
            } else if joins_earlier(e, i as int) {
                let j = choose|j: int| 0 <= j < i && #[trigger] connected(e, j, i as int);
                assert(labels@[j] == labels@[i as int]);
                assert(labels@[j] <= j);
            }
        }
        if labels[i] == i {
            count = count + 1;
        }
        i = i + 1;
    }
    count
}

} // verus!
