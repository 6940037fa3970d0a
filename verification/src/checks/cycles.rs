//! Directed cycles among a rig's transforms.

use vstd::prelude::*;
use vstd::string::*;

use crate::cdm::Transform;
use crate::checks::frames;
use crate::checks::frames::{graph, Edge, EdgeView, Graph};
use crate::text;

verus! {

// ---- what is found ---------------------------------------------------------------------------

/// Whether an edge holds at an instant; every edge, where none is given.
pub open spec fn is_live(e: EdgeView, at: Option<int>) -> bool {
    match at {
        Some(t) => e.start <= t <= e.end,
        None => true,
    }
}

/// The places of those of the first `n` edges that lead out of a frame at an instant, in order.
pub open spec fn outgoing(edges: Seq<EdgeView>, at: Option<int>, f: int, n: nat) -> Seq<int>
    decreases n,
{
    if n == 0 {
        Seq::empty()
    } else if edges[n - 1].parent == f && is_live(edges[n - 1], at) {
        outgoing(edges, at, f, (n - 1) as nat).push(n - 1)
    } else {
        outgoing(edges, at, f, (n - 1) as nat)
    }
}

/// How many frames were not visited yet.
pub open spec fn fresh(marks: Seq<int>) -> nat
    decreases marks.len(),
{
    if marks.len() == 0 {
        0
    } else {
        fresh(marks.drop_last()) + (if marks.last() == 0 { 1nat } else { 0 })
    }
}

/// Where on a path a frame is left; the end of the path where it is not.
pub open spec fn left_at(edges: Seq<EdgeView>, path: Seq<int>, f: int) -> int
    decreases path.len(),
{
    if path.len() == 0 {
        0
    } else if edges[path[0]].parent == f {
        0
    } else {
        1 + left_at(edges, path.skip(1), f)
    }
}

/// The loop that an edge back to a frame of the path closes.
pub open spec fn loop_of(edges: Seq<EdgeView>, path: Seq<int>, e: int) -> Seq<int> {
    path.skip(left_at(edges, path, edges[e].child)).push(e)
}

/// Where a search stands.
pub struct Search {
    /// Each frame's mark: zero where it was not visited, one where it is on the path, two where
    /// everything behind it was searched.
    pub marks: Seq<int>,
    /// The loop that was found.
    pub found: Option<Seq<int>>,
}

/// Searches from a frame at an instant, depth first, from its `k`-th outgoing edge on: the first edge
/// back to a frame of the path.
pub open spec fn explore(edges: Seq<EdgeView>, at: Option<int>, f: int, k: int, marks: Seq<int>, path: Seq<int>) -> Search
    decreases fresh(marks), outgoing(edges, at, f, edges.len()).len() - k,
{
    let out = outgoing(edges, at, f, edges.len());
    if k < 0 || k >= out.len() {
        Search { marks: marks.update(f, 2), found: None }
    } else {
        let e = out[k];
        let child = edges[e].child;
        if marks[child] == 1 {
            Search { marks, found: Some(loop_of(edges, path, e)) }
        } else if marks[child] == 0 && 0 <= child < marks.len() {
            proof {
                lemma_fresh_update(marks, child, 1);
            }
            let deeper = explore(edges, at, child, 0, marks.update(child, 1), path.push(e));
            if deeper.found is Some || fresh(deeper.marks) > fresh(marks) {
                deeper
            } else {
                explore(edges, at, f, k + 1, deeper.marks, path)
            }
        } else {
            explore(edges, at, f, k + 1, marks, path)
        }
    }
}

/// Searches from each frame in turn that was not visited yet.
pub open spec fn search_from(edges: Seq<EdgeView>, at: Option<int>, i: int, marks: Seq<int>) -> Option<Seq<int>>
    decreases marks.len() - i,
{
    if i < 0 || i >= marks.len() {
        None
    } else if marks[i] != 0 {
        search_from(edges, at, i + 1, marks)
    } else {
        let s = explore(edges, at, i, 0, marks.update(i, 1), Seq::empty());
        if s.found is Some || s.marks.len() != marks.len() {
            s.found
        } else {
            search_from(edges, at, i + 1, s.marks)
        }
    }
}

/// No marks for `n` frames.
pub open spec fn unmarked(n: nat) -> Seq<int> {
    Seq::new(n, |i: int| 0int)
}

/// The directed cycle that is found among the edges that hold at an instant.
pub open spec fn cycle_at(edges: Seq<EdgeView>, at: Option<int>, n: nat) -> Option<Seq<int>> {
    search_from(edges, at, 0, unmarked(n))
}

/// The directed cycle that is found at the start of the `i`-th edge or of one behind it. The edges of
/// a cycle all hold at once exactly where they hold when the last of them starts.
pub open spec fn first_cycle(edges: Seq<EdgeView>, n: nat, i: int) -> Option<Seq<int>>
    decreases edges.len() - i,
{
    if i < 0 || i >= edges.len() {
        None
    } else {
        match cycle_at(edges, Some(edges[i].start), n) {
            Some(l) => Some(l),
            None => first_cycle(edges, n, i + 1),
        }
    }
}

/// The directed cycle that is found among transforms, by its edges.
pub open spec fn cycle_edges(s: Seq<Transform>) -> Option<Seq<int>> {
    first_cycle(frames::edges_of(s), frames::frames_of(s).len(), 0)
}

/// The frames of a loop, with the first repeated at the end.
pub open spec fn loop_frames(s: Seq<Transform>, l: Seq<int>) -> Seq<Seq<char>> {
    l.map_values(|e: int| s[e].parent_frame@).push(s[l.last()].child_frame@)
}

/// The frames of the directed cycle that is found among transforms.
pub open spec fn cycle(s: Seq<Transform>) -> Option<Seq<Seq<char>>> {
    match cycle_edges(s) {
        Some(l) => Some(loop_frames(s, l)),
        None => None,
    }
}

// ---- what the search keeps -------------------------------------------------------------------

/// Marking a frame as visited leaves one fewer that was not.
pub proof fn lemma_fresh_update(marks: Seq<int>, i: int, v: int)
    requires
        0 <= i < marks.len(),
        v != 0,
    ensures
        fresh(marks.update(i, v)) == fresh(marks) - (if marks[i] == 0 { 1int } else { 0 }),
    decreases marks.len(),
{
    let now = marks.update(i, v);
    if i == marks.len() - 1 {
        assert(now.drop_last() =~= marks.drop_last());
    } else {
        assert(now.drop_last() =~= marks.drop_last().update(i, v));
        lemma_fresh_update(marks.drop_last(), i, v);
    }
}

/// The edges that lead out of a frame at an instant.
proof fn lemma_outgoing(edges: Seq<EdgeView>, at: Option<int>, f: int, n: nat)
    requires
        n <= edges.len(),
    ensures
        forall|k: int|
            0 <= k < outgoing(edges, at, f, n).len() ==> {
                let e = #[trigger] outgoing(edges, at, f, n)[k];
                0 <= e < n && edges[e].parent == f && is_live(edges[e], at)
            },
        forall|e: int|
            0 <= e < n && (#[trigger] edges[e]).parent == f && is_live(edges[e], at) ==> outgoing(edges, at, f, n).contains(
                e,
            ),
    decreases n,
{
    if n > 0 {
        lemma_outgoing(edges, at, f, (n - 1) as nat);
        let rest = outgoing(edges, at, f, (n - 1) as nat);
        let all = outgoing(edges, at, f, n);
        assert forall|k: int| 0 <= k < all.len() implies {
            let e = #[trigger] all[k];
            0 <= e < n && edges[e].parent == f && is_live(edges[e], at)
        } by {
            if k < rest.len() {
                assert(all[k] == rest[k]);
            }
        }
        assert forall|e: int| 0 <= e < n && (#[trigger] edges[e]).parent == f && is_live(edges[e], at) implies all.contains(
            e,
        ) by {
            if e < n - 1 {
                assert(rest.contains(e));
                let k = choose|k: int| 0 <= k < rest.len() && rest[k] == e;
                assert(all[k] == e);
            } else {
                assert(all[rest.len() as int] == e);
            }
        }
    }
}

/// A search visits frames and forgets none.
proof fn lemma_explore(edges: Seq<EdgeView>, at: Option<int>, f: int, k: int, marks: Seq<int>, path: Seq<int>)
    requires
        frames::within(edges, marks.len() as int),
        0 <= f < marks.len(),
    ensures
        explore(edges, at, f, k, marks, path).marks.len() == marks.len(),
        fresh(explore(edges, at, f, k, marks, path).marks) <= fresh(marks),
    decreases fresh(marks), outgoing(edges, at, f, edges.len()).len() - k,
{
    let out = outgoing(edges, at, f, edges.len());
    if k < 0 || k >= out.len() {
        lemma_fresh_update(marks, f, 2);
    } else {
        lemma_outgoing(edges, at, f, edges.len());
        let e = out[k];
        let child = edges[e].child;
        assert(0 <= edges[e].child < marks.len());
        if marks[child] == 0 {
            lemma_fresh_update(marks, child, 1);
            let deeper = explore(edges, at, child, 0, marks.update(child, 1), path.push(e));
            lemma_explore(edges, at, child, 0, marks.update(child, 1), path.push(e));
            if deeper.found is None {
                lemma_explore(edges, at, f, k + 1, deeper.marks, path);
            }
        } else if marks[child] != 1 {
            lemma_explore(edges, at, f, k + 1, marks, path);
        }
    }
}

// ---- what is found is a cycle ----------------------------------------------------------------

/// Whether edges follow one another.
pub open spec fn is_chain(edges: Seq<EdgeView>, l: Seq<int>) -> bool {
    &&& forall|i: int| 0 <= i < l.len() ==> 0 <= #[trigger] l[i] < edges.len()
    &&& forall|i: int| 0 <= i < l.len() - 1 ==> edges[#[trigger] l[i]].child == edges[l[i + 1]].parent
}

/// Whether some edges all hold at one moment: each starts before any other ends.
pub open spec fn simultaneous(edges: Seq<EdgeView>, l: Seq<int>) -> bool {
    forall|i: int, j: int|
        0 <= i < l.len() && 0 <= j < l.len() ==> edges[#[trigger] l[i]].start <= edges[#[trigger] l[j]].end
}

/// Whether edges follow one another round in a circle, and all hold at one moment.
pub open spec fn is_cycle(edges: Seq<EdgeView>, l: Seq<int>) -> bool {
    &&& l.len() > 0
    &&& is_chain(edges, l)
    &&& edges[l.last()].child == edges[l[0]].parent
    &&& simultaneous(edges, l)
}

/// Whether edges follow one another round in a circle, and hold at an instant.
spec fn is_loop(edges: Seq<EdgeView>, at: Option<int>, l: Seq<int>) -> bool {
    &&& l.len() > 0
    &&& is_chain(edges, l)
    &&& edges[l.last()].child == edges[l[0]].parent
    &&& forall|i: int| 0 <= i < l.len() ==> is_live(edges[#[trigger] l[i]], at)
}

/// Whether a path leads to a frame at an instant, and the frames with a mark of one are those on it.
spec fn is_path_to(edges: Seq<EdgeView>, at: Option<int>, path: Seq<int>, f: int, marks: Seq<int>) -> bool {
    &&& is_chain(edges, path)
    &&& forall|i: int| 0 <= i < path.len() ==> is_live(edges[#[trigger] path[i]], at)
    &&& path.len() > 0 ==> edges[path.last()].child == f
    &&& forall|g: int|
        0 <= g < marks.len() && #[trigger] marks[g] == 1 ==> g == f || exists|i: int|
            0 <= i < path.len() && edges[#[trigger] path[i]].parent == g
}

/// Where a frame is left on a path.
proof fn lemma_left_at(edges: Seq<EdgeView>, path: Seq<int>, f: int)
    ensures
        0 <= left_at(edges, path, f) <= path.len(),
        left_at(edges, path, f) < path.len() ==> edges[path[left_at(edges, path, f)]].parent == f,
        left_at(edges, path, f) == path.len() ==> forall|i: int| 0 <= i < path.len() ==> edges[#[trigger] path[i]].parent != f,
    decreases path.len(),
{
    if path.len() > 0 && edges[path[0]].parent != f {
        let rest = path.skip(1);
        lemma_left_at(edges, rest, f);
        if left_at(edges, rest, f) == rest.len() {
            assert forall|i: int| 0 <= i < path.len() implies edges[#[trigger] path[i]].parent != f by {
                if i > 0 {
                    assert(path[i] == rest[i - 1]);
                }
            }
        }
    }
}

/// An edge back to a frame of the path closes a circle.
proof fn lemma_loop(edges: Seq<EdgeView>, at: Option<int>, path: Seq<int>, f: int, e: int, marks: Seq<int>)
    requires
        is_path_to(edges, at, path, f, marks),
        0 <= e < edges.len(),
        edges[e].parent == f,
        0 <= edges[e].child < marks.len(),
        marks[edges[e].child] == 1,
        is_live(edges[e], at),
    ensures
        is_loop(edges, at, loop_of(edges, path, e)),
{
    let c = edges[e].child;
    lemma_left_at(edges, path, c);
    let start = left_at(edges, path, c);
    let l = loop_of(edges, path, e);
    let tail = path.skip(start);
    assert forall|i: int| 0 <= i < l.len() implies 0 <= #[trigger] l[i] < edges.len() by {
        if i < tail.len() {
            assert(l[i] == path[start + i]);
        }
    }
    assert forall|i: int| 0 <= i < l.len() implies is_live(edges[#[trigger] l[i]], at) by {
        if i < tail.len() {
            assert(l[i] == path[start + i]);
        }
    }
    assert forall|i: int| 0 <= i < l.len() - 1 implies edges[#[trigger] l[i]].child == edges[l[i + 1]].parent by {
        assert(l[i] == path[start + i]);
        if i + 1 < tail.len() {
            assert(l[i + 1] == path[start + i + 1]);
        } else {
            assert(path[start + i] == path.last());
        }
    }
    if start < path.len() {
        assert(l[0] == path[start]);
    } else {
        assert(l[0] == e);
        assert(c == f);
    }
}

/// What a search from a frame finds is a loop; where it finds none, it leaves no frame behind it on
/// the path.
proof fn lemma_explore_finds_loops(edges: Seq<EdgeView>, at: Option<int>, f: int, k: int, marks: Seq<int>, path: Seq<int>)
    requires
        frames::within(edges, marks.len() as int),
        0 <= f < marks.len(),
        is_path_to(edges, at, path, f, marks),
        marks[f] == 1,
    ensures
        explore(edges, at, f, k, marks, path).found matches Some(l) ==> is_loop(edges, at, l),
        explore(edges, at, f, k, marks, path).found is None ==> forall|g: int|
            0 <= g < marks.len() && #[trigger] explore(edges, at, f, k, marks, path).marks[g] == 1 ==> marks[g] == 1 && g != f,
        explore(edges, at, f, k, marks, path).found is None ==> forall|g: int|
            0 <= g < marks.len() && #[trigger] marks[g] == 1 && g != f ==> explore(edges, at, f, k, marks, path).marks[g] == 1,
    decreases fresh(marks), outgoing(edges, at, f, edges.len()).len() - k,
{
    let out = outgoing(edges, at, f, edges.len());
    let all = explore(edges, at, f, k, marks, path);
    if k < 0 || k >= out.len() {
    } else {
        lemma_outgoing(edges, at, f, edges.len());
        let e = out[k];
        let child = edges[e].child;
        assert(0 <= edges[e].child < marks.len());
        if marks[child] == 1 {
            lemma_loop(edges, at, path, f, e, marks);
        } else if marks[child] == 0 {
            lemma_fresh_update(marks, child, 1);
            let m = marks.update(child, 1);
            let p = path.push(e);
            assert(is_path_to(edges, at, p, child, m)) by {
                assert forall|i: int| 0 <= i < p.len() implies is_live(edges[#[trigger] p[i]], at) by {
                    if i < path.len() {
                        assert(p[i] == path[i]);
                    }
                }
                assert forall|i: int| 0 <= i < p.len() - 1 implies edges[#[trigger] p[i]].child == edges[p[i + 1]].parent by {
                    assert(p[i] == path[i]);
                    if i + 1 == path.len() {
                        assert(path[i] == path.last());
                    } else {
                        assert(p[i + 1] == path[i + 1]);
                    }
                }
                assert forall|g: int| 0 <= g < m.len() && #[trigger] m[g] == 1 implies g == child || exists|i: int|
                    0 <= i < p.len() && edges[#[trigger] p[i]].parent == g by {
                    if g != child {
                        assert(marks[g] == 1);
                        if g == f {
                            assert(edges[p[path.len() as int]].parent == g);
                        } else {
                            let i = choose|i: int| 0 <= i < path.len() && edges[#[trigger] path[i]].parent == g;
                            assert(p[i] == path[i]);
                        }
                    }
                }
            }
            let deeper = explore(edges, at, child, 0, m, p);
            lemma_explore_finds_loops(edges, at, child, 0, m, p);
            lemma_explore(edges, at, child, 0, m, p);
            if deeper.found is None {
                assert(m[f] == 1);
                assert(deeper.marks[f] == 1);
                assert(is_path_to(edges, at, path, f, deeper.marks)) by {
                    assert forall|g: int| 0 <= g < deeper.marks.len() && #[trigger] deeper.marks[g] == 1 implies g == f
                        || exists|i: int| 0 <= i < path.len() && edges[#[trigger] path[i]].parent == g by {
                        assert(m[g] == 1);
                        assert(marks[g] == 1);
                    }
                }
                lemma_explore_finds_loops(edges, at, f, k + 1, deeper.marks, path);
                assert(all == explore(edges, at, f, k + 1, deeper.marks, path));
                if all.found is None {
                    assert forall|g: int| 0 <= g < marks.len() && #[trigger] marks[g] == 1 && g != f implies all.marks[g] == 1 by {
                        assert(m[g] == 1);
                        assert(deeper.marks[g] == 1);
                    }
                    assert forall|g: int| 0 <= g < marks.len() && #[trigger] all.marks[g] == 1 implies marks[g] == 1 && g != f by {
                        assert(deeper.marks[g] == 1);
                        assert(m[g] == 1);
                    }
                }
            }
        } else {
            lemma_explore_finds_loops(edges, at, f, k + 1, marks, path);
        }
    }
}

/// What a search finds is a loop.
proof fn lemma_search_finds_loops(edges: Seq<EdgeView>, at: Option<int>, i: int, marks: Seq<int>)
    requires
        frames::within(edges, marks.len() as int),
        forall|g: int| 0 <= g < marks.len() ==> #[trigger] marks[g] != 1,
    ensures
        search_from(edges, at, i, marks) matches Some(l) ==> is_loop(edges, at, l),
    decreases marks.len() - i,
{
    if i < 0 || i >= marks.len() {
    } else if marks[i] != 0 {
        lemma_search_finds_loops(edges, at, i + 1, marks);
    } else {
        let m = marks.update(i, 1);
        let none = Seq::<int>::empty();
        assert(is_path_to(edges, at, none, i, m)) by {
            assert forall|g: int| 0 <= g < m.len() && #[trigger] m[g] == 1 implies g == i by {
                if g != i {
                    assert(m[g] == marks[g]);
                }
            }
        }
        lemma_explore_finds_loops(edges, at, i, 0, m, none);
        lemma_explore(edges, at, i, 0, m, none);
        let s = explore(edges, at, i, 0, m, none);
        if s.found is None {
            assert forall|g: int| 0 <= g < s.marks.len() implies #[trigger] s.marks[g] != 1 by {
                if s.marks[g] == 1 {
                    assert(m[g] == 1);
                    assert(m[g] == marks[g]);
                }
            }
            lemma_search_finds_loops(edges, at, i + 1, s.marks);
        }
    }
}

/// The cycle that is found from the `i`-th edge on is one.
proof fn lemma_first_is_cycle(edges: Seq<EdgeView>, n: nat, i: int)
    requires
        frames::within(edges, n as int),
    ensures
        first_cycle(edges, n, i) matches Some(l) ==> is_cycle(edges, l) && is_loop(edges, None, l),
    decreases edges.len() - i,
{
    if 0 <= i < edges.len() {
        lemma_search_finds_loops(edges, Some(edges[i].start), 0, unmarked(n));
        if cycle_at(edges, Some(edges[i].start), n) is None {
            lemma_first_is_cycle(edges, n, i + 1);
        }
    }
}

/// The cycle that is found is one: its edges follow one another round in a circle, and all hold at
/// one moment.
pub proof fn law_found_cycles_are_cycles(s: Seq<Transform>)
    ensures
        cycle_edges(s) matches Some(l) ==> is_cycle(frames::edges_of(s), l),
{
    frames::lemma_within(s);
    lemma_first_is_cycle(frames::edges_of(s), frames::frames_of(s).len(), 0);
}

// ---- every cycle is found --------------------------------------------------------------------

/// Whether everything behind a frame was searched.
spec fn is_done(mark: int) -> bool {
    mark != 0 && mark != 1
}

/// Whether each edge that leads out of a frame behind which everything was searched leads to another
/// such frame, of a lower grade; and all grades are below a bound.
spec fn is_graded(edges: Seq<EdgeView>, at: Option<int>, marks: Seq<int>, grades: Seq<int>, bound: int) -> bool {
    &&& grades.len() == marks.len()
    &&& forall|e: int|
        0 <= e < edges.len() && is_live(#[trigger] edges[e], at) && is_done(marks[edges[e].parent]) ==> is_done(
            marks[edges[e].child],
        ) && grades[edges[e].child] < grades[edges[e].parent]
    &&& forall|g: int| 0 <= g < marks.len() && is_done(#[trigger] marks[g]) ==> grades[g] < bound
}

/// A search from a frame that finds nothing grades the frame and all behind it.
proof fn lemma_explore_grades(
    edges: Seq<EdgeView>,
    at: Option<int>,
    f: int,
    k: int,
    marks: Seq<int>,
    path: Seq<int>,
    grades: Seq<int>,
    bound: int,
) -> (r: (Seq<int>, int))
    requires
        frames::within(edges, marks.len() as int),
        0 <= f < marks.len(),
        marks[f] == 1,
        0 <= k <= outgoing(edges, at, f, edges.len()).len(),
        forall|j: int|
            0 <= j < k ==> is_done(marks[edges[#[trigger] outgoing(edges, at, f, edges.len())[j]].child]),
        is_graded(edges, at, marks, grades, bound),
    ensures
        ({
            let s = explore(edges, at, f, k, marks, path);
            s.found is None ==> {
                &&& is_graded(edges, at, s.marks, r.0, r.1)
                &&& is_done(s.marks[f])
                &&& forall|g: int| 0 <= g < marks.len() && is_done(#[trigger] marks[g]) ==> is_done(s.marks[g])
                &&& forall|g: int| 0 <= g < marks.len() && #[trigger] marks[g] == 1 && g != f ==> s.marks[g] == 1
            }
        }),
    decreases fresh(marks), outgoing(edges, at, f, edges.len()).len() - k,
{
    let out = outgoing(edges, at, f, edges.len());
    let all = explore(edges, at, f, k, marks, path);
    lemma_outgoing(edges, at, f, edges.len());
    if k >= out.len() {
        let now = grades.update(f, bound);
        assert forall|e: int|
            0 <= e < edges.len() && is_live(#[trigger] edges[e], at) && is_done(all.marks[edges[e].parent]) implies is_done(
            all.marks[edges[e].child],
        ) && now[edges[e].child] < now[edges[e].parent] by {
            if edges[e].parent == f {
                assert(out.contains(e));
                let j = choose|j: int| 0 <= j < out.len() && out[j] == e;
                assert(is_done(marks[edges[out[j]].child]));
                assert(is_done(marks[edges[e].child]));
            } else {
                assert(is_done(marks[edges[e].parent]));
            }
        }
        (now, bound + 1)
    } else {
        let e = out[k];
        let child = edges[e].child;
        assert(0 <= edges[e].child < marks.len());
        if marks[child] == 1 {
            (grades, bound)
        } else if marks[child] == 0 {
            lemma_fresh_update(marks, child, 1);
            let m = marks.update(child, 1);
            let p = path.push(e);
            assert(is_graded(edges, at, m, grades, bound)) by {
                assert forall|x: int|
                    0 <= x < edges.len() && is_live(#[trigger] edges[x], at) && is_done(m[edges[x].parent]) implies is_done(
                    m[edges[x].child],
                ) && grades[edges[x].child] < grades[edges[x].parent] by {
                    assert(is_done(marks[edges[x].parent]));
                    assert(is_done(marks[edges[x].child]));
                }
            }
            let deeper = explore(edges, at, child, 0, m, p);
            let r = lemma_explore_grades(edges, at, child, 0, m, p, grades, bound);
            lemma_explore(edges, at, child, 0, m, p);
            if deeper.found is None {
                assert(m[f] == 1);
                assert(deeper.marks[f] == 1);
                assert forall|j: int| 0 <= j < k + 1 implies is_done(deeper.marks[edges[#[trigger] out[j]].child]) by {
                    if j < k {
                        assert(is_done(marks[edges[out[j]].child]));
                        assert(is_done(m[edges[out[j]].child]));
                    }
                }
                let t = lemma_explore_grades(edges, at, f, k + 1, deeper.marks, path, r.0, r.1);
                assert(all == explore(edges, at, f, k + 1, deeper.marks, path));
                if all.found is None {
                    assert forall|g: int| 0 <= g < marks.len() && is_done(#[trigger] marks[g]) implies is_done(all.marks[g]) by {
                        assert(is_done(m[g]));
                        assert(is_done(deeper.marks[g]));
                    }
                    assert forall|g: int| 0 <= g < marks.len() && #[trigger] marks[g] == 1 && g != f implies all.marks[g] == 1 by {
                        assert(m[g] == 1);
                        assert(deeper.marks[g] == 1);
                    }
                }
                t
            } else {
                (grades, bound)
            }
        } else {
            lemma_explore_grades(edges, at, f, k + 1, marks, path, grades, bound)
        }
    }
}

/// Round a loop the grades would fall for ever.
proof fn lemma_no_loop(edges: Seq<EdgeView>, at: Option<int>, marks: Seq<int>, grades: Seq<int>, bound: int, l: Seq<int>)
    requires
        frames::within(edges, marks.len() as int),
        is_graded(edges, at, marks, grades, bound),
        forall|g: int| 0 <= g < marks.len() ==> is_done(#[trigger] marks[g]),
    ensures
        !is_loop(edges, at, l),
{
    if is_loop(edges, at, l) {
        let n = l.len() as int;
        lemma_grades_fall(edges, at, marks, grades, bound, l, n - 1);
        let e = l[n - 1];
        assert(is_live(edges[e], at));
        assert(is_done(marks[edges[e].parent]));
    }
}

/// Along a loop the grades fall.
proof fn lemma_grades_fall(
    edges: Seq<EdgeView>,
    at: Option<int>,
    marks: Seq<int>,
    grades: Seq<int>,
    bound: int,
    l: Seq<int>,
    i: int,
)
    requires
        frames::within(edges, marks.len() as int),
        is_graded(edges, at, marks, grades, bound),
        forall|g: int| 0 <= g < marks.len() ==> is_done(#[trigger] marks[g]),
        is_loop(edges, at, l),
        0 <= i < l.len(),
    ensures
        grades[edges[l[i]].parent] <= grades[edges[l[0]].parent],
    decreases i,
{
    if i > 0 {
        lemma_grades_fall(edges, at, marks, grades, bound, l, i - 1);
        let e = l[i - 1];
        assert(is_live(edges[e], at));
        assert(is_done(marks[edges[e].parent]));
        assert(edges[l[i - 1]].child == edges[l[i - 1 + 1]].parent);
    }
}

/// Where a search finds nothing, there is no loop.
proof fn lemma_search_is_complete(
    edges: Seq<EdgeView>,
    at: Option<int>,
    i: int,
    marks: Seq<int>,
    grades: Seq<int>,
    bound: int,
    l: Seq<int>,
)
    requires
        frames::within(edges, marks.len() as int),
        0 <= i <= marks.len(),
        forall|g: int| 0 <= g < marks.len() ==> #[trigger] marks[g] != 1,
        forall|g: int| 0 <= g < i ==> is_done(#[trigger] marks[g]),
        is_graded(edges, at, marks, grades, bound),
        search_from(edges, at, i, marks) is None,
    ensures
        !is_loop(edges, at, l),
    decreases marks.len() - i,
{
    if i >= marks.len() {
        lemma_no_loop(edges, at, marks, grades, bound, l);
    } else if marks[i] != 0 {
        lemma_search_is_complete(edges, at, i + 1, marks, grades, bound, l);
    } else {
        let m = marks.update(i, 1);
        let none = Seq::<int>::empty();
        assert(is_path_to(edges, at, none, i, m)) by {
            assert forall|g: int| 0 <= g < m.len() && #[trigger] m[g] == 1 implies g == i by {
                if g != i {
                    assert(m[g] == marks[g]);
                }
            }
        }
        assert(is_graded(edges, at, m, grades, bound)) by {
            assert forall|x: int|
                0 <= x < edges.len() && is_live(#[trigger] edges[x], at) && is_done(m[edges[x].parent]) implies is_done(
                m[edges[x].child],
            ) && grades[edges[x].child] < grades[edges[x].parent] by {
                assert(is_done(marks[edges[x].parent]));
                assert(is_done(marks[edges[x].child]));
            }
        }
        lemma_explore_finds_loops(edges, at, i, 0, m, none);
        lemma_explore(edges, at, i, 0, m, none);
        let r = lemma_explore_grades(edges, at, i, 0, m, none, grades, bound);
        let s = explore(edges, at, i, 0, m, none);
        assert forall|g: int| 0 <= g < s.marks.len() implies #[trigger] s.marks[g] != 1 by {
            if s.marks[g] == 1 {
                assert(m[g] == 1);
                assert(m[g] == marks[g]);
            }
        }
        assert forall|g: int| 0 <= g < i + 1 implies is_done(#[trigger] s.marks[g]) by {
            if g < i {
                assert(is_done(marks[g]));
                assert(is_done(m[g]));
            }
        }
        lemma_search_is_complete(edges, at, i + 1, s.marks, r.0, r.1, l);
    }
}

/// Where nothing is found at an instant, there is no loop at that instant.
proof fn lemma_instant_is_complete(edges: Seq<EdgeView>, at: Option<int>, n: nat, l: Seq<int>)
    requires
        frames::within(edges, n as int),
        cycle_at(edges, at, n) is None,
    ensures
        !is_loop(edges, at, l),
{
    lemma_search_is_complete(edges, at, 0, unmarked(n), unmarked(n), 0, l);
}

/// The edge of a list that starts last.
proof fn lemma_latest(edges: Seq<EdgeView>, l: Seq<int>, n: int) -> (m: int)
    requires
        0 < n <= l.len(),
    ensures
        0 <= m < n,
        forall|i: int| 0 <= i < n ==> edges[#[trigger] l[i]].start <= edges[l[m]].start,
    decreases n,
{
    if n == 1 {
        0
    } else {
        let m = lemma_latest(edges, l, n - 1);
        if edges[l[n - 1]].start > edges[l[m]].start {
            n - 1
        } else {
            m
        }
    }
}

/// Where nothing is found from the `i`-th edge on, nothing is found at the start of any of these.
proof fn lemma_first_is_none(edges: Seq<EdgeView>, n: nat, i: int, k: int)
    requires
        0 <= i <= k < edges.len(),
        first_cycle(edges, n, i) is None,
    ensures
        cycle_at(edges, Some(edges[k].start), n) is None,
    decreases k - i,
{
    if i < k {
        lemma_first_is_none(edges, n, i + 1, k);
    }
}

/// Every cycle is noticed: where none is found, there is none whose edges all hold at one moment.
pub proof fn law_no_cycle_goes_unnoticed(s: Seq<Transform>)
    ensures
        cycle_edges(s) is None ==> forall|l: Seq<int>| !is_cycle(frames::edges_of(s), l),
{
    let edges = frames::edges_of(s);
    let n = frames::frames_of(s).len();
    frames::lemma_within(s);
    if cycle_edges(s) is None {
        assert forall|l: Seq<int>| !is_cycle(edges, l) by {
            if is_cycle(edges, l) {
                let m = lemma_latest(edges, l, l.len() as int);
                let at = Some(edges[l[m]].start);
                assert(0 <= l[m] < edges.len());
                assert forall|i: int| 0 <= i < l.len() implies is_live(edges[#[trigger] l[i]], at) by {
                    assert(edges[l[m]].start <= edges[l[i]].end);
                }
                assert(is_loop(edges, at, l));
                lemma_first_is_none(edges, n, 0, l[m]);
                lemma_instant_is_complete(edges, at, n, l);
            }
        }
    }
}

// ---- searching -------------------------------------------------------------------------------

/// What numbers are.
spec fn ints(s: Seq<usize>) -> Seq<int> {
    s.map_values(|x: usize| x as int)
}

/// What marks are.
spec fn mark_views(s: Seq<u8>) -> Seq<int> {
    s.map_values(|x: u8| x as int)
}

/// What a stack is.
spec fn stack_views(s: Seq<(usize, usize)>) -> Seq<(int, int)> {
    s.map_values(|x: (usize, usize)| (x.0 as int, x.1 as int))
}

/// Goes on from a stack of frames that are being searched.
spec fn resume(edges: Seq<EdgeView>, at: Option<int>, stack: Seq<(int, int)>, marks: Seq<int>, path: Seq<int>) -> Search
    decreases stack.len(),
{
    if stack.len() == 0 {
        Search { marks, found: None }
    } else {
        let s = explore(edges, at, stack.last().0, stack.last().1, marks, path);
        if s.found is Some {
            s
        } else {
            resume(edges, at, stack.drop_last(), s.marks, if path.len() > 0 { path.drop_last() } else { path })
        }
    }
}

/// How many edges are left to try on a stack.
spec fn remaining(edges: Seq<EdgeView>, at: Option<int>, stack: Seq<(int, int)>) -> nat
    decreases stack.len(),
{
    if stack.len() == 0 {
        0
    } else {
        let n = outgoing(edges, at, stack.last().0, edges.len()).len();
        let k = stack.last().1;
        remaining(edges, at, stack.drop_last()) + 1 + (if k < n { (n - k) as nat } else { 0 })
    }
}

/// What an instant is.
spec fn instant(at: Option<i64>) -> Option<int> {
    match at {
        Some(t) => Some(t as int),
        None => None,
    }
}

/// Whether an edge holds at an instant.
fn holds_at(e: &Edge, at: Option<i64>) -> (r: bool)
    ensures
        r == is_live(e@, instant(at)),
{
    match at {
        Some(t) => e.start <= t && t <= e.end,
        None => true,
    }
}

/// The edges that lead out of each frame at an instant.
fn adjacency(g: &Graph, when: Option<i64>, Ghost(edges): Ghost<Seq<EdgeView>>) -> (r: Vec<Vec<usize>>)
    requires
        frames::edge_views(g.edges@) == edges,
        frames::within(edges, g.frames@.len() as int),
    ensures
        r@.len() == g.frames@.len(),
        forall|f: int| 0 <= f < r@.len() ==> ints((#[trigger] r@[f])@) == outgoing(edges, instant(when), f, edges.len()),
{
    let ghost at = instant(when);
    let n: usize = g.frames.len();
    let mut out: Vec<Vec<usize>> = Vec::new();
    while out.len() < n
        invariant
            out@.len() <= n,
            forall|f: int| 0 <= f < out@.len() ==> ints((#[trigger] out@[f])@) == outgoing(edges, at, f, 0),
        decreases n - out@.len(),
    {
        let empty: Vec<usize> = Vec::new();
        assert(ints(empty@) =~= Seq::empty());
        out.push(empty);
    }
    let mut i: usize = 0;
    while i < g.edges.len()
        invariant
            i <= g.edges@.len(),
            n == g.frames@.len(),
            out@.len() == n,
            at == instant(when),
            frames::edge_views(g.edges@) == edges,
            frames::within(edges, n as int),
            forall|f: int| 0 <= f < n ==> ints((#[trigger] out@[f])@) == outgoing(edges, at, f, i as nat),
        decreases g.edges@.len() - i,
    {
        assert(edges[i as int] == g.edges@[i as int]@);
        assert(0 <= edges[i as int].parent < n);
        if holds_at(&g.edges[i], when) {
            let p: usize = g.edges[i].parent;
            let ghost was = out@;
            out[p].push(i);
            proof {
                assert(ints(out@[p as int]@) =~= ints(was[p as int]@).push(i as int));
                assert forall|f: int| 0 <= f < n implies ints((#[trigger] out@[f])@) == outgoing(edges, at, f, (i + 1) as nat) by {
                    if f != p {
                        assert(out@[f] == was[f]);
                    }
                }
            }
        }
        i = i + 1;
    }
    assert(edges.len() == g.edges@.len());
    out
}

/// The loop that an edge back to a frame of the path closes.
fn close_loop(g: &Graph, path: &Vec<usize>, e: usize, Ghost(edges): Ghost<Seq<EdgeView>>) -> (r: Vec<usize>)
    requires
        frames::edge_views(g.edges@) == edges,
        e < g.edges@.len(),
        forall|i: int| 0 <= i < path@.len() ==> #[trigger] path@[i] < g.edges@.len(),
    ensures
        ints(r@) == loop_of(edges, ints(path@), e as int),
        forall|i: int| 0 <= i < r@.len() ==> #[trigger] r@[i] < g.edges@.len(),
        r@.len() > 0,
{
    let ghost v = ints(path@);
    let ghost c = edges[e as int].child;
    assert(edges[e as int] == g.edges@[e as int]@);
    let child: usize = g.edges[e].child;
    let mut start: usize = 0;
    assert(v.skip(0) =~= v);
    while start < path.len() && g.edges[path[start]].parent != child
        invariant
            start <= path@.len(),
            v == ints(path@),
            c == child,
            frames::edge_views(g.edges@) == edges,
            forall|i: int| 0 <= i < path@.len() ==> #[trigger] path@[i] < g.edges@.len(),
            left_at(edges, v, c) == start + left_at(edges, v.skip(start as int), c),
        decreases path@.len() - start,
    {
        assert(v.skip(start as int)[0] == path@[start as int]);
        assert(edges[path@[start as int] as int] == g.edges@[path@[start as int] as int]@);
        assert(v.skip(start as int).skip(1) =~= v.skip(start + 1));
        start = start + 1;
    }
    proof {
        if start < path@.len() {
            assert(v.skip(start as int)[0] == path@[start as int]);
            assert(edges[path@[start as int] as int] == g.edges@[path@[start as int] as int]@);
        }
        assert(left_at(edges, v, c) == start);
    }
    let mut out: Vec<usize> = Vec::new();
    let mut i: usize = start;
    while i < path.len()
        invariant
            start <= i <= path@.len(),
            out@.len() == i - start,
            forall|k: int| 0 <= k < out@.len() ==> #[trigger] out@[k] == path@[start + k],
        decreases path@.len() - i,
    {
        out.push(path[i]);
        i = i + 1;
    }
    out.push(e);
    assert(ints(out@) =~= v.skip(start as int).push(e as int));
    out
}

/// Searches from a frame that was not visited yet.
fn search_root(
    g: &Graph,
    out: &Vec<Vec<usize>>,
    root: usize,
    marks: &mut Vec<u8>,
    Ghost(edges): Ghost<Seq<EdgeView>>,
    Ghost(at): Ghost<Option<int>>,
) -> (r: Option<Vec<usize>>)
    requires
        frames::edge_views(g.edges@) == edges,
        frames::within(edges, old(marks)@.len() as int),
        out@.len() == old(marks)@.len(),
        forall|f: int| 0 <= f < out@.len() ==> ints((#[trigger] out@[f])@) == outgoing(edges, at, f, edges.len()),
        root < old(marks)@.len(),
        old(marks)@[root as int] == 0,
    ensures
        ({
            let s = explore(edges, at, root as int, 0, mark_views(old(marks)@).update(root as int, 1), Seq::empty());
            match r {
                Some(l) => s.found == Some(ints(l@)) && l@.len() > 0 && forall|i: int|
                    0 <= i < l@.len() ==> #[trigger] l@[i] < g.edges@.len(),
                None => s.found is None && mark_views(final(marks)@) == s.marks,
            }
        }),
        final(marks)@.len() == old(marks)@.len(),
{
    let ghost n = marks@.len() as int;
    let ghost whole = explore(edges, at, root as int, 0, mark_views(marks@).update(root as int, 1), Seq::empty());
    let mut stack: Vec<(usize, usize)> = Vec::new();
    let mut path: Vec<usize> = Vec::new();
    let ghost before = mark_views(marks@);
    marks.set(root, 1);
    stack.push((root, 0));
    proof {
        assert(mark_views(marks@) =~= before.update(root as int, 1));
        assert(stack_views(stack@) =~= seq![(root as int, 0int)]);
        assert(ints(path@) =~= Seq::empty());
        let sv = stack_views(stack@);
        assert(sv.last() == (root as int, 0int));
        assert(resume(edges, at, sv, mark_views(marks@), ints(path@)) == whole) by {
            assert(sv.drop_last() =~= Seq::empty());
            reveal_with_fuel(resume, 2);
        }
    }
    while stack.len() > 0
        invariant
            n == marks@.len(),
            n == old(marks)@.len(),
            whole == explore(
                edges,
                at,
                root as int,
                0,
                mark_views(old(marks)@).update(root as int, 1),
                Seq::empty(),
            ),
            frames::edge_views(g.edges@) == edges,
            frames::within(edges, n),
            out@.len() == n,
            forall|f: int| 0 <= f < out@.len() ==> ints((#[trigger] out@[f])@) == outgoing(edges, at, f, edges.len()),
            forall|i: int| 0 <= i < path@.len() ==> #[trigger] path@[i] < g.edges@.len(),
            forall|i: int| 0 <= i < stack@.len() ==> (#[trigger] stack@[i]).0 < n,
            path@.len() + 1 == stack@.len() || stack@.len() == 0,
            resume(edges, at, stack_views(stack@), mark_views(marks@), ints(path@)) == whole,
        decreases fresh(mark_views(marks@)), remaining(edges, at, stack_views(stack@)),
    {
        let ghost sv = stack_views(stack@);
        let ghost mv = mark_views(marks@);
        let ghost pv = ints(path@);
        let top: usize = stack.len() - 1;
        let (f, k): (usize, usize) = stack[top];
        let ghost all = outgoing(edges, at, f as int, edges.len());
        proof {
            assert(sv.last() == (f as int, k as int));
            assert(ints(out@[f as int]@) == all);
            assert(all.len() == out@[f as int]@.len());
            lemma_outgoing(edges, at, f as int, edges.len());
        }
        let _gone: Option<(usize, usize)> = stack.pop();
        let ghost rest = stack_views(stack@);
        assert(rest =~= sv.drop_last());
        if k >= out[f].len() {
            marks.set(f, 2);
            let _left: Option<usize> = path.pop();
            proof {
                lemma_fresh_update(mv, f as int, 2);
                assert(mark_views(marks@) =~= mv.update(f as int, 2));
                assert(ints(path@) =~= (if pv.len() > 0 { pv.drop_last() } else { pv }));
            }
            continue;
        }
        let e: usize = out[f][k];
        proof {
            assert(ints(out@[f as int]@)[k as int] == e);
            assert(all[k as int] == e);
            assert(edges[e as int] == g.edges@[e as int]@);
            assert(0 <= edges[e as int].child < n);
        }
        stack.push((f, k + 1));
        let ghost next = rest.push((f as int, k + 1));
        assert(stack_views(stack@) =~= next);
        proof {
            assert(next.last() == (f as int, k + 1));
            assert(next.drop_last() =~= rest);
        }
        let child: usize = g.edges[e].child;
        assert(mv[child as int] == marks@[child as int]);
        if marks[child] == 1 {
            let l: Vec<usize> = close_loop(g, &path, e, Ghost(edges));
            return Some(l);
        } else if marks[child] == 0 {
            marks.set(child, 1);
            path.push(e);
            stack.push((child, 0));
            proof {
                let m = mv.update(child as int, 1);
                let p = pv.push(e as int);
                assert(mark_views(marks@) =~= m);
                assert(ints(path@) =~= p);
                assert(stack_views(stack@) =~= next.push((child as int, 0int)));
                lemma_fresh_update(mv, child as int, 1);
                lemma_explore(edges, at, child as int, 0, m, p);
                let s2 = next.push((child as int, 0int));
                assert(s2.last() == (child as int, 0int));
                assert(s2.drop_last() =~= next);
                assert(p.drop_last() =~= pv);
                let deeper = explore(edges, at, child as int, 0, m, p);
                if deeper.found is None {
                    assert(resume(edges, at, s2, m, p) == resume(edges, at, next, deeper.marks, pv));
                }
                assert(resume(edges, at, s2, m, p) == resume(edges, at, sv, mv, pv));
            }
        }
    }
    proof {
        assert(stack_views(stack@) =~= Seq::empty());
    }
    None
}

/// The directed cycle that is found among the edges that hold at an instant: the search goes depth
/// first from each frame in order.
fn search_at(g: &Graph, when: Option<i64>, Ghost(edges): Ghost<Seq<EdgeView>>) -> (r: Option<Vec<usize>>)
    requires
        frames::edge_views(g.edges@) == edges,
        frames::within(edges, g.frames@.len() as int),
    ensures
        match r {
            Some(l) => cycle_at(edges, instant(when), g.frames@.len()) == Some(ints(l@)) && l@.len() > 0 && forall|i: int|
                0 <= i < l@.len() ==> #[trigger] l@[i] < g.edges@.len(),
            None => cycle_at(edges, instant(when), g.frames@.len()) is None,
        },
{
    let ghost at = instant(when);
    let out: Vec<Vec<usize>> = adjacency(g, when, Ghost(edges));
    let mut marks: Vec<u8> = Vec::new();
    while marks.len() < g.frames.len()
        invariant
            marks@.len() <= g.frames@.len(),
            forall|k: int| 0 <= k < marks@.len() ==> #[trigger] marks@[k] == 0,
        decreases g.frames@.len() - marks@.len(),
    {
        marks.push(0);
    }
    assert(mark_views(marks@) =~= unmarked(g.frames@.len()));
    let n: usize = marks.len();
    let mut i: usize = 0;
    while i < n
        invariant
            i <= n,
            n == marks@.len(),
            n == g.frames@.len(),
            at == instant(when),
            frames::edge_views(g.edges@) == edges,
            frames::within(edges, n as int),
            out@.len() == n,
            forall|f: int| 0 <= f < out@.len() ==> ints((#[trigger] out@[f])@) == outgoing(edges, at, f, edges.len()),
            cycle_at(edges, at, n as nat) == search_from(edges, at, i as int, mark_views(marks@)),
        decreases n - i,
    {
        assert(mark_views(marks@)[i as int] == marks@[i as int]);
        if marks[i] == 0 {
            let ghost mv = mark_views(marks@);
            proof {
                lemma_explore(edges, at, i as int, 0, mv.update(i as int, 1), Seq::empty());
            }
            match search_root(g, &out, i, &mut marks, Ghost(edges), Ghost(at)) {
                Some(l) => {
                    return Some(l);
                },
                None => {},
            }
        }
        i = i + 1;
    }
    None
}

/// Whether a list holds a time.
fn holds_time(list: &Vec<i64>, t: i64) -> (r: bool)
    ensures
        r == list@.contains(t),
{
    let mut i: usize = 0;
    while i < list.len()
        invariant
            i <= list@.len(),
            forall|k: int| 0 <= k < i ==> list@[k] != t,
        decreases list@.len() - i,
    {
        if list[i] == t {
            return true;
        }
        i = i + 1;
    }
    false
}

/// The directed cycle that is found among the edges of a graph. Without a cycle among all edges,
/// whenever they hold, there is none at any instant.
fn find_cycle(g: &Graph, Ghost(s): Ghost<Seq<Transform>>) -> (r: Option<Vec<usize>>)
    requires
        g.is_of(s),
    ensures
        match r {
            Some(l) => cycle_edges(s) == Some(ints(l@)) && l@.len() > 0 && forall|i: int|
                0 <= i < l@.len() ==> #[trigger] l@[i] < s.len(),
            None => cycle_edges(s) is None,
        },
{
    let ghost edges = frames::edges_of(s);
    let ghost n = g.frames@.len();
    proof {
        assert(frames::frames_of(s).len() == n);
        assert(g.edges@.len() == frames::edge_views(g.edges@).len());
    }
    if search_at(g, None, Ghost(edges)).is_none() {
        proof {
            lemma_first_is_cycle(edges, n, 0);
            if let Some(l) = first_cycle(edges, n, 0) {
                lemma_instant_is_complete(edges, None, n, l);
            }
        }
        return None;
    }
    let mut tried: Vec<i64> = Vec::new();
    let mut i: usize = 0;
    while i < g.edges.len()
        invariant
            i <= g.edges@.len(),
            n == g.frames@.len(),
            g.edges@.len() == s.len(),
            edges.len() == s.len(),
            frames::edge_views(g.edges@) == edges,
            frames::within(edges, n as int),
            cycle_edges(s) == first_cycle(edges, n, i as int),
            forall|k: int| 0 <= k < tried@.len() ==> cycle_at(edges, Some(#[trigger] tried@[k] as int), n) is None,
        decreases g.edges@.len() - i,
    {
        assert(edges[i as int] == g.edges@[i as int]@);
        let t: i64 = g.edges[i].start;
        if !holds_time(&tried, t) {
            match search_at(g, Some(t), Ghost(edges)) {
                Some(l) => {
                    return Some(l);
                },
                None => {
                    tried.push(t);
                },
            }
        }
        i = i + 1;
    }
    None
}

/// The frames of a loop.
fn loop_names(s: &Vec<Transform>, l: &Vec<usize>) -> (r: Vec<String>)
    requires
        l@.len() > 0,
        forall|i: int| 0 <= i < l@.len() ==> #[trigger] l@[i] < s@.len(),
    ensures
        text::texts(r@) == loop_frames(s@, ints(l@)),
{
    let ghost v = ints(l@);
    let ghost parents = v.map_values(|e: int| s@[e].parent_frame@);
    let mut out: Vec<String> = Vec::new();
    let mut i: usize = 0;
    assert(text::texts(out@) =~= parents.take(0));
    while i < l.len()
        invariant
            i <= l@.len(),
            v == ints(l@),
            parents == v.map_values(|e: int| s@[e].parent_frame@),
            forall|k: int| 0 <= k < l@.len() ==> #[trigger] l@[k] < s@.len(),
            text::texts(out@) == parents.take(i as int),
        decreases l@.len() - i,
    {
        broadcast use text::lemma_texts_push;

        assert(v[i as int] == l@[i as int]);
        assert(parents[i as int] == s@[l@[i as int] as int].parent_frame@);
        out.push(s[l[i]].parent_frame.clone());
        assert(parents.take(i + 1) =~= parents.take(i as int).push(parents[i as int]));
        i = i + 1;
    }
    assert(parents.take(i as int) =~= parents);
    assert(v.last() == l@[l@.len() - 1]);
    proof {
        text::lemma_texts_push(out@, s@[l@[l@.len() - 1] as int].child_frame);
    }
    let ghost named = text::texts(out@);
    out.push(s[l[l.len() - 1]].child_frame.clone());
    assert(text::texts(out@) =~= named.push(s@[v.last()].child_frame@));
    out
}

/// The frames of the directed cycle that is found in the graph of some transforms.
pub fn cycle_names(transforms: &Vec<Transform>, g: &Graph) -> (r: Option<Vec<String>>)
    requires
        g.is_of(transforms@),
    ensures
        match r {
            Some(names) => cycle(transforms@) == Some(text::texts(names@)),
            None => cycle(transforms@) is None,
        },
{
    match find_cycle(g, Ghost(transforms@)) {
        Some(l) => Some(loop_names(transforms, &l)),
        None => None,
    }
}

/// The frames of one directed cycle among transforms (repeating the entry frame at the end), or `None`
/// where there is none whose edges are all valid at the same time. A parent/child relation that
/// reverses between disjoint validity windows is a recalibration, not a loop.
pub fn tf_directed_cycle(transforms: &Vec<Transform>) -> (r: Option<Vec<String>>)
    ensures
        match r {
            Some(names) => cycle(transforms@) == Some(text::texts(names@)),
            None => cycle(transforms@) is None && forall|l: Seq<int>| !is_cycle(frames::edges_of(transforms@), l),
        },
{
    proof {
        law_no_cycle_goes_unnoticed(transforms@);
    }
    cycle_names(transforms, &graph(transforms))
}

} // verus!
