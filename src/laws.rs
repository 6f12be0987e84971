use vstd::prelude::*;

use crate::cover::{
    accepted, chain_ok, chain_runs, descends, is_optimal_start, counts_exact, follows_parents, is_cover, is_min_count, reachable, strategy_of,
    no_cover, FitStrategy,
};
use crate::svg::{
    commands, curve_command, free_of_q, marker_at, marker_count, markers_before, point_chars,
    svg_path_chars, texts_free_of_q, CurveText,
};
use crate::window::LengthWindow;

verus! {

/// Every run accepted by table `a` is accepted by table `b`.
pub open spec fn acceptance_within(w: LengthWindow, a: Seq<Vec<bool>>, b: Seq<Vec<bool>>) -> bool {
    forall|j: int, i: int| #[trigger] accepted(w, a, j, i) ==> accepted(w, b, j, i)
}

proof fn lemma_reachable_widens(w: LengthWindow, a: Seq<Vec<bool>>, b: Seq<Vec<bool>>, e: int, k: nat)
    requires
        acceptance_within(w, a, b),
        reachable(w, a, e, k),
    ensures
        reachable(w, b, e, k),
    decreases k,
{
    if k > 0 {
        let j = choose|j: int| #[trigger] accepted(w, a, j, e) && reachable(w, a, j, (k - 1) as nat);
        lemma_reachable_widens(w, a, b, j, (k - 1) as nat);
        assert(accepted(w, b, j, e));
    }
}

/// Accepting more runs, as a larger residual ceiling does, never raises the
/// fewest number of segments that cover a prefix, nor loses a cover.
pub proof fn lemma_wider_acceptance_no_more_segments(
    w: LengthWindow,
    a: Seq<Vec<bool>>,
    b: Seq<Vec<bool>>,
    counts_a: Seq<Option<usize>>,
    counts_b: Seq<Option<usize>>,
    e: int,
)
    requires
        acceptance_within(w, a, b),
        counts_exact(w, a, counts_a),
        counts_exact(w, b, counts_b),
        0 <= e < counts_a.len(),
        e < counts_b.len(),
        counts_a[e] is Some,
    ensures
        counts_b[e] is Some,
        counts_b[e]->Some_0 <= counts_a[e]->Some_0,
{
    let ka = counts_a[e]->Some_0;
    assert(is_min_count(w, a, e, ka as nat));
    lemma_reachable_widens(w, a, b, e, ka as nat);
    match counts_b[e] {
        Some(kb) => {
            assert(is_min_count(w, b, e, kb as nat));
            if kb > ka {
                assert(!reachable(w, b, e, ka as nat));
            }
        },
        None => {
            assert(no_cover(w, b, e));
            assert(!reachable(w, b, e, ka as nat));
        },
    }
}

/// The fewest number of segments is a function of the window and the
/// acceptance table: two exact count tables of one length are equal.
pub proof fn lemma_counts_deterministic(
    w: LengthWindow,
    acc: Seq<Vec<bool>>,
    c1: Seq<Option<usize>>,
    c2: Seq<Option<usize>>,
)
    requires
        counts_exact(w, acc, c1),
        counts_exact(w, acc, c2),
        c1.len() == c2.len(),
    ensures
        c1 == c2,
{
    assert forall|i: int| 0 <= i < c1.len() implies c1[i] == c2[i] by {
        match c1[i] {
            Some(k1) => {
                assert(is_min_count(w, acc, i, k1 as nat));
                match c2[i] {
                    Some(k2) => {
                        assert(is_min_count(w, acc, i, k2 as nat));
                        if k1 < k2 {
                            assert(!reachable(w, acc, i, k1 as nat));
                        }
                        if k2 < k1 {
                            assert(!reachable(w, acc, i, k2 as nat));
                        }
                    },
                    None => {
                        assert(no_cover(w, acc, i));
                        assert(!reachable(w, acc, i, k1 as nat));
                    },
                }
            },
            None => {
                assert(no_cover(w, acc, i));
                match c2[i] {
                    Some(k2) => {
                        assert(is_min_count(w, acc, i, k2 as nat));
                        assert(!reachable(w, acc, i, k2 as nat));
                    },
                    None => {},
                }
            },
        }
    }
    assert(c1 =~= c2);
}

/// A cover is fixed by its last sample and the parent of each end: two covers
/// of `0..=e` that follow the same parents are the same runs.
pub proof fn lemma_cover_determined_by_parents(
    w: LengthWindow,
    acc: Seq<Vec<bool>>,
    parent: Seq<usize>,
    s1: Seq<(usize, usize)>,
    s2: Seq<(usize, usize)>,
    e: int,
)
    requires
        w.wf(),
        is_cover(w, acc, s1, e),
        is_cover(w, acc, s2, e),
        follows_parents(s1, parent),
        follows_parents(s2, parent),
    ensures
        s1 == s2,
    decreases s1.len() + s2.len(),
{
    if s1.len() == 0 || s2.len() == 0 {
        if s1.len() > 0 {
            let l = s1.last();
            assert(accepted(w, acc, l.0 as int, l.1 as int));
        }
        if s2.len() > 0 {
            let l = s2.last();
            assert(accepted(w, acc, l.0 as int, l.1 as int));
        }
        assert(s1 =~= s2);
    } else {
        let n1 = s1.len() - 1;
        let n2 = s2.len() - 1;
        assert(s1[n1] == s1.last());
        assert(s2[n2] == s2.last());
        assert(s1.last() == s2.last());
        let j = s1.last().0 as int;
        let t1 = s1.drop_last();
        let t2 = s2.drop_last();
        assert(is_cover(w, acc, t1, j)) by {
            if t1.len() > 0 {
                assert(t1[0] == s1[0]);
                assert(t1.last() == s1[n1 - 1]);
                assert(s1[(n1 - 1) + 1] == s1[n1]);
                assert(s1[n1 - 1].1 == s1[(n1 - 1) + 1].0);
                assert(forall|k: int| #![trigger t1[k]] 0 <= k < t1.len() ==> t1[k] == s1[k]);
                assert forall|k: int| #![trigger t1[k], t1[k + 1]] 0 <= k < t1.len() - 1 implies t1[k].1 == t1[k + 1].0 by {
                    assert(t1[k] == s1[k] && t1[k + 1] == s1[k + 1]);
                }
            }
        }
        assert(is_cover(w, acc, t2, j)) by {
            if t2.len() > 0 {
                assert(t2[0] == s2[0]);
                assert(t2.last() == s2[n2 - 1]);
                assert(s2[(n2 - 1) + 1] == s2[n2]);
                assert(s2[n2 - 1].1 == s2[(n2 - 1) + 1].0);
                assert(forall|k: int| #![trigger t2[k]] 0 <= k < t2.len() ==> t2[k] == s2[k]);
                assert forall|k: int| #![trigger t2[k], t2[k + 1]] 0 <= k < t2.len() - 1 implies t2[k].1 == t2[k + 1].0 by {
                    assert(t2[k] == s2[k] && t2[k + 1] == s2[k + 1]);
                }
            }
        }
        assert(follows_parents(t1, parent)) by {
            assert(forall|k: int| #![trigger t1[k]] 0 <= k < t1.len() ==> t1[k] == s1[k]);
        }
        assert(follows_parents(t2, parent)) by {
            assert(forall|k: int| #![trigger t2[k]] 0 <= k < t2.len() ==> t2[k] == s2[k]);
        }
        lemma_cover_determined_by_parents(w, acc, parent, t1, t2, j);
        assert(s1 =~= t1.push(s1.last()));
        assert(s2 =~= t2.push(s2.last()));
    }
}

/// Every run of a cover spans a number of samples inside the window, and the
/// cover starts at sample 0 and ends at sample `e`.
pub proof fn lemma_cover_runs_within_window(
    w: LengthWindow,
    acc: Seq<Vec<bool>>,
    segs: Seq<(usize, usize)>,
    e: int,
)
    requires
        is_cover(w, acc, segs, e),
        segs.len() > 0,
    ensures
        segs[0].0 == 0,
        segs[segs.len() - 1].1 == e,
        forall|k: int|
            #![trigger segs[k]]
            0 <= k < segs.len() ==> w.min_len <= segs[k].1 - segs[k].0 + 1 <= w.max_len,
        forall|k: int| #![trigger segs[k], segs[k + 1]] 0 <= k < segs.len() - 1 ==> segs[k].1 == segs[k + 1].0,
{
    assert forall|k: int| #![trigger segs[k]] 0 <= k < segs.len() implies w.min_len <= segs[k].1
        - segs[k].0 + 1 <= w.max_len by {
        assert(accepted(w, acc, segs[k].0 as int, segs[k].1 as int));
    }
}

/// One or two samples are always fitted by a single segment.
pub proof fn lemma_tiny_inputs_single_segment(w: LengthWindow, n: nat)
    requires
        w.wf(),
        1 <= n <= 2,
    ensures
        strategy_of(w, n) == FitStrategy::Single,
{
}

proof fn lemma_markers_prefix(a: Seq<char>, b: Seq<char>, u: int)
    requires
        0 <= u <= a.len(),
        a.len() > 0 ==> a.last() != 'Q',
        b.len() > 0 ==> b[0] != 'Q',
    ensures
        markers_before(a + b, u) == markers_before(a, u),
    decreases u,
{
    if u > 0 {
        lemma_markers_prefix(a, b, u - 1);
        let p = u - 1;
        if p + 3 <= a.len() {
            assert((a + b)[p] == a[p] && (a + b)[p + 1] == a[p + 1] && (a + b)[p + 2] == a[p + 2]);
        } else if p + 2 == a.len() {
            assert((a + b)[p + 1] == a.last());
        } else {
            if b.len() > 0 {
                assert((a + b)[p + 1] == b[0]);
            }
        }
    }
}

proof fn lemma_markers_suffix(a: Seq<char>, b: Seq<char>, u: int)
    requires
        0 <= u <= b.len(),
        a.len() > 0 ==> a.last() != 'Q',
        b.len() > 0 ==> b[0] != 'Q',
    ensures
        markers_before(a + b, a.len() + u) == markers_before(a, a.len() as int) + markers_before(b, u),
    decreases u,
{
    if u == 0 {
        lemma_markers_prefix(a, b, a.len() as int);
    } else {
        lemma_markers_suffix(a, b, u - 1);
        let p = u - 1;
        assert(marker_at(a + b, a.len() + p) == marker_at(b, p)) by {
            if p + 3 <= b.len() {
                assert((a + b)[a.len() + p] == b[p]);
                assert((a + b)[a.len() + p + 1] == b[p + 1]);
                assert((a + b)[a.len() + p + 2] == b[p + 2]);
            }
        }
    }
}

proof fn lemma_marker_count_concat(a: Seq<char>, b: Seq<char>)
    requires
        a.len() > 0 ==> a.last() != 'Q',
        b.len() > 0 ==> b[0] != 'Q',
    ensures
        marker_count(a + b) == marker_count(a) + marker_count(b),
{
    lemma_markers_suffix(a, b, b.len() as int);
    assert((a + b).len() == a.len() + b.len());
}

proof fn lemma_markers_only_at_start(s: Seq<char>, u: int)
    requires
        1 <= u,
        marker_at(s, 0),
        forall|i: int| 2 <= i < s.len() ==> s[i] != 'Q',
    ensures
        markers_before(s, u) == 1,
    decreases u,
{
    if u > 1 {
        lemma_markers_only_at_start(s, u - 1);
        assert(!marker_at(s, u - 1)) by {
            if u + 1 < s.len() {
                assert(s[u] != 'Q');
            }
        }
    } else {
        assert(markers_before(s, 0) == 0);
    }
}

proof fn lemma_markers_none(s: Seq<char>, u: int)
    requires
        0 <= u,
        free_of_q(s),
    ensures
        markers_before(s, u) == 0,
    decreases u,
{
    if u > 0 {
        lemma_markers_none(s, u - 1);
        if u + 1 <= s.len() {
            assert(s[u] != 'Q');
        }
    }
}

proof fn lemma_point_chars_free(x: Seq<char>, y: Seq<char>, p: crate::svg::PointText)
    requires
        x == p.x@,
        y == p.y@,
        free_of_q(x),
        free_of_q(y),
    ensures
        free_of_q(point_chars(p)),
{
    let s = point_chars(p);
    assert forall|i: int| 0 <= i < s.len() implies s[i] != 'Q' by {
        if i < x.len() {
            assert(s[i] == x[i]);
        } else if i > x.len() {
            assert(s[i] == y[i - x.len() - 1]);
        }
    }
}

proof fn lemma_commands_markers(curves: Seq<CurveText>)
    requires
        texts_free_of_q(curves),
    ensures
        marker_count(commands(curves)) == curves.len(),
        commands(curves).len() > 0 ==> commands(curves).last() != 'Q',
        commands(curves).len() > 0 ==> commands(curves)[0] == ' ',
        curves.len() > 0 ==> commands(curves).len() > 0,
    decreases curves.len(),
{
    if curves.len() > 0 {
        let init = curves.drop_last();
        let c = curves.last();
        assert(c == curves[curves.len() - 1]);
        assert(texts_free_of_q(init)) by {
            assert(forall|k: int| #![trigger init[k]] 0 <= k < init.len() ==> init[k] == curves[k]);
        }
        lemma_commands_markers(init);
        lemma_point_chars_free(c.control.x@, c.control.y@, c.control);
        lemma_point_chars_free(c.end.x@, c.end.y@, c.end);
        let t = curve_command(c);
        let pc = point_chars(c.control);
        let pe = point_chars(c.end);
        assert forall|i: int| 2 <= i < t.len() implies t[i] != 'Q' by {
            if 3 <= i < 3 + pc.len() {
                assert(t[i] == pc[i - 3]);
            } else if 5 + pc.len() <= i {
                assert(t[i] == pe[i - 5 - pc.len()]);
            }
        }
        assert(marker_at(t, 0));
        lemma_markers_only_at_start(t, t.len() as int);
        lemma_marker_count_concat(commands(init), t);
        assert(commands(curves) == commands(init) + t);
        assert(t.last() == t[t.len() - 1]);
        if commands(init).len() > 0 {
            assert(commands(curves)[0] == commands(init)[0]);
        }
    }
}

/// A non-empty path starts with `M` and holds one ` Q ` marker per segment,
/// given coordinates written without a `Q`, as decimal text is.
pub proof fn lemma_svg_shape(curves: Seq<CurveText>)
    requires
        curves.len() > 0,
        texts_free_of_q(curves),
    ensures
        svg_path_chars(curves)[0] == 'M',
        marker_count(svg_path_chars(curves)) == curves.len(),
{
    let c0 = curves[0];
    lemma_point_chars_free(c0.start.x@, c0.start.y@, c0.start);
    let head = seq!['M', ' '] + point_chars(c0.start);
    assert(free_of_q(head)) by {
        assert forall|i: int| 0 <= i < head.len() implies head[i] != 'Q' by {
            if i >= 2 {
                assert(head[i] == point_chars(c0.start)[i - 2]);
            }
        }
    }
    lemma_markers_none(head, head.len() as int);
    lemma_commands_markers(curves);
    assert(head.last() == head[head.len() - 1]);
    lemma_marker_count_concat(head, commands(curves));
    assert(svg_path_chars(curves) == head + commands(curves));
}

proof fn lemma_cover_extend(w: LengthWindow, acc: Seq<Vec<bool>>, s: Seq<(usize, usize)>, x: (usize, usize), e: int)
    requires
        is_cover(w, acc, s, x.0 as int),
        accepted(w, acc, x.0 as int, x.1 as int),
        x.1 == e,
    ensures
        is_cover(w, acc, s.push(x), e),
{
    let t = s.push(x);
    assert(t[t.len() - 1] == x);
    assert forall|k: int| #![trigger t[k]] 0 <= k < s.len() implies t[k] == s[k] by {}
    if s.len() > 0 {
        assert(s.last() == s[s.len() - 1]);
    }
}

proof fn lemma_follows_extend(s: Seq<(usize, usize)>, parent: Seq<usize>, x: (usize, usize))
    requires
        follows_parents(s, parent),
        x.1 < parent.len(),
        parent[x.1 as int] == x.0,
    ensures
        follows_parents(s.push(x), parent),
{
    let t = s.push(x);
    assert forall|k: int| #![trigger t[k]] 0 <= k < s.len() implies t[k] == s[k] by {}
    assert(t[t.len() - 1] == x);
}

/// Parents chosen among the optimal starts trace a cover of `0..=e` whose
/// runs are accepted, share their endpoints, follow the parents, and number
/// the count recorded at `e`.
pub proof fn lemma_optimal_chain_is_min_cover(
    w: LengthWindow,
    acc: Seq<Vec<bool>>,
    counts: Seq<Option<usize>>,
    parent: Seq<usize>,
    e: int,
)
    requires
        chain_ok(w, acc, counts, parent, e),
        parent.len() <= usize::MAX,
    ensures
        descends(parent, e),
        is_cover(w, acc, chain_runs(parent, e), e),
        follows_parents(chain_runs(parent, e), parent),
        0 <= e < counts.len(),
        counts[e] is Some,
        counts[e]->Some_0 == chain_runs(parent, e).len(),
    decreases e,
{
    if e > 0 {
        assert(e < parent.len());
        let j = parent[e] as int;
        assert(is_optimal_start(w, acc, counts, j, e));
        lemma_optimal_chain_is_min_cover(w, acc, counts, parent, j);
        let x = (parent[e], e as usize);
        assert(x.1 as int == e && x.0 as int == j);
        assert(chain_runs(parent, e) == chain_runs(parent, j).push(x));
        lemma_cover_extend(w, acc, chain_runs(parent, j), x, e);
        lemma_follows_extend(chain_runs(parent, j), parent, x);
    }
}

/// With exact counts, a chain through optimal starts is a cover of fewest runs.
pub proof fn lemma_optimal_chain_is_fewest(
    w: LengthWindow,
    acc: Seq<Vec<bool>>,
    counts: Seq<Option<usize>>,
    parent: Seq<usize>,
    e: int,
)
    requires
        chain_ok(w, acc, counts, parent, e),
        parent.len() <= usize::MAX,
        counts_exact(w, acc, counts),
    ensures
        is_min_count(w, acc, e, chain_runs(parent, e).len() as nat),
{
    lemma_optimal_chain_is_min_cover(w, acc, counts, parent, e);
    assert(match counts[e] {
        Some(k) => is_min_count(w, acc, e, k as nat),
        None => no_cover(w, acc, e),
    });
}

} // verus!
