use vstd::prelude::*;

use crate::window::LengthWindow;

verus! {

/// The run `j..=i` is a candidate of `w` and the acceptance table marks it as
/// meeting the residual ceiling. Row `i` of the table is indexed by `i - j`;
/// an entry outside the table counts as refused.
pub open spec fn accepted(w: LengthWindow, acc: Seq<Vec<bool>>, j: int, i: int) -> bool {
    &&& w.is_candidate(j, i)
    &&& i < acc.len()
    &&& i - j < acc[i]@.len()
    &&& acc[i]@[i - j]
}

/// Samples `0..=e` can be covered by exactly `k` accepted runs, each starting
/// where the previous one ends.
pub open spec fn reachable(w: LengthWindow, acc: Seq<Vec<bool>>, e: int, k: nat) -> bool
    decreases k,
{
    if k == 0 {
        e == 0
    } else {
        exists|j: int| #[trigger] accepted(w, acc, j, e) && reachable(w, acc, j, (k - 1) as nat)
    }
}

/// `k` is the fewest accepted runs that cover samples `0..=e`.
pub open spec fn is_min_count(w: LengthWindow, acc: Seq<Vec<bool>>, e: int, k: nat) -> bool {
    &&& reachable(w, acc, e, k)
    &&& forall|m: nat| m < k ==> !#[trigger] reachable(w, acc, e, m)
}

/// No sequence of accepted runs covers samples `0..=e`.
pub open spec fn no_cover(w: LengthWindow, acc: Seq<Vec<bool>>, e: int) -> bool {
    forall|m: nat| !#[trigger] reachable(w, acc, e, m)
}

/// Each entry of `counts` is the fewest runs covering `0..=i`, or `None` when
/// no cover exists.
pub open spec fn counts_exact(w: LengthWindow, acc: Seq<Vec<bool>>, counts: Seq<Option<usize>>) -> bool {
    forall|i: int|
        0 <= i < counts.len() ==> match #[trigger] counts[i] {
            Some(k) => is_min_count(w, acc, i, k as nat),
            None => no_cover(w, acc, i),
        }
}

/// Among the first `upto` entries, one equal to `(j, i)` has its flag set.
pub open spec fn flagged(runs: Seq<(usize, usize)>, flags: Seq<bool>, j: int, i: int, upto: int) -> bool {
    exists|k: int|
        0 <= k < upto && k < runs.len() && k < flags.len() && #[trigger] runs[k] == (j as usize, i as usize)
            && flags[k]
}

/// Builds the acceptance table for `n` samples: a run is accepted exactly when
/// it is a candidate and some entry of `runs` names it with its flag set.
pub fn acceptance_table(w: &LengthWindow, n: usize, runs: &Vec<(usize, usize)>, flags: &Vec<bool>) -> (acc: Vec<
    Vec<bool>,
>)
    requires
        w.wf(),
    ensures
        acc.len() == n,
        forall|j: int, i: int|
            #[trigger] accepted(*w, acc@, j, i) <==> (w.is_candidate(j, i) && i < n && flagged(
                runs@,
                flags@,
                j,
                i,
                runs.len() as int,
            )),
{
    let mut acc: Vec<Vec<bool>> = Vec::new();
    let mut i: usize = 0;
    while i < n
        invariant
            i <= n,
            acc.len() == i,
            forall|r: int| #![trigger acc[r]] 0 <= r < i ==> acc[r]@.len() == w.max_len,
            forall|r: int, d: int| 0 <= r < i && 0 <= d < w.max_len ==> !#[trigger] acc[r]@[d],
        decreases n - i,
    {
        let row: Vec<bool> = vec![false; w.max_len];
        acc.push(row);
        proof {
            assert(acc[i as int]@ == row@);
            assert forall|r: int, d: int| 0 <= r < i + 1 && 0 <= d < w.max_len implies !#[trigger] acc[r]@[d] by {
                if r == i {
                    assert(!row@[d]);
                }
            }
        }
        i = i + 1;
    }
    let mut k: usize = 0;
    while k < runs.len()
        invariant
            w.wf(),
            k <= runs.len(),
            acc.len() == n,
            forall|r: int| #![trigger acc[r]] 0 <= r < n ==> acc[r]@.len() == w.max_len,
            forall|j: int, i: int|
                #[trigger] accepted(*w, acc@, j, i) <==> (w.is_candidate(j, i) && i < n && flagged(
                    runs@,
                    flags@,
                    j,
                    i,
                    k as int,
                )),
        decreases runs.len() - k,
    {
        let (j, e) = runs[k];
        if k < flags.len() && flags[k] && e < n && w.admits(j, e) {
            let ghost before = acc@;
            acc[e][e - j] = true;
            proof {
                assert forall|j2: int, i2: int| #[trigger] accepted(*w, acc@, j2, i2) <==> (w.is_candidate(j2, i2)
                    && i2 < n && flagged(runs@, flags@, j2, i2, k + 1)) by {
                    if i2 == e && j2 == j {
                        assert(runs@[k as int] == (j2 as usize, i2 as usize));
                    } else {
                        assert(accepted(*w, acc@, j2, i2) == accepted(*w, before, j2, i2)) by {
                            if 0 <= i2 < n && i2 != e {
                                assert(acc@[i2] == before[i2]);
                            }
                        }
                        if flagged(runs@, flags@, j2, i2, k + 1) {
                            let x = choose|x: int|
                                0 <= x < k + 1 && x < runs.len() && x < flags.len() && #[trigger] runs@[x] == (
                                    j2 as usize,
                                    i2 as usize,
                                ) && flags@[x];
                            if w.is_candidate(j2, i2) && i2 < n {
                                assert(x != k);
                            }
                        }
                    }
                }
            }
        } else {
            proof {
                assert forall|j2: int, i2: int| #[trigger] accepted(*w, acc@, j2, i2) <==> (w.is_candidate(j2, i2)
                    && i2 < n && flagged(runs@, flags@, j2, i2, k + 1)) by {
                    if flagged(runs@, flags@, j2, i2, k + 1) && w.is_candidate(j2, i2) && i2 < n {
                        let x = choose|x: int|
                            0 <= x < k + 1 && x < runs.len() && x < flags.len() && #[trigger] runs@[x] == (
                                j2 as usize,
                                i2 as usize,
                            ) && flags@[x];
                        assert(x != k);
                    }
                }
            }
        }
        k = k + 1;
    }
    acc
}

/// Decides whether the run `j..=i` is accepted.
pub fn is_accepted(w: &LengthWindow, acc: &Vec<Vec<bool>>, j: usize, i: usize) -> (r: bool)
    requires
        w.wf(),
    ensures
        r == accepted(*w, acc@, j as int, i as int),
{
    if j > i || i - j < w.min_len - 1 || i - j >= w.max_len {
        false
    } else if i >= acc.len() {
        false
    } else if i - j >= acc[i].len() {
        false
    } else {
        acc[i][i - j]
    }
}

proof fn lemma_counts_step(
    w: LengthWindow,
    acc: Seq<Vec<bool>>,
    counts: Seq<Option<usize>>,
    i: int,
    best: Option<usize>,
)
    requires
        w.wf(),
        i > 0,
        counts.len() == i,
        counts_exact(w, acc, counts),
        best is None ==> forall|j: int|
            0 <= j < i && #[trigger] accepted(w, acc, j, i) ==> counts[j] is None,
        best is Some ==> {
            &&& best->Some_0 >= 1
            &&& exists|j: int|
                0 <= j < i && #[trigger] accepted(w, acc, j, i) && counts[j] == Some(
                    (best->Some_0 - 1) as usize,
                )
            &&& forall|j: int|
                0 <= j < i && #[trigger] accepted(w, acc, j, i) && counts[j] is Some
                    ==> best->Some_0 <= counts[j]->Some_0 + 1
        },
    ensures
        counts_exact(w, acc, counts.push(best)),
{
    let all = counts.push(best);
    assert forall|m: nat| #[trigger] reachable(w, acc, i, m) implies (best is Some && best->Some_0 <= m)
        by {
        if m == 0 {
        } else {
            let j = choose|j: int| #[trigger] accepted(w, acc, j, i) && reachable(w, acc, j, (m - 1) as nat);
            assert(0 <= j < i);
            match counts[j] {
                Some(c) => {
                    assert(is_min_count(w, acc, j, c as nat));
                    if c > m - 1 {
                        assert(!reachable(w, acc, j, (m - 1) as nat));
                    }
                },
                None => {
                    assert(no_cover(w, acc, j));
                    assert(!reachable(w, acc, j, (m - 1) as nat));
                },
            }
        }
    }
    if best is Some {
        let b = best->Some_0;
        let j = choose|j: int|
            0 <= j < i && #[trigger] accepted(w, acc, j, i) && counts[j] == Some((b - 1) as usize);
        assert(is_min_count(w, acc, j, (b - 1) as nat));
        assert(reachable(w, acc, i, b as nat));
    }
    assert forall|x: int| 0 <= x < all.len() implies match #[trigger] all[x] {
        Some(k) => is_min_count(w, acc, x, k as nat),
        None => no_cover(w, acc, x),
    } by {
        if x < i {
            assert(all[x] == counts[x]);
        }
    }
}

/// For every end index `i < n`, the fewest accepted runs that cover samples
/// `0..=i`, or `None` where no cover exists. Ends are visited in increasing
/// order and, for each, every start the window admits.
pub fn min_segment_counts(w: &LengthWindow, acc: &Vec<Vec<bool>>, n: usize) -> (counts: Vec<
    Option<usize>,
>)
    requires
        w.wf(),
    ensures
        counts.len() == n,
        counts_exact(*w, acc@, counts@),
{
    let mut counts: Vec<Option<usize>> = Vec::new();
    let mut i: usize = 0;
    while i < n
        invariant
            w.wf(),
            i <= n,
            counts.len() == i,
            counts_exact(*w, acc@, counts@),
            forall|k: int| 0 <= k < i && (#[trigger] counts[k]) is Some ==> counts[k]->Some_0 <= k,
        decreases n - i,
    {
        if i == 0 {
            proof {
                assert(reachable(*w, acc@, 0, 0));
                assert(counts_exact(*w, acc@, counts@.push(Some(0usize))));
            }
            counts.push(Some(0));
        } else if i + 1 < w.min_len {
            proof {
                assert forall|m: nat| !#[trigger] reachable(*w, acc@, i as int, m) by {
                    if m > 0 {
                        assert(forall|j: int| !#[trigger] accepted(*w, acc@, j, i as int));
                    }
                }
                lemma_counts_step(*w, acc@, counts@, i as int, None);
            }
            counts.push(None);
        } else {
            let lo = w.first_start(i);
            let hi = w.last_start(i);
            let mut best: Option<usize> = None;
            let mut j: usize = lo;
            while j <= hi
                invariant
                    w.wf(),
                    0 < i < n,
                    w.min_len <= i + 1,
                    counts.len() == i,
                    lo == if i + 1 >= w.max_len { i + 1 - w.max_len } else { 0 },
                    hi == i + 1 - w.min_len,
                    lo <= j <= hi + 1,
                    forall|k: int| 0 <= k < i && (#[trigger] counts[k]) is Some ==> counts[k]->Some_0 <= k,
                    best is None ==> forall|j2: int|
                        0 <= j2 < j && #[trigger] accepted(*w, acc@, j2, i as int) ==> counts[j2] is None,
                    best is Some ==> {
                        &&& 1 <= best->Some_0 <= i
                        &&& exists|j2: int|
                            0 <= j2 < j && #[trigger] accepted(*w, acc@, j2, i as int) && counts[j2]
                                == Some((best->Some_0 - 1) as usize)
                        &&& forall|j2: int|
                            0 <= j2 < j && #[trigger] accepted(*w, acc@, j2, i as int) && counts[j2] is Some
                                ==> best->Some_0 <= counts[j2]->Some_0 + 1
                    },
                decreases hi + 1 - j,
            {
                if is_accepted(w, acc, j, i) {
                    if let Some(c) = counts[j] {
                        let better = match best {
                            None => true,
                            Some(b) => c + 1 < b,
                        };
                        if better {
                            best = Some(c + 1);
                            assert(counts[j as int] == Some(((c + 1) - 1) as usize));
                        }
                    }
                }
                j = j + 1;
            }
            proof {
                lemma_counts_step(*w, acc@, counts@, i as int, best);
            }
            counts.push(best);
        }
        i = i + 1;
    }
    counts
}

/// `j` starts an accepted run ending at `i` through which a cover of `0..=i`
/// attains the count recorded at `i`, one more than the count at `j`.
pub open spec fn is_optimal_start(
    w: LengthWindow,
    acc: Seq<Vec<bool>>,
    counts: Seq<Option<usize>>,
    j: int,
    i: int,
) -> bool {
    &&& 0 <= j < i < counts.len()
    &&& accepted(w, acc, j, i)
    &&& counts[j] is Some
    &&& counts[i] is Some
    &&& counts[i]->Some_0 == counts[j]->Some_0 + 1
}

/// The starts that may precede end `i` in a cover of fewest runs, ascending.
/// Callers break the remaining ties by residual.
pub fn optimal_starts(
    w: &LengthWindow,
    acc: &Vec<Vec<bool>>,
    counts: &Vec<Option<usize>>,
    i: usize,
) -> (r: Vec<usize>)
    requires
        w.wf(),
    ensures
        forall|k: int|
            #![trigger r[k]]
            0 <= k < r.len() ==> is_optimal_start(*w, acc@, counts@, r[k] as int, i as int),
        forall|j: int|
            #[trigger] is_optimal_start(*w, acc@, counts@, j, i as int) ==> r@.contains(j as usize),
        forall|k: int, l: int| #![trigger r[k], r[l]] 0 <= k < l < r.len() ==> r[k] < r[l],
{
    let mut r: Vec<usize> = Vec::new();
    if i >= counts.len() || i + 1 < w.min_len {
        return r;
    }
    let target = counts[i];
    let lo = w.first_start(i);
    let hi = w.last_start(i);
    let mut j: usize = lo;
    while j <= hi
        invariant
            w.wf(),
            w.min_len <= i + 1,
            i < counts.len(),
            target == counts[i as int],
            lo == if i + 1 >= w.max_len { i + 1 - w.max_len } else { 0 },
            hi == i + 1 - w.min_len,
            lo <= j <= hi + 1,
            forall|k: int|
                #![trigger r[k]]
                0 <= k < r.len() ==> is_optimal_start(*w, acc@, counts@, r[k] as int, i as int)
                    && r[k] < j,
            forall|j2: int|
                #[trigger] is_optimal_start(*w, acc@, counts@, j2, i as int) && j2 < j ==> r@.contains(
                    j2 as usize,
                ),
            forall|k: int, l: int| #![trigger r[k], r[l]] 0 <= k < l < r.len() ==> r[k] < r[l],
        decreases hi + 1 - j,
    {
        let hit = is_accepted(w, acc, j, i) && match counts[j] {
            Some(c) => match target {
                Some(t) => c < t && t - c == 1,
                None => false,
            },
            None => false,
        };
        if !hit {
            assert(!is_optimal_start(*w, acc@, counts@, j as int, i as int));
        } else {
            let ghost before = r@;
            r.push(j);
            proof {
                assert(r@[before.len() as int] == j);
                assert forall|j2: int|
                    #[trigger] is_optimal_start(*w, acc@, counts@, j2, i as int) && j2 < j + 1
                        implies r@.contains(j2 as usize) by {
                    if j2 < j {
                        let x = choose|x: int| 0 <= x < before.len() && before[x] == j2 as usize;
                        assert(r@[x] == before[x]);
                    }
                }
            }
        }
        j = j + 1;
    }
    r
}

/// Following `parent` back from `e` reaches sample 0 through optimal starts
/// only, and sample 0 carries the count zero.
pub open spec fn chain_ok(
    w: LengthWindow,
    acc: Seq<Vec<bool>>,
    counts: Seq<Option<usize>>,
    parent: Seq<usize>,
    e: int,
) -> bool
    decreases e,
{
    if e <= 0 {
        e == 0 && counts.len() > 0 && counts[0] == Some(0usize)
    } else if e < parent.len() && is_optimal_start(w, acc, counts, parent[e] as int, e) {
        chain_ok(w, acc, counts, parent, parent[e] as int)
    } else {
        false
    }
}

/// `segs` covers samples `0..=e` with accepted runs, each starting where the
/// previous one ends.
pub open spec fn is_cover(w: LengthWindow, acc: Seq<Vec<bool>>, segs: Seq<(usize, usize)>, e: int) -> bool {
    if segs.len() == 0 {
        e == 0
    } else {
        &&& segs[0].0 == 0
        &&& segs.last().1 == e
        &&& forall|k: int|
            #![trigger segs[k]]
            0 <= k < segs.len() ==> accepted(w, acc, segs[k].0 as int, segs[k].1 as int)
        &&& forall|k: int| #![trigger segs[k], segs[k + 1]] 0 <= k < segs.len() - 1 ==> segs[k].1 == segs[k + 1].0
    }
}

/// Every run of `segs` starts at the parent of its end.
pub open spec fn follows_parents(segs: Seq<(usize, usize)>, parent: Seq<usize>) -> bool {
    forall|k: int|
        #![trigger segs[k]]
        0 <= k < segs.len() ==> segs[k].1 < parent.len() && parent[segs[k].1 as int] == segs[k].0
}

/// Following `parent` back from `e` strictly decreases until sample 0.
pub open spec fn descends(parent: Seq<usize>, e: int) -> bool
    decreases e,
{
    if e <= 0 {
        true
    } else if e < parent.len() && parent[e] < e {
        descends(parent, parent[e] as int)
    } else {
        false
    }
}

/// The runs `(parent[e], e)` met while following `parent` back from `e`, in
/// increasing order.
pub open spec fn chain_runs(parent: Seq<usize>, e: int) -> Seq<(usize, usize)>
    decreases e,
{
    if e <= 0 {
        Seq::empty()
    } else if e < parent.len() && parent[e] < e {
        chain_runs(parent, parent[e] as int).push((parent[e], e as usize))
    } else {
        Seq::empty()
    }
}

/// Walks `parent` back from the last of `n` samples and returns the runs met,
/// in order; `None` when a step does not move strictly back, since the walk
/// would then never reach sample 0.
pub fn trace_cover(parent: &Vec<usize>, n: usize) -> (r: Option<Vec<(usize, usize)>>)
    requires
        n >= 1,
    ensures
        r is Some <==> descends(parent@, n - 1),
        r is Some ==> r->Some_0@ == chain_runs(parent@, n - 1),
{
    let last = n - 1;
    let mut rev: Vec<(usize, usize)> = Vec::new();
    let ghost mut tail: Seq<(usize, usize)> = Seq::empty();
    let mut end: usize = last;
    while end > 0
        invariant
            last == n - 1,
            end <= last,
            descends(parent@, last as int) == descends(parent@, end as int),
            chain_runs(parent@, last as int) == chain_runs(parent@, end as int) + tail,
            tail.len() == rev.len(),
            forall|k: int| #![trigger tail[k]] 0 <= k < tail.len() ==> tail[k] == rev[rev.len() - 1 - k],
        decreases end,
    {
        if end >= parent.len() || parent[end] >= end {
            return None;
        }
        let j = parent[end];
        proof {
            let t2 = seq![(j, end)] + tail;
            assert(chain_runs(parent@, end as int) == chain_runs(parent@, j as int).push((j, end)));
            assert(chain_runs(parent@, j as int).push((j, end)) + tail =~= chain_runs(parent@, j as int) + t2);
            tail = t2;
        }
        rev.push((j, end));
        proof {
            assert forall|k: int| #![trigger tail[k]] 0 <= k < tail.len() implies tail[k] == rev[rev.len() - 1 - k] by {
                if k > 0 {
                    assert(tail[k] == tail.subrange(1, tail.len() as int)[k - 1]);
                }
            }
        }
        end = j;
    }
    assert(chain_runs(parent@, last as int) =~= tail);
    let mut out: Vec<(usize, usize)> = Vec::new();
    let mut k: usize = 0;
    while k < rev.len()
        invariant
            k <= rev.len(),
            out.len() == k,
            forall|x: int| #![trigger out[x]] 0 <= x < k ==> out[x] == rev[rev.len() - 1 - x],
        decreases rev.len() - k,
    {
        out.push(rev[rev.len() - 1 - k]);
        k = k + 1;
    }
    assert(out@ =~= tail) by {
        assert forall|x: int| 0 <= x < out.len() implies out@[x] == tail[x] by {
            assert(out[x] == rev[rev.len() - 1 - x]);
            assert(tail[x] == rev[rev.len() - 1 - x]);
        }
    }
    Some(out)
}

/// What to do once the fewest-segment counts are known at the last sample.
#[derive(Debug, Clone, Copy, PartialEq, Eq, Structural)]
pub enum CoverStep {
    /// A cover exists: choose parents and trace it.
    Trace,
    /// No cover meets the residual ceiling: retry with no ceiling.
    RetryUnbounded,
    /// Not even an unbounded ceiling gives a cover.
    NoCover,
}

/// Decides the next step from the count at the last sample and whether the
/// ceiling has already been lifted.
pub fn next_step(last_count: Option<usize>, unbounded: bool) -> (r: CoverStep)
    ensures
        last_count is Some ==> r == CoverStep::Trace,
        last_count is None && !unbounded ==> r == CoverStep::RetryUnbounded,
        last_count is None && unbounded ==> r == CoverStep::NoCover,
{
    match last_count {
        Some(_) => CoverStep::Trace,
        None => if unbounded {
            CoverStep::NoCover
        } else {
            CoverStep::RetryUnbounded
        },
    }
}

/// How a sequence of samples is handled, by its length alone.
#[derive(Debug, Clone, Copy, PartialEq, Eq, Structural)]
pub enum FitStrategy {
    /// No samples: no segment at all.
    Empty,
    /// Too few samples for the optimiser: one segment over all of them.
    Single,
    /// Enough samples to search for a cover of fewest segments.
    Segmented,
}

/// The handling owed to `n` samples: none when empty, one segment up to
/// `min_len` samples, the optimiser beyond.
pub open spec fn strategy_of(w: LengthWindow, n: nat) -> FitStrategy {
    if n == 0 {
        FitStrategy::Empty
    } else if n <= w.min_len {
        FitStrategy::Single
    } else {
        FitStrategy::Segmented
    }
}

/// Picks the handling of `n` samples under the window `w`.
pub fn choose_strategy(w: &LengthWindow, n: usize) -> (r: FitStrategy)
    ensures
        r == strategy_of(*w, n as nat),
{
    if n == 0 {
        FitStrategy::Empty
    } else if n <= w.min_len {
        FitStrategy::Single
    } else {
        FitStrategy::Segmented
    }
}

} // verus!
