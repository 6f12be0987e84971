use vstd::prelude::*;

verus! {

/// Smallest number of samples a fitted segment may cover.
pub const MIN_SEGMENT_FLOOR: usize = 3;

/// Default lower bound on the samples per segment.
pub const DEFAULT_MIN_LEN: usize = 30;

/// Default upper bound on the samples per segment.
pub const DEFAULT_MAX_LEN: usize = 200;

/// Why a strict construction of a [`LengthWindow`] was refused.
#[derive(Debug, Clone, Copy, PartialEq, Eq, Structural)]
pub enum WindowError {
    /// The lower bound is below [`MIN_SEGMENT_FLOOR`].
    MinTooShort,
    /// The upper bound is below the lower bound.
    MaxBelowMin,
}

/// Inclusive bounds on the number of samples that one segment covers.
#[derive(Debug, Clone, Copy, PartialEq, Eq, Structural)]
pub struct LengthWindow {
    pub min_len: usize,
    pub max_len: usize,
}

/// Lexicographic order on intervals `(start, end)`: by end, then by start.
pub open spec fn interval_before(a: (usize, usize), b: (usize, usize)) -> bool {
    a.1 < b.1 || (a.1 == b.1 && a.0 < b.0)
}

impl LengthWindow {
    /// The window respects the floor and is not empty.
    pub open spec fn wf(&self) -> bool {
        self.min_len >= MIN_SEGMENT_FLOOR && self.max_len >= self.min_len
    }

    /// The run of samples `j..=i` may form one segment: it starts at a sample
    /// index and its inclusive length lies in the window.
    pub open spec fn is_candidate(&self, j: int, i: int) -> bool {
        &&& 0 <= j
        &&& self.min_len <= i - j + 1 <= self.max_len
    }

    /// Strict construction: refuses a lower bound under the floor, then an
    /// upper bound under the lower bound.
    pub fn new(min_len: usize, max_len: usize) -> (r: Result<LengthWindow, WindowError>)
        ensures
            r == Err::<LengthWindow, WindowError>(WindowError::MinTooShort)
                <==> min_len < MIN_SEGMENT_FLOOR,
            r == Err::<LengthWindow, WindowError>(WindowError::MaxBelowMin)
                <==> (min_len >= MIN_SEGMENT_FLOOR && max_len < min_len),
            r is Ok ==> r == Ok::<LengthWindow, WindowError>(LengthWindow { min_len, max_len }),
            r is Ok ==> r->Ok_0.wf(),
    {
        if min_len < MIN_SEGMENT_FLOOR {
            Err(WindowError::MinTooShort)
        } else if max_len < min_len {
            Err(WindowError::MaxBelowMin)
        } else {
            Ok(LengthWindow { min_len, max_len })
        }
    }

    /// Repairing construction: raises the lower bound to the floor, then the
    /// upper bound to the lower bound.
    pub fn new_clamped(min_len: usize, max_len: usize) -> (r: LengthWindow)
        ensures
            r.min_len == if min_len < MIN_SEGMENT_FLOOR { MIN_SEGMENT_FLOOR } else { min_len },
            r.max_len == if max_len < r.min_len { r.min_len } else { max_len },
            r.wf(),
    {
        let lo: usize = if min_len < MIN_SEGMENT_FLOOR { MIN_SEGMENT_FLOOR } else { min_len };
        let hi: usize = if max_len < lo { lo } else { max_len };
        LengthWindow { min_len: lo, max_len: hi }
    }

    /// Decides whether the run `j..=i` is a candidate.
    pub fn admits(&self, j: usize, i: usize) -> (r: bool)
        requires
            self.wf(),
        ensures
            r == self.is_candidate(j as int, i as int),
    {
        j <= i && i - j >= self.min_len - 1 && i - j < self.max_len
    }

    /// First start examined for a run ending at `i`.
    pub fn first_start(&self, i: usize) -> (r: usize)
        requires
            self.wf(),
        ensures
            r == if i + 1 >= self.max_len { i + 1 - self.max_len } else { 0 },
    {
        if i >= self.max_len - 1 {
            i - (self.max_len - 1)
        } else {
            0
        }
    }

    /// Last start examined for a run ending at `i`.
    pub fn last_start(&self, i: usize) -> (r: usize)
        requires
            self.wf(),
            i + 1 >= self.min_len,
        ensures
            r == i + 1 - self.min_len,
    {
        i - (self.min_len - 1)
    }

    /// Every candidate run over `n` samples, ordered by end, then by start.
    pub fn candidate_intervals(&self, n: usize) -> (r: Vec<(usize, usize)>)
        requires
            self.wf(),
        ensures
            forall|k: int|
                #![trigger r[k]] 0 <= k < r.len() ==> self.is_candidate(r[k].0 as int, r[k].1 as int)
                    && r[k].1 < n,
            forall|j: int, i: int|
                self.is_candidate(j, i) && i < n ==> #[trigger] r@.contains((j as usize, i as usize)),
            forall|k: int, l: int| #![trigger r[k], r[l]] 0 <= k < l < r.len() ==> interval_before(r[k], r[l]),
    {
        let mut r: Vec<(usize, usize)> = Vec::new();
        let mut i: usize = self.min_len - 1;
        while i < n
            invariant
                self.wf(),
                self.min_len <= i + 1,
                forall|k: int|
                    #![trigger r[k]] 0 <= k < r.len() ==> self.is_candidate(r[k].0 as int, r[k].1 as int)
                        && r[k].1 < i && r[k].1 < n,
                forall|j2: int, i2: int|
                    self.is_candidate(j2, i2) && i2 < i ==> #[trigger] r@.contains((j2 as usize, i2 as usize)),
                forall|k: int, l: int| #![trigger r[k], r[l]] 0 <= k < l < r.len() ==> interval_before(r[k], r[l]),
            decreases n - i,
        {
            let lo = self.first_start(i);
            let hi = self.last_start(i);
            let mut j: usize = lo;
            while j <= hi
                invariant
                    self.wf(),
                    self.min_len <= i + 1,
                    i < n,
                    lo == if i + 1 >= self.max_len { i + 1 - self.max_len } else { 0 },
                    hi == i + 1 - self.min_len,
                    lo <= j <= hi + 1,
                    forall|k: int|
                        #![trigger r[k]] 0 <= k < r.len() ==> self.is_candidate(r[k].0 as int, r[k].1 as int)
                            && (r[k].1 < i || (r[k].1 == i && r[k].0 < j)),
                    forall|j2: int, i2: int|
                        self.is_candidate(j2, i2) && (i2 < i || (i2 == i && j2 < j))
                            ==> #[trigger] r@.contains((j2 as usize, i2 as usize)),
                    forall|k: int, l: int| #![trigger r[k], r[l]] 0 <= k < l < r.len() ==> interval_before(r[k], r[l]),
                decreases hi + 1 - j,
            {
                let ghost before = r@;
                r.push((j, i));
                proof {
                    assert forall|j2: int, i2: int|
                        self.is_candidate(j2, i2) && (i2 < i || (i2 == i && j2 < j + 1))
                            implies #[trigger] r@.contains((j2 as usize, i2 as usize)) by {
                        if i2 == i && j2 == j {
                            assert(r@[before.len() as int] == (j2 as usize, i2 as usize));
                        } else {
                            assert(before.contains((j2 as usize, i2 as usize)));
                            let w = choose|w: int| 0 <= w < before.len() && before[w] == (j2 as usize, i2 as usize);
                            assert(r@[w] == before[w]);
                        }
                    }
                    assert forall|k: int|
                        #![trigger r[k]] 0 <= k < r.len() implies self.is_candidate(r[k].0 as int, r[k].1 as int)
                            && (r[k].1 < i || (r[k].1 == i && r[k].0 < j + 1)) by {
                        if k < before.len() {
                            assert(r[k] == before[k]);
                        }
                    }
                }
                j = j + 1;
            }
            i = i + 1;
        }
        r
    }
}

impl Default for LengthWindow {
    fn default() -> (r: LengthWindow)
        ensures
            r.min_len == DEFAULT_MIN_LEN && r.max_len == DEFAULT_MAX_LEN,
    {
        LengthWindow { min_len: DEFAULT_MIN_LEN, max_len: DEFAULT_MAX_LEN }
    }
}

} // verus!
