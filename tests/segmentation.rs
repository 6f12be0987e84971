use bezier_dp_fit::cover::{
    acceptance_table, choose_strategy, is_accepted, min_segment_counts, next_step,
    optimal_starts, trace_cover, CoverStep, FitStrategy,
};
use bezier_dp_fit::fitting::{BezierFitter, RunShape};
use bezier_dp_fit::svg::{svg_path, CurveText, PointText};
use bezier_dp_fit::window::{LengthWindow, WindowError};

fn all_accepted(w: &LengthWindow, n: usize) -> Vec<Vec<bool>> {
    let runs = w.candidate_intervals(n);
    let flags = vec![true; runs.len()];
    acceptance_table(w, n, &runs, &flags)
}

fn none_accepted(w: &LengthWindow, n: usize) -> Vec<Vec<bool>> {
    let runs = w.candidate_intervals(n);
    let flags = vec![false; runs.len()];
    acceptance_table(w, n, &runs, &flags)
}

/// Picks, at every end, the first optimal start.
fn first_parents(w: &LengthWindow, acc: &Vec<Vec<bool>>, counts: &Vec<Option<usize>>) -> Vec<usize> {
    (0..counts.len())
        .map(|i| optimal_starts(w, acc, counts, i).first().copied().unwrap_or(0))
        .collect()
}

fn cover_of(w: &LengthWindow, acc: &Vec<Vec<bool>>, n: usize) -> Option<Vec<(usize, usize)>> {
    let counts = min_segment_counts(w, acc, n);
    counts[n - 1]?;
    let parent = first_parents(w, acc, &counts);
    trace_cover(&parent, n)
}

fn pt(x: &str, y: &str) -> PointText {
    PointText { x: x.to_string(), y: y.to_string() }
}

#[test]
fn strict_window_accepts_valid_bounds() {
    assert_eq!(LengthWindow::new(10, 50), Ok(LengthWindow { min_len: 10, max_len: 50 }));
    assert_eq!(LengthWindow::new(3, 3), Ok(LengthWindow { min_len: 3, max_len: 3 }));
}

#[test]
fn strict_window_refuses_short_minimum() {
    assert_eq!(LengthWindow::new(2, 10), Err(WindowError::MinTooShort));
    assert_eq!(LengthWindow::new(0, 0), Err(WindowError::MinTooShort));
}

#[test]
fn strict_window_refuses_inverted_bounds() {
    assert_eq!(LengthWindow::new(20, 10), Err(WindowError::MaxBelowMin));
}

#[test]
fn clamped_window_repairs_bounds() {
    assert_eq!(LengthWindow::new_clamped(1, 2), LengthWindow { min_len: 3, max_len: 3 });
    assert_eq!(LengthWindow::new_clamped(20, 10), LengthWindow { min_len: 20, max_len: 20 });
    assert_eq!(LengthWindow::new_clamped(5, 40), LengthWindow { min_len: 5, max_len: 40 });
}

#[test]
fn default_window() {
    assert_eq!(LengthWindow::default(), LengthWindow { min_len: 30, max_len: 200 });
}

#[test]
fn start_range_for_an_end() {
    let w = LengthWindow { min_len: 3, max_len: 5 };
    assert_eq!(w.first_start(3), 0);
    assert_eq!(w.first_start(10), 6);
    assert_eq!(w.last_start(10), 8);
    assert!(w.admits(6, 10));
    assert!(!w.admits(5, 10));
    assert!(!w.admits(9, 10));
    assert!(w.admits(0, 2));
    assert!(!w.admits(0, 1));
}

#[test]
fn candidate_intervals_are_ordered_and_complete() {
    let w = LengthWindow { min_len: 3, max_len: 4 };
    let r = w.candidate_intervals(6);
    assert_eq!(r, vec![(0, 2), (0, 3), (1, 3), (1, 4), (2, 4), (2, 5), (3, 5)]);
    assert_eq!(w.candidate_intervals(3), vec![(0, 2)]);
    assert!(w.candidate_intervals(2).is_empty());
}

#[test]
fn strategy_by_sample_count() {
    let w = LengthWindow { min_len: 10, max_len: 50 };
    assert_eq!(choose_strategy(&w, 0), FitStrategy::Empty);
    assert_eq!(choose_strategy(&w, 1), FitStrategy::Single);
    assert_eq!(choose_strategy(&w, 2), FitStrategy::Single);
    assert_eq!(choose_strategy(&w, 10), FitStrategy::Single);
    assert_eq!(choose_strategy(&w, 11), FitStrategy::Segmented);
}

#[test]
fn acceptance_table_marks_flagged_candidates_only() {
    let w = LengthWindow { min_len: 3, max_len: 4 };
    let runs = vec![(0, 3), (1, 3), (1, 4), (0, 1), (2, 9)];
    let flags = vec![true, false, true, true, true];
    let acc = acceptance_table(&w, 6, &runs, &flags);
    assert_eq!(acc.len(), 6);
    assert!(is_accepted(&w, &acc, 0, 3));
    assert!(!is_accepted(&w, &acc, 1, 3));
    assert!(is_accepted(&w, &acc, 1, 4));
    assert!(!is_accepted(&w, &acc, 0, 1));
    assert!(!is_accepted(&w, &acc, 2, 9));
    assert!(!is_accepted(&w, &acc, 2, 4));
}

#[test]
fn straight_line_fifty_samples_single_run() {
    let w = LengthWindow::new(10, 50).unwrap();
    let acc = all_accepted(&w, 50);
    let counts = min_segment_counts(&w, &acc, 50);
    assert_eq!(counts[49], Some(1));
    assert_eq!(cover_of(&w, &acc, 50), Some(vec![(0, 49)]));
}

#[test]
fn min_counts_for_small_window() {
    let w = LengthWindow { min_len: 3, max_len: 4 };
    let acc = all_accepted(&w, 8);
    let counts = min_segment_counts(&w, &acc, 8);
    assert_eq!(counts, vec![Some(0), None, Some(1), Some(1), Some(2), Some(2), Some(2), Some(3)]);
}

#[test]
fn optimal_starts_lists_every_tie() {
    let w = LengthWindow { min_len: 3, max_len: 4 };
    let acc = all_accepted(&w, 8);
    let counts = min_segment_counts(&w, &acc, 8);
    assert_eq!(optimal_starts(&w, &acc, &counts, 6), vec![3]);
    assert_eq!(optimal_starts(&w, &acc, &counts, 5), vec![2, 3]);
    assert_eq!(optimal_starts(&w, &acc, &counts, 3), vec![0]);
    assert_eq!(optimal_starts(&w, &acc, &counts, 4), vec![2]);
    assert!(optimal_starts(&w, &acc, &counts, 1).is_empty());
    assert!(optimal_starts(&w, &acc, &counts, 20).is_empty());
}

#[test]
fn cover_is_continuous_and_within_window() {
    let w = LengthWindow::new(5, 20).unwrap();
    let acc = all_accepted(&w, 30);
    let cover = cover_of(&w, &acc, 30).unwrap();
    let counts = min_segment_counts(&w, &acc, 30);
    assert_eq!(Some(cover.len()), counts[29]);
    assert_eq!(cover.len(), 2);
    assert_eq!(cover[0].0, 0);
    assert_eq!(cover[cover.len() - 1].1, 29);
    for k in 0..cover.len() {
        let len = cover[k].1 - cover[k].0 + 1;
        assert!(len >= 5 && len <= 20);
        if k + 1 < cover.len() {
            assert_eq!(cover[k].1, cover[k + 1].0);
        }
    }
}

#[test]
fn trace_follows_any_descending_chain() {
    let w = LengthWindow { min_len: 3, max_len: 4 };
    let acc = all_accepted(&w, 8);
    let counts = min_segment_counts(&w, &acc, 8);
    let mut parent = first_parents(&w, &acc, &counts);
    assert_eq!(trace_cover(&parent, 8), Some(vec![(0, 2), (2, 4), (4, 7)]));
    parent[7] = 2;
    assert_eq!(trace_cover(&parent, 8), Some(vec![(0, 2), (2, 7)]));
    parent[7] = 7;
    assert_eq!(trace_cover(&parent, 8), None);
    assert_eq!(trace_cover(&vec![0], 1), Some(vec![]));
}

#[test]
fn coincident_samples_one_run() {
    let w = LengthWindow::new(3, 200).unwrap();
    let acc = all_accepted(&w, 20);
    assert_eq!(cover_of(&w, &acc, 20), Some(vec![(0, 19)]));
}

#[test]
fn infeasible_ceiling_then_relaxed() {
    let w = LengthWindow::new(5, 20).unwrap();
    let strict = none_accepted(&w, 30);
    let counts = min_segment_counts(&w, &strict, 30);
    assert_eq!(counts[29], None);
    assert_eq!(cover_of(&w, &strict, 30), None);
    let relaxed = all_accepted(&w, 30);
    let cover = cover_of(&w, &relaxed, 30).unwrap();
    assert_eq!(cover[0].0, 0);
    assert_eq!(cover[cover.len() - 1].1, 29);
}

#[test]
fn wider_acceptance_never_adds_segments() {
    let w = LengthWindow { min_len: 3, max_len: 6 };
    let runs = w.candidate_intervals(12);
    let narrow_flags: Vec<bool> = runs.iter().map(|&(j, i)| i - j + 1 <= 4).collect();
    let narrow = acceptance_table(&w, 12, &runs, &narrow_flags);
    let wide = all_accepted(&w, 12);
    let a = min_segment_counts(&w, &narrow, 12);
    let b = min_segment_counts(&w, &wide, 12);
    assert_eq!(a[11], Some(4));
    assert_eq!(b[11], Some(3));
}

#[test]
fn exact_window_covers_in_equal_steps() {
    let w = LengthWindow { min_len: 3, max_len: 3 };
    let acc = all_accepted(&w, 5);
    let counts = min_segment_counts(&w, &acc, 5);
    assert_eq!(counts[4], Some(2));
    assert_eq!(cover_of(&w, &acc, 5), Some(vec![(0, 2), (2, 4)]));
}

#[test]
fn no_cover_when_lengths_cannot_add_up() {
    let w = LengthWindow { min_len: 3, max_len: 3 };
    let acc = all_accepted(&w, 4);
    let counts = min_segment_counts(&w, &acc, 4);
    assert_eq!(counts[3], None);
    assert_eq!(cover_of(&w, &acc, 4), None);
}

#[test]
fn first_run_may_span_exactly_the_minimum() {
    let w = LengthWindow { min_len: 3, max_len: 4 };
    let acc = all_accepted(&w, 5);
    assert_eq!(cover_of(&w, &acc, 5), Some(vec![(0, 2), (2, 4)]));
}

#[test]
fn next_step_after_counting() {
    assert_eq!(next_step(Some(2), false), CoverStep::Trace);
    assert_eq!(next_step(Some(2), true), CoverStep::Trace);
    assert_eq!(next_step(None, false), CoverStep::RetryUnbounded);
    assert_eq!(next_step(None, true), CoverStep::NoCover);
}

#[test]
fn sample_count_never_zero() {
    assert_eq!(BezierFitter::sample_count(0), 1);
    assert_eq!(BezierFitter::sample_count(1), 1);
    assert_eq!(BezierFitter::sample_count(7), 7);
}

#[test]
fn repeated_runs_give_identical_covers() {
    let w = LengthWindow::new(5, 20).unwrap();
    let acc = all_accepted(&w, 47);
    assert_eq!(cover_of(&w, &acc, 47), cover_of(&w, &acc, 47));
}

#[test]
fn svg_path_of_two_segments() {
    let curves = vec![
        CurveText { start: pt("0.00", "0.00"), control: pt("10.00", "10.00"), end: pt("20.00", "15.00") },
        CurveText { start: pt("20.00", "15.00"), control: pt("30.00", "10.00"), end: pt("40.00", "0.00") },
    ];
    let s = svg_path(&curves);
    assert_eq!(s, "M 0.00 0.00 Q 10.00 10.00, 20.00 15.00 Q 30.00 10.00, 40.00 0.00");
    assert!(s.starts_with("M 0.00 0.00"));
    assert_eq!(s.matches(" Q ").count(), 2);
}

#[test]
fn svg_path_of_nothing_is_empty() {
    assert_eq!(svg_path(&Vec::new()), "");
}

#[test]
fn distance_sample_count_is_clamped() {
    assert_eq!(BezierFitter::distance_samples(0), 50);
    assert_eq!(BezierFitter::distance_samples(49), 50);
    assert_eq!(BezierFitter::distance_samples(120), 120);
    assert_eq!(BezierFitter::distance_samples(200), 200);
    assert_eq!(BezierFitter::distance_samples(5000), 200);
}

#[test]
fn parameter_denominator_never_zero() {
    assert_eq!(BezierFitter::parameter_denominator(0), 1);
    assert_eq!(BezierFitter::parameter_denominator(1), 1);
    assert_eq!(BezierFitter::parameter_denominator(2), 1);
    assert_eq!(BezierFitter::parameter_denominator(50), 49);
}

#[test]
fn run_shape_by_length() {
    assert_eq!(BezierFitter::run_shape(0), RunShape::Empty);
    assert_eq!(BezierFitter::run_shape(1), RunShape::Point);
    assert_eq!(BezierFitter::run_shape(2), RunShape::Chord);
    assert_eq!(BezierFitter::run_shape(3), RunShape::LeastSquares);
    assert_eq!(BezierFitter::run_shape(500), RunShape::LeastSquares);
}

#[test]
fn parabola_cover_uses_accepted_runs_only() {
    let w = LengthWindow::new(15, 80).unwrap();
    let runs = w.candidate_intervals(100);
    let flags: Vec<bool> = runs.iter().map(|&(j, i)| i - j + 1 <= 40).collect();
    let acc = acceptance_table(&w, 100, &runs, &flags);
    let cover = cover_of(&w, &acc, 100).unwrap();
    assert!(cover.len() >= 1);
    assert_eq!(cover.len(), 3);
    for &(j, i) in &cover {
        assert!(is_accepted(&w, &acc, j, i));
        assert!(i - j + 1 <= 40);
    }
}
