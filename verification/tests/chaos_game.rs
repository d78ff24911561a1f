use std::cell::Cell;

use rand::Rng;
use tma_engine::geometry::chaos_game;

#[test]
fn chaos_game_keeps_the_states_after_the_warmup() {
    // each step adds the chosen number; the states are the running sums
    let step = |x: &u64, chosen: usize| *x + chosen as u64;
    let points = chaos_game(0u64, 4, 3, &[1, 2, 3, 4, 5, 6, 7], &step);
    assert_eq!(points, vec![(10, 4), (15, 5), (21, 6), (28, 7)]);
}

#[test]
fn chaos_game_without_warmup_keeps_every_state() {
    let step = |x: &u64, _chosen: usize| *x * 2 + 1;
    let points = chaos_game(1u64, 3, 0, &[0, 0, 0], &step);
    assert_eq!(points, vec![(3, 0), (7, 0), (15, 0)]);
}

#[test]
fn chaos_game_with_no_points_still_runs_the_warmup() {
    let calls = Cell::new(0);
    let step = |x: &u64, _chosen: usize| {
        calls.set(calls.get() + 1);
        *x
    };
    let points = chaos_game(0u64, 0, 5, &[0, 1, 2, 3, 4], &step);
    assert!(points.is_empty());
    assert_eq!(calls.get(), 5);
}

#[test]
fn chaos_game_runs_are_prefixes_and_shifts_of_each_other() {
    let choices = [2, 0, 1, 1, 0, 2, 2, 1];
    let step = |x: &u64, chosen: usize| *x * 3 + chosen as u64;
    let long = chaos_game(0u64, 6, 2, &choices, &step);
    let short = chaos_game(0u64, 4, 2, &choices[..6], &step);
    assert_eq!(&long[..4], &short[..]);
    let shifted = chaos_game(0u64, 3, 5, &choices, &step);
    assert_eq!(&long[3..], &shifted[..]);
}

#[test]
fn chaos_game_on_the_plane_halves_toward_chosen_corners() {
    // the Sierpinski maps: scale by one half toward one of three corners
    let corners = [[0.0, 0.0], [0.5, 0.0], [0.25, 0.5]];
    let mut rng = rand::thread_rng();
    let choices: Vec<usize> = (0..110).map(|_| rng.gen_range(0..3usize)).collect();
    let step = |p: &[f64; 2], i: usize| [0.5 * p[0] + corners[i][0], 0.5 * p[1] + corners[i][1]];
    let points = chaos_game([0.0, 0.0], 10, 100, &choices, &step);
    assert_eq!(points.len(), 10);
    for (k, (p, i)) in points.iter().enumerate() {
        assert_eq!(*i, choices[100 + k]);
        assert!((0.0..=1.0).contains(&p[0]) && (0.0..=1.0).contains(&p[1]));
    }
}
