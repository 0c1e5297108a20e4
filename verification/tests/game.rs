use flappy::game::{Flap, Game, State};

// Playfield quantities that the scoring tests place pipes with.
const BIRD_X: f64 = 120.0;
const PIPE_W: f64 = 78.0;
const RESTART_LOCKOUT: f64 = 0.6;

/// Whether a pipe whose left edge is at `x` has been passed by the bird.
fn behind(x: f64) -> bool {
    x + PIPE_W < BIRD_X
}

#[test]
fn rng_is_deterministic_and_in_unit_range() {
    let mut a = Game::new(0);
    let mut b = Game::new(0);
    for _ in 0..1000 {
        let ra: u32 = a.rand();
        let x: f64 = ra as f64 / 16_777_216.0;
        assert!((0.0..1.0).contains(&x), "rand out of range: {x}");
        assert_eq!(ra, b.rand(), "same seed must give same sequence");
    }
}

#[test]
fn flap_from_ready_starts_playing() {
    let mut g = Game::new(0);
    assert_eq!(g.state, State::Ready);
    assert_eq!(g.flap(false), Flap::Impulse);
    assert_eq!(g.state, State::Playing);
}

#[test]
fn flap_while_playing_applies_impulse() {
    let mut g = Game::new(0);
    g.state = State::Playing;
    assert_eq!(g.flap(false), Flap::Impulse);
    assert_eq!(g.state, State::Playing);
}

#[test]
fn dead_tap_is_locked_out_then_resets() {
    let mut g = Game::new(0);
    g.state = State::Dead;
    g.score = 4;
    let death_flash: f64 = 0.0; // too soon
    assert_eq!(g.flap(death_flash > RESTART_LOCKOUT), Flap::Ignored);
    assert_eq!(g.state, State::Dead, "tap during lockout must not restart");

    let death_flash: f64 = 0.7; // past the lockout
    assert_eq!(g.flap(death_flash > RESTART_LOCKOUT), Flap::Restart);
    assert_eq!(g.state, State::Ready, "tap after lockout restarts");
    assert_eq!(g.score, 0);
}

#[test]
fn scoring_increments_once_per_pipe() {
    let mut g = Game::new(0);
    // A pipe fully behind the bird should score exactly once.
    let mut scored = vec![false];
    let passed = vec![behind(BIRD_X - PIPE_W - 1.0)];
    g.check_score(&mut scored, &passed);
    assert_eq!(g.score, 1);
    assert!(scored[0]);
    g.check_score(&mut scored, &passed);
    assert_eq!(g.score, 1, "already-scored pipe must not count again");
}

#[test]
fn pipe_not_yet_passed_does_not_score() {
    let mut g = Game::new(0);
    let mut scored = vec![false];
    let passed = vec![behind(BIRD_X)];
    g.check_score(&mut scored, &passed);
    assert_eq!(g.score, 0);
    assert!(!scored[0]);
}

#[test]
fn reset_preserves_best_and_clears_the_run() {
    let mut g = Game::new(0);
    g.best = 9;
    g.score = 3;
    g.state = State::Dead;
    g.reset();
    assert_eq!(g.state, State::Ready);
    assert_eq!(g.best, 9, "best score survives a reset");
    assert_eq!(g.score, 0);
}

#[test]
fn dying_records_a_new_best() {
    let mut g = Game::new(0);
    g.score = 7;
    assert!(g.die());
    assert_eq!(g.state, State::Dead);
    assert_eq!(g.best, 7);
}

#[test]
fn dying_below_the_best_keeps_it() {
    let mut g = Game::new(12);
    g.state = State::Playing;
    g.score = 5;
    assert!(!g.die(), "nothing to save");
    assert_eq!(g.state, State::Dead);
    assert_eq!(g.best, 12);
    assert_eq!(g.score, 5);
}

#[test]
fn dying_at_the_best_saves_nothing() {
    let mut g = Game::new(6);
    g.score = 6;
    assert!(!g.die());
    assert_eq!(g.best, 6);
}

#[test]
fn new_game_starts_ready_with_the_given_best() {
    let g = Game::new(41);
    assert_eq!(g.state, State::Ready);
    assert_eq!(g.score, 0);
    assert_eq!(g.best, 41);
}

#[test]
fn first_draws_follow_xorshift_from_the_seed() {
    let mut g = Game::new(0);
    assert_eq!(g.rand(), 14754998);
    assert_eq!(g.rand(), 9149044);
    assert_eq!(g.rand(), 6611379);
}

#[test]
fn draws_continue_across_a_reset() {
    let mut a = Game::new(0);
    let first: u32 = a.rand();
    a.state = State::Dead;
    a.reset();
    let mut b = Game::new(0);
    assert_eq!(b.rand(), first);
    assert_eq!(a.rand(), b.rand(), "reset keeps the generator where it was");
}

#[test]
fn dead_flap_without_lockout_changes_nothing() {
    let mut g = Game::new(3);
    g.state = State::Dead;
    g.score = 2;
    assert_eq!(g.flap(false), Flap::Ignored);
    assert_eq!(g.state, State::Dead);
    assert_eq!(g.score, 2);
    assert_eq!(g.best, 3);
}

#[test]
fn scoring_counts_every_newly_passed_pipe() {
    let mut g = Game::new(0);
    g.score = 10;
    let mut scored = vec![true, false, false, false];
    let passed = vec![true, true, false, true];
    g.check_score(&mut scored, &passed);
    assert_eq!(g.score, 12);
    assert_eq!(scored, vec![true, true, false, true]);
    // Checking again with the same positions scores nothing more.
    g.check_score(&mut scored, &passed);
    assert_eq!(g.score, 12);
}

#[test]
fn scoring_with_no_pipes_changes_nothing() {
    let mut g = Game::new(0);
    let mut scored: Vec<bool> = Vec::new();
    g.check_score(&mut scored, &Vec::new());
    assert_eq!(g.score, 0);
}
