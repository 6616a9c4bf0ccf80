use simulations::{monte_carlo, run_simulation, Game, Orchard, OrchardDie, Variation};

/// A game that is over before it starts: always victorious, always three
/// turns long.
struct StubGame;

impl Game for StubGame {
    // The spec methods are the verifier-facing account of the state; in
    // compiled code they are ordinary methods that nothing calls.
    fn spec_terminal(&self) -> bool {
        true
    }

    fn spec_won(&self) -> bool {
        true
    }

    fn spec_turn_count(&self) -> u32 {
        3
    }

    fn done(&self) -> bool {
        true
    }

    fn take_turn(&mut self) {}

    fn turns(&self) -> u32 {
        3
    }

    fn achieved_victory(&self) -> bool {
        true
    }
}

#[test]
fn monte_carlo_aggregates_stub_game() {
    let stats = monte_carlo(5, || StubGame).unwrap();
    assert_eq!(stats.trial_count, 5);
    assert_eq!(stats.victory_count, 5);
    assert_eq!(stats.total_turns, 15);
    let victory_rate = stats.victory_count as f64 / stats.trial_count as f64;
    assert_eq!(victory_rate, 1.0);
    let average_turns = stats.total_turns as f64 / stats.trial_count as f64;
    assert_eq!(average_turns, 3.0);
}

#[test]
fn monte_carlo_rejects_zero_trials() {
    let err = monte_carlo(0, || StubGame).unwrap_err();
    assert_eq!(err.requested_trials, 0);
}

#[test]
fn run_simulation_reports_stub_outcome() {
    let result = run_simulation(StubGame);
    assert!(result.victory);
    assert_eq!(result.turns, 3);
}

#[test]
fn variation_presets() {
    let little = Variation::little_game();
    assert_eq!(little.init_fruits, 4);
    assert_eq!(little.raven_path, 5);
    assert_eq!(little.basket_times, 1);

    let big = Variation::big_game();
    assert_eq!(big.init_fruits, 10);
    assert_eq!(big.raven_path, 9);
    assert_eq!(big.basket_times, 2);
}

#[test]
fn variation_from_opts_applies_overrides() {
    let v = Variation::from_opts(false, None, None, None);
    assert_eq!(v, Variation::little_game());

    let v = Variation::from_opts(true, None, None, None);
    assert_eq!(v, Variation::big_game());

    let v = Variation::from_opts(true, Some(3), Some(7), Some(5));
    assert_eq!(v.raven_path, 3);
    assert_eq!(v.init_fruits, 7);
    assert_eq!(v.basket_times, 5);
}

#[test]
fn orchard_terminal_at_zero_raven_path() {
    let v = Variation::from_opts(false, Some(0), None, None);
    let game = Orchard::new(&v);
    assert!(game.done());
    assert!(!game.achieved_victory());
    assert_eq!(game.turns(), 0);
}

#[test]
fn orchard_basket_is_noop_with_zero_removals() {
    let v = Variation::from_opts(false, None, None, Some(0));
    let mut game = Orchard::new(&v);
    for _ in 0..10 {
        game.apply_roll(OrchardDie::Basket);
        assert_eq!(game.yellow, 4);
        assert_eq!(game.green, 4);
        assert_eq!(game.purple, 4);
        assert_eq!(game.red, 4);
    }
}

#[test]
fn orchard_counters_stay_monotone() {
    let mut game = Orchard::new(&Variation::little_game());
    for turn in 0..200u32 {
        let before = game;
        game.advance();
        assert!(game.yellow <= before.yellow);
        assert!(game.green <= before.green);
        assert!(game.purple <= before.purple);
        assert!(game.red <= before.red);
        assert!(game.raven <= before.raven);
        assert!(before.raven - game.raven <= 1);
        assert_eq!(game.turns, turn + 1);
    }
}

#[test]
fn orchard_decrement_floors_at_zero() {
    let v = Variation::from_opts(false, None, Some(1), None);
    let mut game = Orchard::new(&v);
    game.decrement(OrchardDie::Yellow);
    assert_eq!(game.yellow, 0);
    game.decrement(OrchardDie::Yellow);
    assert_eq!(game.yellow, 0);
    assert_eq!(game.green, 1);
}

#[test]
fn orchard_find_max_die_breaks_ties_canonically() {
    let v = Variation::little_game();
    let mut game = Orchard::new(&v);
    // All counts equal: the canonical order prefers yellow.
    assert_eq!(game.find_max_die(), OrchardDie::Yellow);

    game.yellow = 1;
    assert_eq!(game.find_max_die(), OrchardDie::Green);

    game.green = 2;
    game.purple = 3;
    game.red = 3;
    assert_eq!(game.find_max_die(), OrchardDie::Purple);

    game.purple = 0;
    game.red = 9;
    assert_eq!(game.find_max_die(), OrchardDie::Red);
}

#[test]
fn orchard_basket_removes_from_fullest_kinds() {
    let v = Variation::from_opts(false, None, None, Some(2));
    let mut game = Orchard::new(&v);
    game.yellow = 3;
    game.green = 1;
    game.purple = 1;
    game.red = 1;
    game.apply_roll(OrchardDie::Basket);
    assert_eq!(game.yellow, 1);
    assert_eq!(game.green, 1);
    assert_eq!(game.purple, 1);
    assert_eq!(game.red, 1);
}

#[test]
fn orchard_raven_roll_counts_down_and_floors() {
    let v = Variation::from_opts(false, Some(1), None, None);
    let mut game = Orchard::new(&v);
    game.apply_roll(OrchardDie::Raven);
    assert_eq!(game.raven, 0);
    game.apply_roll(OrchardDie::Raven);
    assert_eq!(game.raven, 0);
}

#[test]
fn orchard_fruit_roll_removes_one() {
    let mut game = Orchard::new(&Variation::little_game());
    game.apply_roll(OrchardDie::Green);
    assert_eq!(game.yellow, 4);
    assert_eq!(game.green, 3);
    assert_eq!(game.purple, 4);
    assert_eq!(game.red, 4);
    assert_eq!(game.raven, 5);
}

#[test]
fn orchard_victory_requires_raven_path_left() {
    let mut game = Orchard::new(&Variation::little_game());
    game.yellow = 0;
    game.green = 0;
    game.purple = 0;
    game.red = 0;
    assert!(game.done());
    assert!(game.achieved_victory());

    game.raven = 0;
    assert!(game.done());
    assert!(!game.achieved_victory());
}

#[test]
fn die_of_index_is_total() {
    assert_eq!(OrchardDie::of_index(0), OrchardDie::Yellow);
    assert_eq!(OrchardDie::of_index(1), OrchardDie::Green);
    assert_eq!(OrchardDie::of_index(2), OrchardDie::Purple);
    assert_eq!(OrchardDie::of_index(3), OrchardDie::Red);
    assert_eq!(OrchardDie::of_index(4), OrchardDie::Basket);
    assert_eq!(OrchardDie::of_index(5), OrchardDie::Raven);
}

#[test]
fn monte_carlo_runs_orchard_to_completion() {
    let variation = Variation::little_game();
    let stats = monte_carlo(100, || Orchard::new(&variation)).unwrap();
    assert_eq!(stats.trial_count, 100);
    assert!(stats.victory_count <= 100);
    // No little game ends before five turns: the raven path is five steps
    // and sixteen fruits must otherwise be cleared one per turn.
    assert!(stats.total_turns >= 500);
}
