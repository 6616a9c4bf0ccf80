//! A generic Monte Carlo trial harness: it drives an abstract turn-based
//! stochastic game to a terminal state, once per trial, and aggregates
//! victory and turn-count statistics across trials.

use vstd::prelude::*;

verus! {

/// The capability set any concrete stochastic game implements.  A game is
/// repeatedly advanced with `take_turn` until `done` holds, and is then
/// asked for its outcome.  Implementations must guarantee (almost-sure)
/// eventual termination; the harness trusts that guarantee and only bounds
/// the loop defensively, far beyond any plausible game length.
///
/// The three spec methods are the game's own account of its state; the
/// observers promise to report it faithfully, so that what the harness
/// returns can be traced back to a game state.  The harness holds a
/// verified implementation to these contracts; an implementation outside
/// the verifier is trusted with them, as with any contract on code nobody
/// checked.
pub trait Game {
    /// Whether this state is terminal.
    spec fn spec_terminal(&self) -> bool;

    /// Whether this state counts as a victory.
    spec fn spec_won(&self) -> bool;

    /// How many turns led to this state.
    spec fn spec_turn_count(&self) -> u32;

    /// True once the game has reached a terminal state.
    fn done(&self) -> (r: bool)
        ensures
            r == self.spec_terminal(),
    ;

    /// Play one turn, consuming randomness as the game requires.
    fn take_turn(&mut self);

    /// How many turns have been played so far.
    fn turns(&self) -> (r: u32)
        ensures
            r == self.spec_turn_count(),
    ;

    /// True iff the game is over and was won.
    fn achieved_victory(&self) -> (r: bool)
        ensures
            r == self.spec_won(),
    ;
}

/// The outcome of a single completed trial.
#[derive(Clone, Copy, Debug)]
pub struct GameResult {
    pub victory: bool,
    pub turns: u32,
}

/// What a trial can report: the victory flag and turn count of some state
/// of the game, as the game's own spec methods tell them.
pub open spec fn is_trial_outcome<G: Game>(r: GameResult) -> bool {
    exists|g: G| r.victory == g.spec_won() && r.turns == g.spec_turn_count()
}

/// How many of the recorded trials were victories.
pub open spec fn spec_victories(rs: Seq<GameResult>) -> int
    decreases rs.len(),
{
    if rs.len() == 0 {
        0
    } else {
        spec_victories(rs.drop_last()) + if rs.last().victory {
            1int
        } else {
            0int
        }
    }
}

/// The turn counts of the recorded trials, summed.
pub open spec fn spec_total_turns(rs: Seq<GameResult>) -> int
    decreases rs.len(),
{
    if rs.len() == 0 {
        0
    } else {
        spec_total_turns(rs.drop_last()) + rs.last().turns
    }
}

/// Statistics accumulated over a batch of trials.  The derived quantities
/// (victory rate, average turns) are ratios of these fields and are left to
/// the presentation layer.
#[derive(Clone, Copy, Debug)]
pub struct AggregateStatistics {
    pub trial_count: u32,
    pub victory_count: u32,
    pub total_turns: u64,
}

impl AggregateStatistics {
    /// Internal consistency: no more victories than trials, and no more
    /// total turns than every trial having run to the turn-counter limit.
    pub open spec fn wf(self) -> bool {
        &&& self.victory_count <= self.trial_count
        &&& self.total_turns <= self.trial_count as int * u32::MAX as int
    }

    /// The empty aggregate, before any trial has been recorded.
    pub fn new() -> (r: AggregateStatistics)
        ensures
            r.trial_count == 0,
            r.victory_count == 0,
            r.total_turns == 0,
            r.wf(),
    {
        AggregateStatistics { trial_count: 0, victory_count: 0, total_turns: 0 }
    }

    /// Fold one trial's outcome into the aggregate.
    pub fn record(&mut self, result: &GameResult)
        requires
            old(self).wf(),
            old(self).trial_count < u32::MAX,
        ensures
            final(self).wf(),
            final(self).trial_count == old(self).trial_count + 1,
            final(self).victory_count == old(self).victory_count + if result.victory {
                1int
            } else {
                0int
            },
            final(self).total_turns == old(self).total_turns + result.turns,
    {
        self.trial_count = self.trial_count + 1;
        if result.victory {
            self.victory_count = self.victory_count + 1;
        }
        self.total_turns = self.total_turns + result.turns as u64;
    }
}

/// A batch was requested with no trials in it; statistics would divide by
/// the trial count, so the request is rejected before anything runs.
#[derive(Clone, Copy, Debug)]
pub struct ConfigError {
    pub requested_trials: u32,
}

/// Fuel for the defensive bound on a single trial's turn loop.  A game that
/// honours its termination contract finishes long before this.
pub const TRIAL_FUEL: u64 = 0xffff_ffff_ffff_ffff;

/// Run one game to its terminal state and report its outcome: the victory
/// flag and turn count of the game's final state, as the game itself
/// accounts for them.
///
/// The game's own termination guarantee is what ends the loop; a game that
/// never terminates breaks its contract, and the loop gives up only at
/// `TRIAL_FUEL` turns, a bound no honest game approaches.  For any game
/// that stops within the bound, the witness state below is the first
/// terminal state reached.
pub fn run_simulation<G: Game>(game: G) -> (r: GameResult)
    ensures
        is_trial_outcome::<G>(r),
{
    let mut game = game;
    let mut fuel: u64 = TRIAL_FUEL;
    while fuel > 0 && !game.done()
        decreases fuel,
    {
        game.take_turn();
        fuel = fuel - 1;
    }
    let result = GameResult { victory: game.achieved_victory(), turns: game.turns() };
    proof {
        assert(result.victory == game.spec_won() && result.turns == game.spec_turn_count());
    }
    result
}

/// Run `trials` independent trials, each on a fresh game supplied by the
/// factory `ng`, and aggregate their outcomes.
///
/// A batch of zero trials is a configuration error and is rejected before
/// any trial runs; any positive batch is run to completion and reported in
/// full: the aggregate is exactly the fold — `record` applied in order —
/// of one trial outcome per trial, each the reported final state of a
/// game.
pub fn monte_carlo<G: Game, F: Fn() -> G>(trials: u32, ng: F) -> (r: Result<
    AggregateStatistics,
    ConfigError,
>)
    requires
        call_requires(ng, ()),
    ensures
        r is Ok <==> trials >= 1,
        r is Err ==> r->Err_0.requested_trials == trials,
        r is Ok ==> {
            &&& r->Ok_0.wf()
            &&& r->Ok_0.trial_count == trials
            &&& r->Ok_0.victory_count <= trials
            &&& r->Ok_0.total_turns <= trials as int * u32::MAX as int
        },
        r is Ok ==> exists|rs: Seq<GameResult>|
            {
                &&& rs.len() == trials
                &&& (forall|t: int| 0 <= t < rs.len() ==> is_trial_outcome::<G>(#[trigger] rs[t]))
                &&& r->Ok_0.victory_count == spec_victories(rs)
                &&& r->Ok_0.total_turns == spec_total_turns(rs)
            },
{
    if trials < 1 {
        return Err(ConfigError { requested_trials: trials });
    }
    let mut stats = AggregateStatistics::new();
    let ghost mut results: Seq<GameResult> = Seq::empty();
    let mut i: u32 = 0;
    while i < trials
        invariant
            i <= trials,
            stats.wf(),
            stats.trial_count == i,
            call_requires(ng, ()),
            results.len() == i,
            forall|t: int| 0 <= t < results.len() ==> is_trial_outcome::<G>(#[trigger] results[t]),
            stats.victory_count == spec_victories(results),
            stats.total_turns == spec_total_turns(results),
        decreases trials - i,
    {
        let game = ng();
        let result = run_simulation(game);
        stats.record(&result);
        proof {
            let prev = results;
            results = results.push(result);
            assert(results.drop_last() =~= prev);
            assert(results.last() == result);
        }
        i = i + 1;
    }
    proof {
        assert(results.len() == trials);
    }
    Ok(stats)
}

} // verus!
