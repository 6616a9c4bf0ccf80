//! The Orchard game: a cooperative push-your-luck dice race against a
//! countdown.  Four fruit kinds start with equal counts; each turn one face
//! of a six-sided die is drawn.  A fruit face removes one fruit of that
//! kind, the basket face removes fruit from the fullest kinds, and the
//! raven face advances the raven by one step.  The players win if every
//! fruit is gone while the raven still has path left, and lose the moment
//! the raven's path runs out.

use vstd::prelude::*;
use crate::monte_carlo::Game;
use rand::Rng;

verus! {

/// The six faces of the Orchard die.
#[derive(Clone, Copy, Debug, PartialEq, Eq, Structural)]
pub enum OrchardDie {
    Yellow,
    Green,
    Purple,
    Red,
    Basket,
    Raven,
}

/// The configuration a game is built from: how many fruits of each kind at
/// the start, how long the raven's path is, and how many fruits a basket
/// roll removes.
#[derive(Clone, Copy, Debug, PartialEq, Eq, Structural)]
pub struct Variation {
    pub init_fruits: u8,
    pub raven_path: u8,
    pub basket_times: u8,
}

impl Variation {
    /// The small boxed edition: four fruits per kind, five raven steps, one
    /// fruit per basket roll.
    pub fn little_game() -> (v: Variation)
        ensures
            v == (Variation { init_fruits: 4u8, raven_path: 5u8, basket_times: 1u8 }),
    {
        Variation { init_fruits: 4, raven_path: 5, basket_times: 1 }
    }

    /// The large boxed edition: ten fruits per kind, nine raven steps, two
    /// fruits per basket roll.
    pub fn big_game() -> (v: Variation)
        ensures
            v == (Variation { init_fruits: 10u8, raven_path: 9u8, basket_times: 2u8 }),
    {
        Variation { init_fruits: 10, raven_path: 9, basket_times: 2 }
    }

    /// Start from the chosen edition and apply any explicit overrides.
    pub fn from_opts(big: bool, ravens: Option<u8>, fruits: Option<u8>, basket: Option<u8>) -> (v:
        Variation)
        ensures
            v.init_fruits == match fruits {
                Some(f) => f,
                None => if big { 10u8 } else { 4u8 },
            },
            v.raven_path == match ravens {
                Some(r) => r,
                None => if big { 9u8 } else { 5u8 },
            },
            v.basket_times == match basket {
                Some(b) => b,
                None => if big { 2u8 } else { 1u8 },
            },
    {
        let mut result = if big {
            Variation::big_game()
        } else {
            Variation::little_game()
        };
        if let Some(r) = ravens {
            result.raven_path = r;
        }
        if let Some(f) = fruits {
            result.init_fruits = f;
        }
        if let Some(b) = basket {
            result.basket_times = b;
        }
        result
    }
}

/// One Orchard game in progress.  Counts are unsigned, so no fruit count
/// and no raven counter can ever be negative.
#[derive(Clone, Copy, Debug, PartialEq, Eq, Structural)]
pub struct Orchard {
    pub yellow: u8,
    pub green: u8,
    pub purple: u8,
    pub red: u8,
    pub raven: u8,
    pub turns: u32,
    pub basket_times: u8,
}

/// True of the four die faces that name a fruit kind.
pub open spec fn is_fruit(d: OrchardDie) -> bool {
    d == OrchardDie::Yellow || d == OrchardDie::Green || d == OrchardDie::Purple || d
        == OrchardDie::Red
}

/// A count decremented by one, floored at zero.
pub open spec fn dec_floor(c: u8) -> u8 {
    if c > 0 {
        (c - 1) as u8
    } else {
        0u8
    }
}

/// The state a fresh game starts in under the given configuration.
pub open spec fn spec_new(v: Variation) -> Orchard {
    Orchard {
        yellow: v.init_fruits,
        green: v.init_fruits,
        purple: v.init_fruits,
        red: v.init_fruits,
        raven: v.raven_path,
        turns: 0,
        basket_times: v.basket_times,
    }
}

/// Removing one fruit of the given kind, floored at zero; the basket and
/// raven faces name no fruit kind and change nothing here.
pub open spec fn spec_decrement(g: Orchard, d: OrchardDie) -> Orchard {
    match d {
        OrchardDie::Yellow => Orchard { yellow: dec_floor(g.yellow), ..g },
        OrchardDie::Green => Orchard { green: dec_floor(g.green), ..g },
        OrchardDie::Purple => Orchard { purple: dec_floor(g.purple), ..g },
        OrchardDie::Red => Orchard { red: dec_floor(g.red), ..g },
        OrchardDie::Basket => g,
        OrchardDie::Raven => g,
    }
}

/// The fruit kind a basket roll removes from: the kind with the largest
/// count, ties broken by the fixed canonical order yellow, green, purple,
/// red.
pub open spec fn spec_max_die(g: Orchard) -> OrchardDie {
    if g.yellow >= g.green && g.yellow >= g.purple && g.yellow >= g.red {
        OrchardDie::Yellow
    } else if g.green >= g.purple && g.green >= g.red {
        OrchardDie::Green
    } else if g.purple >= g.red {
        OrchardDie::Purple
    } else {
        OrchardDie::Red
    }
}

/// One basket removal: take one fruit from the currently fullest kind.
pub open spec fn basket_step(g: Orchard) -> Orchard {
    spec_decrement(g, spec_max_die(g))
}

/// `k` basket removals in sequence.
pub open spec fn spec_basket(g: Orchard, k: nat) -> Orchard
    decreases k,
{
    if k == 0 {
        g
    } else {
        spec_basket(basket_step(g), (k - 1) as nat)
    }
}

/// The full effect of one die face on the game state (the turn counter is
/// advanced separately, before the face is applied).
pub open spec fn spec_apply(g: Orchard, d: OrchardDie) -> Orchard {
    match d {
        OrchardDie::Basket => spec_basket(g, g.basket_times as nat),
        OrchardDie::Raven => Orchard { raven: dec_floor(g.raven), ..g },
        _ => spec_decrement(g, d),
    }
}

/// The turn counter advanced by one, held at its machine limit rather than
/// overflowing.
pub open spec fn spec_bump(g: Orchard) -> Orchard {
    if g.turns < u32::MAX {
        Orchard { turns: (g.turns + 1) as u32, ..g }
    } else {
        g
    }
}

/// The die face for a uniform index in `0 .. 6`; every index maps to a
/// face, so there is no impossible branch.
pub open spec fn spec_die_of_index(i: u8) -> OrchardDie {
    if i == 0 {
        OrchardDie::Yellow
    } else if i == 1 {
        OrchardDie::Green
    } else if i == 2 {
        OrchardDie::Purple
    } else if i == 3 {
        OrchardDie::Red
    } else if i == 4 {
        OrchardDie::Basket
    } else {
        OrchardDie::Raven
    }
}

/// Relies on rand: `rand::thread_rng` supplies the generator and
/// `rand::Rng::gen_range` draws one value uniformly from the non-empty
/// range `0 .. 6`, so the result is always below six.
#[verifier::external_body]
fn roll_index() -> (r: u8)
    ensures
        r < 6,
{
    rand::thread_rng().gen_range(0u8..6u8)
}

impl OrchardDie {
    /// The total mapping from a uniform index to a die face.
    pub fn of_index(i: u8) -> (d: OrchardDie)
        ensures
            d == spec_die_of_index(i),
    {
        match i {
            0 => OrchardDie::Yellow,
            1 => OrchardDie::Green,
            2 => OrchardDie::Purple,
            3 => OrchardDie::Red,
            4 => OrchardDie::Basket,
            _ => OrchardDie::Raven,
        }
    }

    /// Draw one face uniformly.  Which face comes back is chance; every
    /// face is a possible outcome, so all that holds of the result is that
    /// it is the face of some index below six.
    pub fn roll() -> (d: OrchardDie)
        ensures
            exists|i: u8| i < 6 && d == spec_die_of_index(i),
    {
        let i = roll_index();
        let d = OrchardDie::of_index(i);
        proof {
            assert(i < 6 && d == spec_die_of_index(i));
        }
        d
    }
}

/// `k` basket removals never increase any count and touch nothing but the
/// four fruit counts.
proof fn lemma_basket_monotonic(g: Orchard, k: nat)
    ensures
        spec_basket(g, k).yellow <= g.yellow,
        spec_basket(g, k).green <= g.green,
        spec_basket(g, k).purple <= g.purple,
        spec_basket(g, k).red <= g.red,
        spec_basket(g, k).raven == g.raven,
        spec_basket(g, k).turns == g.turns,
        spec_basket(g, k).basket_times == g.basket_times,
    decreases k,
{
    if k > 0 {
        lemma_basket_monotonic(basket_step(g), (k - 1) as nat);
    }
}

/// Unrolling one more basket removal from the tail of the sequence.
proof fn lemma_basket_unfold(g: Orchard, k: nat)
    ensures
        spec_basket(g, (k + 1) as nat) == basket_step(spec_basket(g, k)),
    decreases k,
{
    if k == 0 {
        assert(spec_basket(g, 1) == spec_basket(basket_step(g), 0));
    } else {
        lemma_basket_unfold(basket_step(g), (k - 1) as nat);
        assert(spec_basket(g, (k + 1) as nat) == spec_basket(basket_step(g), k));
        assert(spec_basket(g, k) == spec_basket(basket_step(g), (k - 1) as nat));
    }
}

/// Law (monotone progress): one die face, applied after the turn bump,
/// never increases a fruit count or the raven counter, moves the raven
/// counter down by at most one, and advances the turn counter by exactly
/// one while it is below its machine limit.  All counts are unsigned, so
/// none can become negative; applied along any sequence of turns this
/// keeps every counter monotone.
pub proof fn lemma_advance_monotonic(g: Orchard, d: OrchardDie)
    ensures
        spec_apply(spec_bump(g), d).yellow <= g.yellow,
        spec_apply(spec_bump(g), d).green <= g.green,
        spec_apply(spec_bump(g), d).purple <= g.purple,
        spec_apply(spec_bump(g), d).red <= g.red,
        spec_apply(spec_bump(g), d).raven <= g.raven,
        g.raven - spec_apply(spec_bump(g), d).raven <= 1,
        g.turns < u32::MAX ==> spec_apply(spec_bump(g), d).turns == g.turns + 1,
        g.turns == u32::MAX ==> spec_apply(spec_bump(g), d).turns == g.turns,
        spec_apply(spec_bump(g), d).basket_times == g.basket_times,
{
    let b = spec_bump(g);
    match d {
        OrchardDie::Basket => {
            lemma_basket_monotonic(b, b.basket_times as nat);
        },
        _ => {},
    }
}

/// A whole sequence of turns: bump the turn counter and apply each die
/// face in order.
pub open spec fn spec_play(g: Orchard, rolls: Seq<OrchardDie>) -> Orchard
    decreases rolls.len(),
{
    if rolls.len() == 0 {
        g
    } else {
        spec_play(spec_apply(spec_bump(g), rolls[0]), rolls.drop_first())
    }
}

/// Law (monotone progress, over whole games): across any sequence of
/// turns, no fruit count and no raven counter ever increases (and being
/// unsigned, none can go below zero), the raven moves at most one step per
/// turn, and the turn counter grows by exactly one per turn for as long as
/// it stays below its machine limit.
pub proof fn lemma_play_monotonic(g: Orchard, rolls: Seq<OrchardDie>)
    ensures
        spec_play(g, rolls).yellow <= g.yellow,
        spec_play(g, rolls).green <= g.green,
        spec_play(g, rolls).purple <= g.purple,
        spec_play(g, rolls).red <= g.red,
        spec_play(g, rolls).raven <= g.raven,
        g.raven - spec_play(g, rolls).raven <= rolls.len(),
        spec_play(g, rolls).turns >= g.turns,
        g.turns + rolls.len() <= u32::MAX ==> spec_play(g, rolls).turns == g.turns + rolls.len(),
    decreases rolls.len(),
{
    if rolls.len() > 0 {
        lemma_advance_monotonic(g, rolls[0]);
        lemma_play_monotonic(spec_apply(spec_bump(g), rolls[0]), rolls.drop_first());
    }
}

/// Law (raven boundary): with no raven path at construction the game is
/// terminal before any turn is taken, is not a victory, and has a turn
/// count of zero.
pub proof fn lemma_raven_zero_terminal(v: Variation)
    requires
        v.raven_path == 0,
    ensures
        spec_new(v).spec_done(),
        !spec_new(v).spec_victory(),
        spec_new(v).turns == 0,
{
}

/// Law (basket no-op): with a basket removal count of zero, a basket roll
/// changes nothing at all.
pub proof fn lemma_basket_noop(g: Orchard)
    requires
        g.basket_times == 0,
    ensures
        spec_apply(g, OrchardDie::Basket) == g,
{
}

impl Orchard {
    /// Terminal test: the raven's path has run out, or every fruit kind is
    /// empty.
    pub open spec fn spec_done(self) -> bool {
        self.raven == 0 || (self.yellow == 0 && self.green == 0 && self.purple == 0 && self.red
            == 0)
    }

    /// Victory test: the game is over and the raven still has path left,
    /// so the fruit ran out strictly first.
    pub open spec fn spec_victory(self) -> bool {
        self.spec_done() && self.raven > 0
    }

    /// The count currently held by a fruit kind (zero for the two faces
    /// that name none).
    pub open spec fn fruit_count(self, d: OrchardDie) -> u8 {
        match d {
            OrchardDie::Yellow => self.yellow,
            OrchardDie::Green => self.green,
            OrchardDie::Purple => self.purple,
            OrchardDie::Red => self.red,
            OrchardDie::Basket => 0u8,
            OrchardDie::Raven => 0u8,
        }
    }

    /// A fresh game under the given configuration.
    pub fn new(variation: &Variation) -> (g: Orchard)
        ensures
            g == spec_new(*variation),
    {
        Orchard {
            yellow: variation.init_fruits,
            green: variation.init_fruits,
            purple: variation.init_fruits,
            red: variation.init_fruits,
            raven: variation.raven_path,
            turns: 0,
            basket_times: variation.basket_times,
        }
    }

    /// Remove one fruit of the given kind, floored at zero; a face that
    /// names no fruit kind changes nothing.
    pub fn decrement(&mut self, die: OrchardDie)
        ensures
            *final(self) == spec_decrement(*old(self), die),
    {
        match die {
            OrchardDie::Yellow => {
                if self.yellow > 0 {
                    self.yellow = self.yellow - 1;
                }
            },
            OrchardDie::Green => {
                if self.green > 0 {
                    self.green = self.green - 1;
                }
            },
            OrchardDie::Purple => {
                if self.purple > 0 {
                    self.purple = self.purple - 1;
                }
            },
            OrchardDie::Red => {
                if self.red > 0 {
                    self.red = self.red - 1;
                }
            },
            OrchardDie::Basket => {},
            OrchardDie::Raven => {},
        }
    }

    /// The fruit kind a basket roll removes from: largest count first,
    /// ties broken in the canonical order yellow, green, purple, red.
    pub fn find_max_die(&self) -> (d: OrchardDie)
        ensures
            d == spec_max_die(*self),
            is_fruit(d),
            self.fruit_count(d) >= self.yellow,
            self.fruit_count(d) >= self.green,
            self.fruit_count(d) >= self.purple,
            self.fruit_count(d) >= self.red,
    {
        if self.yellow >= self.green && self.yellow >= self.purple && self.yellow >= self.red {
            OrchardDie::Yellow
        } else if self.green >= self.purple && self.green >= self.red {
            OrchardDie::Green
        } else if self.purple >= self.red {
            OrchardDie::Purple
        } else {
            OrchardDie::Red
        }
    }

    /// Apply one die face to the state: exactly the transition
    /// `spec_apply` describes, for every face.
    pub fn apply_roll(&mut self, roll: OrchardDie)
        ensures
            *final(self) == spec_apply(*old(self), roll),
    {
        match roll {
            OrchardDie::Basket => {
                let ghost g0: Orchard = *self;
                let times = self.basket_times;
                let mut i: u8 = 0;
                while i < times
                    invariant
                        i <= times,
                        *self == spec_basket(g0, i as nat),
                        times == g0.basket_times,
                    decreases times - i,
                {
                    let d = self.find_max_die();
                    self.decrement(d);
                    proof {
                        lemma_basket_unfold(g0, i as nat);
                    }
                    i = i + 1;
                }
            },
            OrchardDie::Raven => {
                if self.raven > 0 {
                    self.raven = self.raven - 1;
                }
            },
            _ => {
                self.decrement(roll);
            },
        }
    }

    /// Play one turn: advance the turn counter (held at its machine limit
    /// rather than overflowing), draw a die face uniformly, and apply it.
    /// Which face is drawn is chance, so the new state is pinned only up
    /// to the face: it is `spec_apply` of the bumped state at some face,
    /// and therefore monotone in every counter.
    pub fn advance(&mut self)
        ensures
            exists|d: OrchardDie| *final(self) == spec_apply(spec_bump(*old(self)), d),
            final(self).yellow <= old(self).yellow,
            final(self).green <= old(self).green,
            final(self).purple <= old(self).purple,
            final(self).red <= old(self).red,
            final(self).raven <= old(self).raven,
            old(self).raven - final(self).raven <= 1,
            old(self).turns < u32::MAX ==> final(self).turns == old(self).turns + 1,
            old(self).turns == u32::MAX ==> final(self).turns == old(self).turns,
            final(self).basket_times == old(self).basket_times,
    {
        if self.turns < u32::MAX {
            self.turns = self.turns + 1;
        }
        let roll = OrchardDie::roll();
        self.apply_roll(roll);
        proof {
            assert(*self == spec_apply(spec_bump(*old(self)), roll));
            lemma_advance_monotonic(*old(self), roll);
        }
    }
}

impl Game for Orchard {
    open spec fn spec_terminal(&self) -> bool {
        self.spec_done()
    }

    open spec fn spec_won(&self) -> bool {
        self.spec_victory()
    }

    open spec fn spec_turn_count(&self) -> u32 {
        self.turns
    }

    fn done(&self) -> (r: bool)
        ensures
            r == self.spec_done(),
    {
        self.raven == 0 || (self.yellow == 0 && self.green == 0 && self.purple == 0 && self.red
            == 0)
    }

    fn take_turn(&mut self)
        ensures
            exists|d: OrchardDie| *final(self) == spec_apply(spec_bump(*old(self)), d),
            final(self).yellow <= old(self).yellow,
            final(self).green <= old(self).green,
            final(self).purple <= old(self).purple,
            final(self).red <= old(self).red,
            final(self).raven <= old(self).raven,
            old(self).raven - final(self).raven <= 1,
            old(self).turns < u32::MAX ==> final(self).turns == old(self).turns + 1,
            old(self).turns == u32::MAX ==> final(self).turns == old(self).turns,
            final(self).basket_times == old(self).basket_times,
    {
        self.advance();
    }

    fn turns(&self) -> (r: u32)
        ensures
            r == self.turns,
    {
        self.turns
    }

    fn achieved_victory(&self) -> (r: bool)
        ensures
            r == self.spec_victory(),
    {
        self.done() && self.raven > 0
    }
}

} // verus!
