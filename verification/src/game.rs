//! The run's state machine and its discrete bookkeeping: which phase the run
//! is in, what a flap does in each phase, the generator that places the pipes,
//! the score and the best score. Positions, speeds and timers are continuous
//! and are kept by the caller, which passes in the comparisons made on them.

use vstd::prelude::*;

verus! {

/// Top-level game state; both input and stepping branch on it.
#[derive(Clone, Copy, Debug, PartialEq, Eq, Structural)]
pub enum State {
    /// Bobbing on the title screen, waiting for the first flap.
    Ready,
    Playing,
    Dead,
}

/// What a flap asks of the bird's motion.
#[derive(Clone, Copy, Debug, PartialEq, Eq, Structural)]
pub enum Flap {
    /// The bird gets the flap impulse as its new vertical velocity.
    Impulse,
    /// The run was reset to the title screen: the world starts over.
    Restart,
    /// The tap came during the lockout after a death and does nothing.
    Ignored,
}

/// The generator's fixed seed: every game draws the same pipe sequence.
pub const RNG_SEED: u32 = 0x2545_F491u32;

/// One xorshift step of the generator's state.
pub open spec fn next_rng(x: u32) -> u32 {
    let a: u32 = x ^ (x << 13u32);
    let b: u32 = a ^ (a >> 17u32);
    b ^ (b << 5u32)
}

/// The 24-bit draw that leaves state `x`: the top 24 bits of the next state.
/// Divided by 2^24 it is a number in [0, 1).
pub open spec fn draw(x: u32) -> u32 {
    next_rng(x) >> 8u32
}

/// The number of `true` entries of `s`.
pub open spec fn count_true(s: Seq<bool>) -> nat
    decreases s.len(),
{
    if s.len() == 0 {
        0
    } else {
        count_true(s.drop_last()) + if s.last() {
            1nat
        } else {
            0nat
        }
    }
}

/// Which pipes score now: those not scored yet that the bird has passed.
pub open spec fn scoring_now(scored: Seq<bool>, behind: Seq<bool>) -> Seq<bool> {
    Seq::new(scored.len(), |i: int| !scored[i] && behind[i])
}

/// The scored flags after a check: a pipe is scored once it has been passed.
pub open spec fn marked(scored: Seq<bool>, behind: Seq<bool>) -> Seq<bool> {
    Seq::new(scored.len(), |i: int| scored[i] || behind[i])
}

/// How many pipes score in one check.
pub open spec fn newly_scored(scored: Seq<bool>, behind: Seq<bool>) -> nat {
    count_true(scoring_now(scored, behind))
}

proof fn lemma_count_true_prefix(s: Seq<bool>, k: int)
    requires
        0 <= k <= s.len(),
    ensures
        count_true(s.take(k)) <= count_true(s),
    decreases s.len(),
{
    if k < s.len() {
        assert(s.drop_last().take(k) =~= s.take(k));
        lemma_count_true_prefix(s.drop_last(), k);
    } else {
        assert(s.take(k) =~= s);
    }
}

proof fn lemma_count_true_step(s: Seq<bool>, k: int)
    requires
        0 <= k < s.len(),
    ensures
        count_true(s.take(k + 1)) == count_true(s.take(k)) + if s[k] {
            1nat
        } else {
            0nat
        },
{
    assert(s.take(k + 1).drop_last() =~= s.take(k));
}

/// A check raises the number of scored pipes by exactly what it adds to the
/// score: the score counts each pipe once, however often it is checked.
pub proof fn lemma_score_counts_scored_pipes(scored: Seq<bool>, behind: Seq<bool>)
    requires
        scored.len() == behind.len(),
    ensures
        count_true(marked(scored, behind)) == count_true(scored) + newly_scored(scored, behind),
    decreases scored.len(),
{
    if scored.len() > 0 {
        let s0 = scored.drop_last();
        let b0 = behind.drop_last();
        assert(marked(scored, behind).drop_last() =~= marked(s0, b0));
        assert(scoring_now(scored, behind).drop_last() =~= scoring_now(s0, b0));
        lemma_score_counts_scored_pipes(s0, b0);
    }
}

proof fn lemma_count_true_none(s: Seq<bool>)
    requires
        forall|i: int| 0 <= i < s.len() ==> !s[i],
    ensures
        count_true(s) == 0,
    decreases s.len(),
{
    if s.len() > 0 {
        lemma_count_true_none(s.drop_last());
    }
}

/// Whether a pipe scores in a check, and whether it is marked scored after it,
/// depends on its own flags alone: pipe `i` scores exactly when it had not
/// scored and is now passed, and is scored afterwards exactly when it had
/// scored or is now passed, whatever its index and however many pipes there are.
pub proof fn lemma_each_pipe_scores_on_its_own(scored: Seq<bool>, behind: Seq<bool>, i: int)
    requires
        scored.len() == behind.len(),
        0 <= i < scored.len(),
    ensures
        scoring_now(scored, behind)[i] == (!scored[i] && behind[i]),
        marked(scored, behind)[i] == (scored[i] || behind[i]),
        marked(scored, behind).len() == scored.len(),
{
}

/// The number of pipes that score, counted pipe by pipe: none among no pipes,
/// and one more pipe adds one exactly when it had not scored and is passed.
pub proof fn lemma_newly_scored_counts_pipe_by_pipe(
    scored: Seq<bool>,
    behind: Seq<bool>,
    s: bool,
    b: bool,
)
    requires
        scored.len() == behind.len(),
    ensures
        newly_scored(Seq::empty(), Seq::empty()) == 0,
        newly_scored(scored.push(s), behind.push(b)) == newly_scored(scored, behind) + if !s && b {
            1nat
        } else {
            0nat
        },
        newly_scored(seq![s] + scored, seq![b] + behind) == newly_scored(scored, behind) + if !s
            && b {
            1nat
        } else {
            0nat
        },
    decreases scored.len(),
{
    assert(scoring_now(Seq::<bool>::empty(), Seq::<bool>::empty()) =~= Seq::<bool>::empty());
    let now = scoring_now(scored.push(s), behind.push(b));
    assert(now.drop_last() =~= scoring_now(scored, behind));
    let front = scoring_now(seq![s] + scored, seq![b] + behind);
    if scored.len() == 0 {
        assert(front.drop_last() =~= Seq::<bool>::empty());
        assert(scoring_now(scored, behind) =~= Seq::<bool>::empty());
    } else {
        let s0 = scored.drop_last();
        let b0 = behind.drop_last();
        lemma_newly_scored_counts_pipe_by_pipe(s0, b0, s, b);
        assert(front.drop_last() =~= scoring_now(seq![s] + s0, seq![b] + b0));
        assert(scoring_now(scored, behind).drop_last() =~= scoring_now(s0, b0));
        assert(seq![s] + scored =~= (seq![s] + s0).push(scored.last()));
    }
}

/// A second check of the same pipes scores nothing: a pipe scores once.
pub proof fn lemma_pipe_scores_once(scored: Seq<bool>, behind: Seq<bool>)
    requires
        scored.len() == behind.len(),
    ensures
        newly_scored(marked(scored, behind), behind) == 0,
{
    lemma_count_true_none(scoring_now(marked(scored, behind), behind));
}

/// Every draw lies in [0, 2^24), so a draw divided by 2^24 lies in [0, 1);
/// and a generator that does not start at 0 never reaches 0.
pub proof fn lemma_generator(x: u32)
    ensures
        draw(x) < 0x100_0000,
        x != 0 ==> next_rng(x) != 0,
{
    assert(x != 0 ==> next_rng(x) != 0) by (bit_vector);
    let y: u32 = next_rng(x);
    assert(y >> 8u32 < 0x100_0000u32) by (bit_vector);
}

/// The state before `y`, recovered by undoing the three shift-xors in reverse
/// order: a shift-xor by `k` bits is undone by xoring in every multiple of `k`
/// that is shifted by less than the word.
pub open spec fn prev_rng(y: u32) -> u32 {
    let b: u32 = y ^ (y << 5u32) ^ (y << 10u32) ^ (y << 15u32) ^ (y << 20u32) ^ (y << 25u32) ^ (
    y << 30u32);
    let a: u32 = b ^ (b >> 17u32);
    a ^ (a << 13u32) ^ (a << 26u32)
}

/// The generator's step is a bijection of the 32-bit states: `prev_rng`
/// undoes it and it undoes `prev_rng`. No two states step to the same state,
/// and every state has exactly one predecessor.
pub proof fn lemma_rng_step_is_invertible(x: u32)
    ensures
        prev_rng(next_rng(x)) == x,
        next_rng(prev_rng(x)) == x,
{
    let a: u32 = x ^ (x << 13u32);
    let b: u32 = a ^ (a >> 17u32);
    let c: u32 = b ^ (b << 5u32);
    assert(b == c ^ (c << 5u32) ^ (c << 10u32) ^ (c << 15u32) ^ (c << 20u32) ^ (c << 25u32) ^ (c
        << 30u32)) by (bit_vector)
        requires
            c == b ^ (b << 5u32),
    ;
    assert(a == b ^ (b >> 17u32)) by (bit_vector)
        requires
            b == a ^ (a >> 17u32),
    ;
    assert(x == a ^ (a << 13u32) ^ (a << 26u32)) by (bit_vector)
        requires
            a == x ^ (x << 13u32),
    ;
    let q: u32 = x ^ (x << 5u32) ^ (x << 10u32) ^ (x << 15u32) ^ (x << 20u32) ^ (x << 25u32) ^ (x
        << 30u32);
    let p: u32 = q ^ (q >> 17u32);
    let o: u32 = p ^ (p << 13u32) ^ (p << 26u32);
    assert(o ^ (o << 13u32) == p) by (bit_vector)
        requires
            o == p ^ (p << 13u32) ^ (p << 26u32),
    ;
    assert(p ^ (p >> 17u32) == q) by (bit_vector)
        requires
            p == q ^ (q >> 17u32),
    ;
    assert(q ^ (q << 5u32) == x) by (bit_vector)
        requires
            q == x ^ (x << 5u32) ^ (x << 10u32) ^ (x << 15u32) ^ (x << 20u32) ^ (x << 25u32) ^ (x
                << 30u32),
    ;
}

/// The step is linear over bits: stepping the xor of two states gives the xor
/// of their steps. Whether a bit of the next state is set depends on the
/// state's bits alone, with no case split on the state's value.
pub proof fn lemma_rng_step_is_linear(x: u32, y: u32)
    ensures
        next_rng(x ^ y) == next_rng(x) ^ next_rng(y),
{
    assert(next_rng(x ^ y) == next_rng(x) ^ next_rng(y)) by (bit_vector);
}

/// A draw is the top 24 bits of the state the step reaches: the new state lies
/// in [256 * draw, 256 * draw + 256).
pub proof fn lemma_draw_is_top_bits(x: u32)
    ensures
        draw(x) * 256 <= next_rng(x) < draw(x) * 256 + 256,
{
    let y: u32 = next_rng(x);
    assert((y >> 8u32) * 256 <= y && y < (y >> 8u32) * 256 + 256) by (bit_vector);
}

/// The xorshift generator that places the pipes' gaps. Its state is private:
/// it only moves by drawing.
pub struct Rng {
    x: u32,
}

impl Rng {
    /// The generator's current state.
    pub closed spec fn state(&self) -> u32 {
        self.x
    }

    /// A generator at the fixed seed.
    pub fn seeded() -> (r: Rng)
        ensures
            r.state() == RNG_SEED,
    {
        Rng { x: RNG_SEED }
    }

    /// Steps the state once and returns its top 24 bits.
    pub fn next(&mut self) -> (r: u32)
        ensures
            r == draw(old(self).state()),
            r < 0x100_0000,
            final(self).state() == next_rng(old(self).state()),
            prev_rng(final(self).state()) == old(self).state(),
            r * 256 <= final(self).state() < r * 256 + 256,
    {
        let mut x: u32 = self.x;
        x = x ^ (x << 13u32);
        x = x ^ (x >> 17u32);
        x = x ^ (x << 5u32);
        self.x = x;
        proof {
            lemma_generator(old(self).x);
            lemma_rng_step_is_invertible(old(self).x);
            lemma_draw_is_top_bits(old(self).x);
        }
        x >> 8u32
    }
}

/// The discrete part of a game: the phase of the run, the score, the best
/// score and the pipe generator.
pub struct Game {
    pub state: State,
    pub score: u32,
    pub best: u32,
    pub rng: Rng,
}

impl Game {
    /// The generator's current state.
    pub open spec fn rng_state(&self) -> u32 {
        self.rng.state()
    }

    /// A fresh game in [`State::Ready`], with `best` as the best score so far.
    pub fn new(best: u32) -> (g: Game)
        ensures
            g.state == State::Ready,
            g.score == 0,
            g.best == best,
            g.rng_state() == RNG_SEED,
    {
        Game { state: State::Ready, score: 0, best, rng: Rng::seeded() }
    }

    /// Draws the next 24-bit number of the xorshift sequence; divided by 2^24
    /// it is uniform-looking in [0, 1).
    pub fn rand(&mut self) -> (r: u32)
        ensures
            r == draw(old(self).rng_state()),
            r < 0x100_0000,
            final(self).rng_state() == next_rng(old(self).rng_state()),
            prev_rng(final(self).rng_state()) == old(self).rng_state(),
            r * 256 <= final(self).rng_state() < r * 256 + 256,
            final(self).state == old(self).state,
            final(self).score == old(self).score,
            final(self).best == old(self).best,
    {
        self.rng.next()
    }

    /// Back to the title screen for a new run: the score is cleared, the best
    /// score and the generator carry over.
    pub fn reset(&mut self)
        ensures
            final(self).state == State::Ready,
            final(self).score == 0,
            final(self).best == old(self).best,
            final(self).rng_state() == old(self).rng_state(),
    {
        self.state = State::Ready;
        self.score = 0;
    }

    /// A tap, click or flap key. On the title screen it starts the run with a
    /// flap; while playing it flaps; after a death it restarts the run once
    /// `lockout_over` (the restart lockout has elapsed), and does nothing before.
    pub fn flap(&mut self, lockout_over: bool) -> (f: Flap)
        ensures
            old(self).state == State::Ready ==> {
                &&& f == Flap::Impulse
                &&& final(self).state == State::Playing
                &&& final(self).score == old(self).score
                &&& final(self).best == old(self).best
                &&& final(self).rng_state() == old(self).rng_state()
            },
            old(self).state == State::Playing ==> f == Flap::Impulse && *final(self) == *old(
                self,
            ),
            old(self).state == State::Dead && lockout_over ==> {
                &&& f == Flap::Restart
                &&& final(self).state == State::Ready
                &&& final(self).score == 0
                &&& final(self).best == old(self).best
                &&& final(self).rng_state() == old(self).rng_state()
            },
            old(self).state == State::Dead && !lockout_over ==> f == Flap::Ignored && *final(self)
                == *old(self),
    {
        match self.state {
            State::Ready => {
                self.state = State::Playing;
                Flap::Impulse
            },
            State::Playing => Flap::Impulse,
            State::Dead => {
                if lockout_over {
                    self.reset();
                    Flap::Restart
                } else {
                    Flap::Ignored
                }
            },
        }
    }

    /// Scores the pipes that the bird has passed. `scored[i]` says whether
    /// pipe `i` has scored already and `behind[i]` whether its right edge is
    /// now left of the bird. Each passed pipe not scored yet is marked scored
    /// and adds one to the score.
    pub fn check_score(&mut self, scored: &mut Vec<bool>, behind: &Vec<bool>)
        requires
            old(scored).len() == behind.len(),
            old(self).score + newly_scored(old(scored)@, behind@) <= u32::MAX,
        ensures
            final(scored)@ == marked(old(scored)@, behind@),
            final(scored)@.len() == old(scored)@.len(),
            forall|i: int|
                0 <= i < behind@.len() ==> #[trigger] final(scored)@[i] == (old(scored)@[i]
                    || behind@[i]),
            final(self).score == old(self).score + newly_scored(old(scored)@, behind@),
            final(self).state == old(self).state,
            final(self).best == old(self).best,
            final(self).rng_state() == old(self).rng_state(),
    {
        let n: usize = scored.len();
        let ghost s0 = scored@;
        let ghost now = scoring_now(s0, behind@);
        let mut i: usize = 0;
        while i < n
            invariant
                0 <= i <= n,
                n == s0.len(),
                behind@.len() == n,
                scored@.len() == n,
                now == scoring_now(s0, behind@),
                forall|j: int|
                    0 <= j < n ==> #[trigger] scored@[j] == if j < i {
                        s0[j] || behind@[j]
                    } else {
                        s0[j]
                    },
                self.score == old(self).score + count_true(now.take(i as int)),
                old(self).score + count_true(now) <= u32::MAX,
                self.state == old(self).state,
                self.best == old(self).best,
                self.rng == old(self).rng,
            decreases n - i,
        {
            proof {
                lemma_count_true_step(now, i as int);
                lemma_count_true_prefix(now, i + 1);
            }
            let ghost prev = scored@;
            if !scored[i] && behind[i] {
                scored.set(i, true);
                self.score = self.score + 1;
            }
            assert(scored@[i as int] == (s0[i as int] || behind@[i as int]));
            assert forall|j: int| 0 <= j < n && j != i implies #[trigger] scored@[j] == prev[j] by {}
            i = i + 1;
        }
        assert(now.take(n as int) =~= now);
        assert(scored@ =~= marked(s0, behind@));
    }

    /// The run ends: the state becomes [`State::Dead`] and a score above the
    /// best becomes the new best. Returns whether it did, that is whether the
    /// best score has to be saved.
    pub fn die(&mut self) -> (new_best: bool)
        ensures
            final(self).state == State::Dead,
            new_best == (old(self).score > old(self).best),
            final(self).best == if old(self).score > old(self).best {
                old(self).score
            } else {
                old(self).best
            },
            final(self).best >= final(self).score,
            final(self).score == old(self).score,
            final(self).rng_state() == old(self).rng_state(),
    {
        self.state = State::Dead;
        if self.score > self.best {
            self.best = self.score;
            true
        } else {
            false
        }
    }
}

} // verus!
