//! Shared state of one paired game: per-side wager histories, per-side
//! remaining points, and the turn-comparison rule.

use vstd::prelude::*;
use crate::msg::{MAX_TURNS, TOTAL_POINTS};

verus! {

/// Total of a wager history.
pub open spec fn wager_sum(s: Seq<u32>) -> int
    decreases s.len(),
{
    if s.len() == 0 {
        0
    } else {
        wager_sum(s.drop_last()) + s.last()
    }
}

proof fn lemma_wager_sum_push(s: Seq<u32>, x: u32)
    ensures
        wager_sum(s.push(x)) == wager_sum(s) + x,
{
    assert(s.push(x).drop_last() =~= s);
}

/// The sign of `other - own`: what the side that wagered `own` is told.
pub open spec fn cmp_sign(other: u32, own: u32) -> i8 {
    if other < own {
        -1i8
    } else if other == own {
        0i8
    } else {
        1i8
    }
}

/// What one applied wager obliges the server to send.
#[derive(Debug, Clone, Copy, PartialEq, Eq, Structural)]
pub enum MoveEffect {
    /// The wager was invalid for its side: too many turns or too many
    /// points.  The offender gets `ProtocolError` and is closed.
    Rejected,
    /// The wager is recorded; the partner has not wagered this turn yet, so
    /// nothing is sent until it does.
    Accepted,
    /// The wager completed a turn: `TurnResult(first)` goes to side 0 and
    /// `TurnResult(second)` to side 1, in that order.
    Paired { first: i8, second: i8 },
}

/// Mutable state of one game between side 0 and side 1.
pub struct Game {
    left0: u32,
    left1: u32,
    guesses0: Vec<u32>,
    guesses1: Vec<u32>,
}

impl Game {
    /// The wagers a side has made so far, in turn order.
    pub closed spec fn guesses(self, side: int) -> Seq<u32> {
        if side == 0 {
            self.guesses0@
        } else {
            self.guesses1@
        }
    }

    /// The points a side still has to spend.
    pub closed spec fn left(self, side: int) -> u32 {
        if side == 0 {
            self.left0
        } else {
            self.left1
        }
    }

    /// The game invariant: each side's spent and remaining points add up to
    /// the game total, and no side exceeds the turn count.
    pub open spec fn wf(self) -> bool {
        &&& self.guesses(0).len() <= MAX_TURNS
        &&& self.guesses(1).len() <= MAX_TURNS
        &&& wager_sum(self.guesses(0)) + self.left(0) == TOTAL_POINTS
        &&& wager_sum(self.guesses(1)) + self.left(1) == TOTAL_POINTS
    }

    /// A side may wager `n` iff it has turns and points enough.
    pub open spec fn valid_move(self, side: int, n: u32) -> bool {
        self.guesses(side).len() < MAX_TURNS && n <= self.left(side)
    }

    /// The game is over iff both sides have wagered every turn.
    pub open spec fn spec_is_over(self) -> bool {
        self.guesses(0).len() == MAX_TURNS && self.guesses(1).len() == MAX_TURNS
    }

    pub fn new() -> (g: Game)
        ensures
            g.wf(),
            g.guesses(0) == Seq::<u32>::empty(),
            g.guesses(1) == Seq::<u32>::empty(),
            g.left(0) == TOTAL_POINTS,
            g.left(1) == TOTAL_POINTS,
    {
        Game {
            left0: TOTAL_POINTS,
            left1: TOTAL_POINTS,
            guesses0: Vec::new(),
            guesses1: Vec::new(),
        }
    }

    pub fn is_over(&self) -> (r: bool)
        ensures
            r == self.spec_is_over(),
    {
        self.guesses0.len() == MAX_TURNS && self.guesses1.len() == MAX_TURNS
    }

    /// Applies one wager by `side`.  A wager is rejected iff it is not a
    /// `valid_move`; an accepted wager is recorded and, once the partner's
    /// wager for the same turn is in, both sides' results are emitted, each
    /// the negation of the other.
    pub fn handle_move(&mut self, side: usize, n: u32) -> (e: MoveEffect)
        requires
            side < 2,
            old(self).wf(),
        ensures
            final(self).wf(),
            (e is Rejected <==> !old(self).valid_move(side as int, n)),
            (e is Rejected ==> *final(self) == *old(self)),
            (!(e is Rejected) ==> {
                &&& final(self).guesses(side as int) == old(self).guesses(side as int).push(n)
                &&& final(self).left(side as int) == old(self).left(side as int) - n
                &&& final(self).guesses(1 - side as int) == old(self).guesses(1 - side as int)
                &&& final(self).left(1 - side as int) == old(self).left(1 - side as int)
            }),
            (e is Paired <==> (old(self).valid_move(side as int, n) && old(self).guesses(
                1 - side as int,
            ).len() > old(self).guesses(side as int).len())),
            (e matches MoveEffect::Paired { first, second } ==> {
                let own_len = old(self).guesses(side as int).len() as int;
                let other = old(self).guesses(1 - side as int)[own_len];
                &&& (side == 0 ==> first == cmp_sign(other, n) && second == cmp_sign(n, other))
                &&& (side == 1 ==> second == cmp_sign(other, n) && first == cmp_sign(n, other))
                &&& first as int == -(second as int)
            }),
            ((!(e is Rejected) && old(self).guesses(side as int).len() <= old(self).guesses(
                1 - side as int,
            ).len() && old(self).guesses(1 - side as int).len() - old(self).guesses(
                side as int,
            ).len() <= 1) ==> -1 <= final(self).guesses(0).len() - final(self).guesses(1).len()
                <= 1),
    {
        let own_len = if side == 0 {
            self.guesses0.len()
        } else {
            self.guesses1.len()
        };
        let left = if side == 0 {
            self.left0
        } else {
            self.left1
        };
        if !(own_len < MAX_TURNS && n <= left) {
            return MoveEffect::Rejected;
        }
        if side == 0 {
            self.guesses0.push(n);
            self.left0 = self.left0 - n;
            proof {
                lemma_wager_sum_push(old(self).guesses0@, n);
            }
        } else {
            self.guesses1.push(n);
            self.left1 = self.left1 - n;
            proof {
                lemma_wager_sum_push(old(self).guesses1@, n);
            }
        }
        let other_len = if side == 0 {
            self.guesses1.len()
        } else {
            self.guesses0.len()
        };
        if other_len > own_len {
            let other = if side == 0 {
                self.guesses1[own_len]
            } else {
                self.guesses0[own_len]
            };
            let to_mover: i8 = if other < n {
                -1
            } else if other == n {
                0
            } else {
                1
            };
            let to_partner: i8 = if n < other {
                -1
            } else if n == other {
                0
            } else {
                1
            };
            if side == 0 {
                MoveEffect::Paired { first: to_mover, second: to_partner }
            } else {
                MoveEffect::Paired { first: to_partner, second: to_mover }
            }
        } else {
            MoveEffect::Accepted
        }
    }
}

} // verus!
