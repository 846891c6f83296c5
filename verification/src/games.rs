use vstd::prelude::*;

use crate::coms::Turn;
use crate::dealer::Dealer;
use crate::errors::HoldemError;
use crate::hand_eval::score_hand;
use crate::hand_eval::spec_score;
use crate::player::Blind;
use crate::player::BlindType;
use crate::player::HoldemPlayer;
use crate::player::Play;

verus! {

/// The sum of a sequence of integers.
pub open spec fn sum_int(s: Seq<int>) -> int
    decreases s.len(),
{
    if s.len() == 0 {
        0
    } else {
        sum_int(s.drop_last()) + s.last()
    }
}

/// Extending a prefix by one element adds that element to its sum.
proof fn lemma_sum_take_step(s: Seq<int>, k: int)
    requires
        0 <= k < s.len(),
    ensures
        sum_int(s.take(k + 1)) == sum_int(s.take(k)) + s[k],
{
    assert(s.take(k + 1).drop_last() =~= s.take(k));
    assert(s.take(k + 1).last() == s[k]);
}

/// A sequence of non-negative integers has a non-negative sum.
proof fn lemma_sum_nonneg(s: Seq<int>)
    requires
        forall|i: int| 0 <= i < s.len() ==> #[trigger] s[i] >= 0,
    ensures
        sum_int(s) >= 0,
    decreases s.len(),
{
    if s.len() > 0 {
        lemma_sum_nonneg(s.drop_last());
    }
}

/// With non-negative elements, a prefix sum never exceeds the full sum.
proof fn lemma_sum_prefix_le(s: Seq<int>, k: int)
    requires
        0 <= k <= s.len(),
        forall|i: int| 0 <= i < s.len() ==> #[trigger] s[i] >= 0,
    ensures
        sum_int(s.take(k)) <= sum_int(s),
    decreases s.len() - k,
{
    if k == s.len() {
        assert(s.take(k) =~= s);
    } else {
        lemma_sum_take_step(s, k);
        lemma_sum_prefix_le(s, k + 1);
    }
}

/// Replacing one element changes the sum by the difference.
proof fn lemma_sum_update(s: Seq<int>, i: int, v: int)
    requires
        0 <= i < s.len(),
    ensures
        sum_int(s.update(i, v)) == sum_int(s) - s[i] + v,
    decreases s.len(),
{
    if i == s.len() - 1 {
        assert(s.update(i, v).drop_last() =~= s.drop_last());
        assert(s.update(i, v).last() == v);
    } else {
        assert(s.update(i, v).drop_last() =~= s.drop_last().update(i, v));
        assert(s.update(i, v).last() == s.last());
        lemma_sum_update(s.drop_last(), i, v);
    }
}

/// With non-negative elements, each element is at most the sum.
proof fn lemma_sum_elem_le(s: Seq<int>, i: int)
    requires
        0 <= i < s.len(),
        forall|j: int| 0 <= j < s.len() ==> #[trigger] s[j] >= 0,
    ensures
        s[i] <= sum_int(s),
    decreases s.len(),
{
    if i == s.len() - 1 {
        lemma_sum_nonneg(s.drop_last());
    } else {
        lemma_sum_elem_le(s.drop_last(), i);
    }
}

/// A sequence of zeros sums to zero.
proof fn lemma_sum_zero(s: Seq<int>)
    requires
        forall|i: int| 0 <= i < s.len() ==> #[trigger] s[i] == 0,
    ensures
        sum_int(s) == 0,
    decreases s.len(),
{
    if s.len() > 0 {
        lemma_sum_zero(s.drop_last());
    }
}

/// A sequence holding `c` everywhere sums to its length times `c`.
proof fn lemma_sum_const(s: Seq<int>, c: int)
    requires
        forall|i: int| 0 <= i < s.len() ==> #[trigger] s[i] == c,
    ensures
        sum_int(s) == s.len() * c,
    decreases s.len(),
{
    if s.len() > 0 {
        lemma_sum_const(s.drop_last(), c);
        assert((s.len() - 1) * c + c == s.len() * c) by (nonlinear_arith);
    }
}

/// A mathematical snapshot of one betting street.
#[verifier::ext_equal]
pub ghost struct RoundModel {
    /// Per-seat contribution this street, indexed by seat.
    pub bets: Seq<int>,
    /// Pot carried over from the streets already settled.
    pub carried: int,
    /// The active seats, in ascending seat order. A fold removes a seat
    /// and nothing ever puts one back within the hand.
    pub active: Seq<int>,
    /// The cursor into `active`: whose turn it is.
    pub cursor: int,
    /// The player count the first full orbit is measured against.
    pub orbit_target: int,
    /// How many turns have been taken this street.
    pub plays: int,
    /// Whether the first full orbit has been completed.
    pub orbit_done: bool,
}

impl RoundModel {
    /// How many seats the round was built for.
    pub open spec fn seats(self) -> int {
        self.bets.len() as int
    }

    /// Everything ever paid in: the carried pot plus this street's bets.
    pub open spec fn pot(self) -> int {
        self.carried + sum_int(self.bets)
    }

    /// The seat whose turn it is.
    pub open spec fn current_seat(self) -> int {
        self.active[self.cursor]
    }

    /// The state invariant: at least one active seat, active seats
    /// strictly ascending and in range, the cursor in range, non-negative
    /// amounts, a pot that fits the chip counter, an orbit flag that
    /// tracks whether the turn counter has reached its target, and an
    /// orbit target within reach of the seats still to act (a bet ticks
    /// the counter, and a fold pays for its seat by shrinking the set).
    pub open spec fn wf(self) -> bool {
        &&& 1 <= self.active.len() <= self.bets.len()
        &&& forall|i: int|
            0 <= i < self.active.len() ==> 0 <= #[trigger] self.active[i] < self.bets.len()
        &&& forall|i: int, j: int|
            0 <= i < j < self.active.len() ==> #[trigger] self.active[i] < #[trigger] self.active[j]
        &&& 0 <= self.cursor < self.active.len()
        &&& forall|i: int| 0 <= i < self.bets.len() ==> #[trigger] self.bets[i] >= 0
        &&& self.carried >= 0
        &&& self.pot() <= u32::MAX
        &&& 1 <= self.orbit_target
        &&& 0 <= self.plays
        &&& (self.orbit_done <==> self.plays >= self.orbit_target)
        &&& self.plays + self.active.len() >= self.orbit_target
    }

    /// All active seats have matched contributions this street.
    pub open spec fn all_bets_equal(self) -> bool {
        forall|i: int|
            0 <= i < self.active.len() ==> self.bets[#[trigger] self.active[i]]
                == self.bets[self.active[0]]
    }

    /// The street is over: a single survivor, or a completed first orbit
    /// with every active contribution equal.
    pub open spec fn ended(self) -> bool {
        self.active.len() == 1 || (self.orbit_done && self.all_bets_equal())
    }

    /// A bet: the current seat pays `v` more, the cursor advances to the
    /// next active seat (wrapping), the turn counter ticks, and the orbit
    /// flag latches once the counter reaches its target.
    pub open spec fn step_bet(self, v: int) -> RoundModel {
        RoundModel {
            bets: self.bets.update(self.current_seat(), self.bets[self.current_seat()] + v),
            cursor: if self.cursor + 1 < self.active.len() {
                self.cursor + 1
            } else {
                0
            },
            plays: self.plays + 1,
            orbit_done: self.orbit_done || self.plays + 1 >= self.orbit_target,
            ..self
        }
    }

    /// A fold: the current seat leaves the active set; the removal itself
    /// hands the cursor to the next seat (wrapping off the end), and the
    /// turn counter ticks.
    pub open spec fn step_fold(self) -> RoundModel {
        let act = self.active.remove(self.cursor);
        RoundModel {
            active: act,
            cursor: if self.cursor < act.len() {
                self.cursor
            } else {
                0
            },
            plays: self.plays + 1,
            orbit_done: self.orbit_done || self.plays + 1 >= self.orbit_target,
            ..self
        }
    }

    /// A street boundary: this street's bets roll into the carried pot,
    /// the contribution map starts fresh, the cursor rewinds, and the
    /// orbit is re-based on the seats still active.
    pub open spec fn step_reset(self) -> RoundModel {
        RoundModel {
            bets: Seq::new(self.bets.len(), |i: int| 0),
            carried: self.pot(),
            cursor: 0,
            orbit_target: self.active.len() as int,
            plays: 0,
            orbit_done: false,
            ..self
        }
    }
}

/// The largest contribution among the first `k` active seats.
pub open spec fn max_abet_upto(m: RoundModel, k: int) -> int
    decreases k,
{
    if k <= 1 {
        m.bets[m.active[0]]
    } else {
        let rest = max_abet_upto(m, k - 1);
        if m.bets[m.active[k - 1]] > rest {
            m.bets[m.active[k - 1]]
        } else {
            rest
        }
    }
}

/// The largest contribution among all active seats.
pub open spec fn max_active_bet(m: RoundModel) -> int {
    max_abet_upto(m, m.active.len() as int)
}

/// The running maximum dominates every active contribution it has seen.
proof fn lemma_max_abet_ge(m: RoundModel, k: int, j: int)
    requires
        0 <= j < k,
    ensures
        max_abet_upto(m, k) >= m.bets[m.active[j]],
    decreases k,
{
    if k > 1 && j < k - 1 {
        lemma_max_abet_ge(m, k - 1, j);
    }
}

/// One betting street. The state tracks the active seats, each seat's
/// contribution this street, the pot carried from earlier streets, a
/// rotating cursor, and the first-orbit bookkeeping that decides when the
/// street can end.
#[derive(Debug)]
pub struct Round {
    bets: Vec<u32>,
    carried: u32,
    current_player_idx: usize,
    n_players: usize,
    initial_bets_complete: bool,
    n_plays: usize,
    current_players: Vec<usize>,
}

impl Round {
    /// The mathematical state of this round.
    pub closed spec fn model(self) -> RoundModel {
        RoundModel {
            bets: self.bets@.map_values(|b: u32| b as int),
            carried: self.carried as int,
            active: self.current_players@.map_values(|p: usize| p as int),
            cursor: self.current_player_idx as int,
            orbit_target: self.n_players as int,
            plays: self.n_plays as int,
            orbit_done: self.initial_bets_complete,
        }
    }

    /// The round is well formed when its model is.
    pub open spec fn wf(self) -> bool {
        self.model().wf()
    }

    /// Builds a round for `n_players` seats, all active, optionally
    /// seeded with pre-existing contributions (antes and blinds). The
    /// configuration is rejected when there are fewer than two players,
    /// when the seed vector does not cover the seats exactly, or when the
    /// seeded pot would not fit the chip counter.
    pub fn new(n_players: usize, initial_bets: Option<Vec<u32>>) -> (r: Result<Round, HoldemError>)
        ensures
            r is Ok <==> (n_players >= 2 && match initial_bets {
                Some(b) => b@.len() == n_players && sum_int(b@.map_values(|x: u32| x as int))
                    <= u32::MAX,
                None => true,
            }),
            r is Err ==> r == Err::<Round, HoldemError>(HoldemError::ConfigurationError),
            r matches Ok(round) ==> {
                &&& round.wf()
                &&& round.model().seats() == n_players
                &&& round.model().active == Seq::new(n_players as nat, |i: int| i)
                &&& round.model().cursor == 0
                &&& round.model().carried == 0
                &&& round.model().plays == 0
                &&& round.model().orbit_target == n_players
                &&& !round.model().orbit_done
                &&& round.model().bets == (match initial_bets {
                    Some(b) => b@.map_values(|x: u32| x as int),
                    None => Seq::new(n_players as nat, |i: int| 0int),
                })
            },
    {
        if n_players < 2 {
            return Err(HoldemError::ConfigurationError);
        }
        let mut current_players: Vec<usize> = Vec::new();
        let mut i: usize = 0;
        while i < n_players
            invariant
                i <= n_players,
                current_players@.len() == i,
                forall|j: int| 0 <= j < i ==> #[trigger] current_players@[j] == j,
            decreases n_players - i,
        {
            current_players.push(i);
            i = i + 1;
        }
        let bets: Vec<u32>;
        if initial_bets.is_some() {
            let b = initial_bets.unwrap();
            {
                if b.len() != n_players {
                    return Err(HoldemError::ConfigurationError);
                }
                let ghost bs = b@.map_values(|x: u32| x as int);
                let mut acc: u64 = 0;
                let mut k: usize = 0;
                while k < b.len()
                    invariant
                        k <= b@.len(),
                        initial_bets == Some(b),
                        b@.len() == n_players,
                        n_players >= 2,
                        bs == b@.map_values(|x: u32| x as int),
                        bs.len() == b@.len(),
                        acc <= u32::MAX,
                        acc == sum_int(bs.take(k as int)),
                    decreases b@.len() - k,
                {
                    proof {
                        lemma_sum_take_step(bs, k as int);
                        assert(bs[k as int] == b@[k as int] as int);
                    }
                    acc = acc + (b[k] as u64);
                    if acc > (u32::MAX as u64) {
                        proof {
                            assert(acc == sum_int(bs.take(k as int + 1)));
                            assert forall|i: int| 0 <= i < bs.len() implies #[trigger] bs[i]
                                >= 0 by {
                                assert(bs[i] == b@[i] as int);
                            }
                            lemma_sum_prefix_le(bs, k as int + 1);
                            assert(sum_int(bs) > u32::MAX);
                            assert(b@.map_values(|x: u32| x as int) =~= bs);
                        }
                        return Err(HoldemError::ConfigurationError);
                    }
                    k = k + 1;
                }
                proof {
                    assert(bs.take(bs.len() as int) =~= bs);
                }
                bets = b;
            }
        } else {
            {
                let mut z: Vec<u32> = Vec::new();
                while z.len() < n_players
                    invariant
                        z@.len() <= n_players,
                        forall|j: int| 0 <= j < z@.len() ==> #[trigger] z@[j] == 0,
                    decreases n_players - z@.len(),
                {
                    z.push(0);
                }
                proof {
                    lemma_sum_zero(z@.map_values(|x: u32| x as int));
                    assert(z@.map_values(|x: u32| x as int) =~= Seq::new(
                        n_players as nat,
                        |j: int| 0int,
                    ));
                }
                bets = z;
            }
        }
        let round = Round {
            bets,
            carried: 0,
            current_player_idx: 0,
            n_players,
            initial_bets_complete: false,
            n_plays: 0,
            current_players,
        };
        proof {
            assert(round.model().active =~= Seq::new(n_players as nat, |i: int| i));
            lemma_sum_nonneg(round.model().bets);
        }
        Ok(round)
    }

    /// The seat whose turn it is.
    pub fn next_player_idx(&self) -> (idx: usize)
        requires
            self.wf(),
        ensures
            idx == self.model().current_seat(),
    {
        self.current_players[self.current_player_idx]
    }

    /// The active seats, in seat order.
    pub fn remaining_players(&self) -> (v: Vec<usize>)
        requires
            self.wf(),
        ensures
            v@.map_values(|p: usize| p as int) == self.model().active,
    {
        let mut v: Vec<usize> = Vec::new();
        let mut k: usize = 0;
        while k < self.current_players.len()
            invariant
                k <= self.current_players@.len(),
                v@ == self.current_players@.take(k as int),
            decreases self.current_players@.len() - k,
        {
            v.push(self.current_players[k]);
            proof {
                assert(v@ =~= self.current_players@.take(k as int + 1));
            }
            k = k + 1;
        }
        proof {
            assert(self.current_players@.take(self.current_players@.len() as int)
                =~= self.current_players@);
        }
        v
    }

    /// The amount the current seat must add to call: the gap between its
    /// contribution and the largest active contribution this street.
    pub fn min_next_bet(&self) -> (m: u32)
        requires
            self.wf(),
        ensures
            m == max_active_bet(self.model()) - self.model().bets[self.model().current_seat()],
    {
        proof {
            assert(self.model().active[0] == self.current_players@[0] as int);
            assert(self.model().bets.len() == self.bets@.len());
        }
        let mut best: u32 = self.bets[self.current_players[0]];
        let mut k: usize = 1;
        while k < self.current_players.len()
            invariant
                self.wf(),
                1 <= k <= self.current_players@.len(),
                best == max_abet_upto(self.model(), k as int),
            decreases self.current_players@.len() - k,
        {
            proof {
                assert(self.model().active[k as int] == self.current_players@[k as int] as int);
                assert(self.model().bets.len() == self.bets@.len());
                assert(self.model().bets[self.current_players@[k as int] as int]
                    == self.bets@[self.current_players@[k as int] as int] as int);
            }
            let b = self.bets[self.current_players[k]];
            if b > best {
                best = b;
            }
            k = k + 1;
        }
        proof {
            lemma_max_abet_ge(
                self.model(),
                self.model().active.len() as int,
                self.model().cursor,
            );
        }
        best - self.bets[self.current_players[self.current_player_idx]]
    }

    /// Everything paid in so far this hand: the carried pot plus this
    /// street's contributions.
    pub fn pot_total(&self) -> (p: u32)
        requires
            self.wf(),
        ensures
            p == self.model().pot(),
    {
        let mut acc: u32 = self.carried;
        let mut k: usize = 0;
        while k < self.bets.len()
            invariant
                self.wf(),
                k <= self.bets@.len(),
                acc == self.model().carried + sum_int(self.model().bets.take(k as int)),
            decreases self.bets@.len() - k,
        {
            proof {
                lemma_sum_take_step(self.model().bets, k as int);
                lemma_sum_prefix_le(self.model().bets, k as int + 1);
            }
            acc = acc + self.bets[k];
            k = k + 1;
        }
        proof {
            assert(self.model().bets.take(self.model().bets.len() as int) =~= self.model().bets);
        }
        acc
    }

    /// Whether the street is over: a single survivor, or a completed
    /// first orbit with all active contributions equal.
    pub fn round_ended(&self) -> (e: bool)
        requires
            self.wf(),
        ensures
            e == self.model().ended(),
    {
        if self.current_players.len() == 1 {
            return true;
        }
        if !self.initial_bets_complete {
            return false;
        }
        proof {
            assert(self.model().active[0] == self.current_players@[0] as int);
            assert(self.model().bets.len() == self.bets@.len());
        }
        let first_bet = self.bets[self.current_players[0]];
        let mut k: usize = 1;
        while k < self.current_players.len()
            invariant
                self.wf(),
                1 <= k <= self.current_players@.len(),
                first_bet == self.model().bets[self.model().active[0]],
                forall|j: int|
                    0 <= j < k ==> self.model().bets[#[trigger] self.model().active[j]]
                        == self.model().bets[self.model().active[0]],
            decreases self.current_players@.len() - k,
        {
            proof {
                assert(self.model().active[k as int] == self.current_players@[k as int] as int);
                assert(self.model().bets.len() == self.bets@.len());
                assert(self.model().bets[self.current_players@[k as int] as int]
                    == self.bets@[self.current_players@[k as int] as int] as int);
            }
            if self.bets[self.current_players[k]] != first_bet {
                return false;
            }
            k = k + 1;
        }
        true
    }

    /// The lone survivor's seat, when exactly one seat is still active.
    pub fn one_remaining_player(&self) -> (r: Option<usize>)
        requires
            self.wf(),
        ensures
            match r {
                Some(p) => self.model().active.len() == 1 && p == self.model().active[0],
                None => self.model().active.len() != 1,
            },
    {
        if self.current_players.len() == 1 {
            Some(self.current_players[0])
        } else {
            None
        }
    }

    /// A bet: pays `val` for the current seat and passes the turn.
    fn handle_bet(&mut self, val: u32)
        requires
            old(self).wf(),
            old(self).model().plays < usize::MAX,
            old(self).model().pot() + val <= u32::MAX,
        ensures
            final(self).wf(),
            final(self).model() == old(self).model().step_bet(val as int),
    {
        proof {
            assert(self.model().active[self.model().cursor] == self.current_players@[
                self.current_player_idx as int] as int);
            assert(self.model().bets.len() == self.bets@.len());
            lemma_sum_elem_le(self.model().bets, self.model().current_seat());
        }
        let player_idx: usize = self.current_players[self.current_player_idx];
        let cur: u32 = self.bets[player_idx];
        self.bets.set(player_idx, cur + val);
        self.n_plays = self.n_plays + 1;
        if self.n_plays >= self.n_players {
            self.initial_bets_complete = true;
        }
        if self.current_player_idx >= self.current_players.len() - 1 {
            self.current_player_idx = 0;
        } else {
            self.current_player_idx = self.current_player_idx + 1;
        }
        proof {
            let m0 = old(self).model();
            assert(self.model().bets =~= m0.bets.update(
                m0.current_seat(),
                m0.bets[m0.current_seat()] + val,
            ));
            assert(self.model() =~= m0.step_bet(val as int));
            lemma_sum_update(m0.bets, m0.current_seat(), m0.bets[m0.current_seat()] + val);
        }
    }

    /// A fold: removes the current seat; the removal hands the turn to
    /// the next seat, wrapping off the end.
    fn handle_fold(&mut self)
        requires
            old(self).wf(),
            old(self).model().plays < usize::MAX,
            old(self).model().active.len() >= 2,
        ensures
            final(self).wf(),
            final(self).model() == old(self).model().step_fold(),
    {
        let _removed: usize = self.current_players.remove(self.current_player_idx);
        self.n_plays = self.n_plays + 1;
        if self.n_plays >= self.n_players {
            self.initial_bets_complete = true;
        }
        if self.current_player_idx >= self.current_players.len() {
            self.current_player_idx = 0;
        }
        proof {
            let m0 = old(self).model();
            assert(self.model().active =~= m0.active.remove(m0.cursor));
            assert(self.model() =~= m0.step_fold());
        }
    }

    /// Feeds one decision into the round and reports whether the street
    /// goes on. A fold needs at least two active seats (with one the
    /// street is already over and nobody may act); a bet must keep the
    /// pot within the chip counter.
    pub fn next_play(&mut self, play: Play) -> (more: bool)
        requires
            old(self).wf(),
            old(self).model().plays < usize::MAX,
            play == Play::Fold ==> old(self).model().active.len() >= 2,
            play matches Play::Bet(v) ==> old(self).model().pot() + v <= u32::MAX,
        ensures
            final(self).wf(),
            final(self).model() == (match play {
                Play::Bet(v) => old(self).model().step_bet(v as int),
                Play::Fold => old(self).model().step_fold(),
            }),
            more == !final(self).model().ended(),
    {
        match play {
            Play::Fold => self.handle_fold(),
            Play::Bet(val) => self.handle_bet(val),
        }
        !self.round_ended()
    }

    /// A street boundary: rolls this street's bets into the carried pot,
    /// starts a fresh contribution map, rewinds the cursor, and re-bases
    /// the orbit on the seats still active.
    pub fn reset_round(&mut self)
        requires
            old(self).wf(),
        ensures
            final(self).wf(),
            final(self).model() == old(self).model().step_reset(),
    {
        let total: u32 = self.pot_total();
        self.carried = total;
        let n = self.bets.len();
        let mut z: Vec<u32> = Vec::new();
        while z.len() < n
            invariant
                z@.len() <= n,
                forall|j: int| 0 <= j < z@.len() ==> #[trigger] z@[j] == 0,
            decreases n - z@.len(),
        {
            z.push(0);
        }
        self.bets = z;
        self.n_players = self.current_players.len();
        self.current_player_idx = 0;
        self.n_plays = 0;
        self.initial_bets_complete = false;
        proof {
            let m0 = old(self).model();
            lemma_sum_zero(self.model().bets);
            assert(self.model().bets =~= Seq::new(m0.bets.len(), |i: int| 0int));
            assert(self.model() =~= m0.step_reset());
        }
    }
}

/// Pot conservation across the state machine: a bet adds exactly its
/// amount to the pot, while a fold and a street reset leave it unchanged.
/// At every point the pot equals the carried amount plus the sum of all
/// recorded contributions of the street, by definition of `pot`.
pub proof fn lemma_pot_conservation(m: RoundModel, v: int)
    requires
        m.wf(),
        v >= 0,
    ensures
        m.step_bet(v).pot() == m.pot() + v,
        m.step_fold().pot() == m.pot(),
        m.step_reset().pot() == m.pot(),
{
    lemma_sum_update(m.bets, m.current_seat(), m.bets[m.current_seat()] + v);
    lemma_sum_zero(m.step_reset().bets);
}

/// Fold monotonicity: a bet leaves the active set untouched; a fold
/// shrinks it by exactly the current seat, and no step ever adds a seat
/// back.
pub proof fn lemma_fold_monotonic(m: RoundModel, v: int)
    requires
        m.wf(),
    ensures
        m.step_bet(v).active == m.active,
        m.step_fold().active.len() == m.active.len() - 1,
        forall|p: int| m.step_fold().active.contains(p) ==> m.active.contains(p),
        !m.step_fold().active.contains(m.current_seat()),
{
    let act = m.active.remove(m.cursor);
    assert forall|p: int| act.contains(p) implies m.active.contains(p) by {
        let j = choose|j: int| 0 <= j < act.len() && act[j] == p;
        if j < m.cursor {
            assert(m.active[j] == p);
        } else {
            assert(m.active[j + 1] == p);
        }
    }
    if act.contains(m.current_seat()) {
        let j = choose|j: int| 0 <= j < act.len() && act[j] == m.active[m.cursor];
        if j < m.cursor {
            assert(m.active[j] == m.active[m.cursor]);
            assert(false);
        } else {
            assert(m.active[j + 1] == m.active[m.cursor]);
            assert(false);
        }
    }
}

/// The state after `k` checks (bets of zero) in a row.
pub open spec fn iter_checks(m: RoundModel, k: nat) -> RoundModel
    decreases k,
{
    if k == 0 {
        m
    } else {
        iter_checks(m, (k - 1) as nat).step_bet(0)
    }
}

/// A check preserves the invariant, the active seats, and the matched
/// contributions, and ticks the turn counter.
proof fn lemma_step_check(m: RoundModel)
    requires
        m.wf(),
        m.all_bets_equal(),
    ensures
        m.step_bet(0).wf(),
        m.step_bet(0).all_bets_equal(),
        m.step_bet(0).plays == m.plays + 1,
        m.step_bet(0).active == m.active,
        m.step_bet(0).orbit_target == m.orbit_target,
{
    assert(m.bets.update(m.current_seat(), m.bets[m.current_seat()] + 0) =~= m.bets);
}

/// So do `k` checks in a row.
proof fn lemma_checks_preserve(m: RoundModel, k: nat)
    requires
        m.wf(),
        m.all_bets_equal(),
    ensures
        iter_checks(m, k).wf(),
        iter_checks(m, k).all_bets_equal(),
        iter_checks(m, k).plays == m.plays + k,
        iter_checks(m, k).active == m.active,
        iter_checks(m, k).orbit_target == m.orbit_target,
    decreases k,
{
    if k > 0 {
        lemma_checks_preserve(m, (k - 1) as nat);
        lemma_step_check(iter_checks(m, (k - 1) as nat));
    }
}

/// Termination of a betting street. With all active contributions equal
/// and no further folds, the street is over after at most as many checks
/// as there are active seats. And a street with exactly one active seat
/// is over immediately, before anyone acts.
pub proof fn lemma_round_termination(m: RoundModel, k: nat)
    requires
        m.wf(),
        m.all_bets_equal(),
        k >= m.active.len(),
    ensures
        iter_checks(m, k).ended(),
        m.active.len() == 1 ==> m.ended(),
{
    lemma_checks_preserve(m, k);
}

/// The payout vector over `n` seats: one share to each winning seat,
/// nothing to the rest.
pub open spec fn payout_seq(winners: Seq<int>, share: int, n: int) -> Seq<int> {
    Seq::new(
        n as nat,
        |i: int|
            if winners.contains(i) {
                share
            } else {
                0
            },
    )
}

/// Payout conservation: handing one share to each distinct winning seat
/// pays out exactly the share times the number of winners. With the share
/// set to the pot divided by that number, the payouts sum back to the
/// pot whenever it divides evenly.
pub proof fn lemma_payout_conservation(winners: Seq<int>, share: int, n: int)
    requires
        winners.no_duplicates(),
        forall|k: int| 0 <= k < winners.len() ==> 0 <= #[trigger] winners[k] < n,
        n >= 0,
    ensures
        sum_int(payout_seq(winners, share, n)) == share * winners.len(),
    decreases winners.len(),
{
    if winners.len() == 0 {
        assert forall|i: int| 0 <= i < n implies #[trigger] payout_seq(winners, share, n)[i]
            == 0 by {
            assert(!winners.contains(i));
        }
        lemma_sum_zero(payout_seq(winners, share, n));
    } else {
        let w = winners.last();
        let rest = winners.drop_last();
        assert forall|a: int, b: int| 0 <= a < b < rest.len() implies rest[a] != rest[b] by {
            assert(winners[a] == rest[a] && winners[b] == rest[b]);
        }
        assert forall|k: int| 0 <= k < rest.len() implies 0 <= #[trigger] rest[k] < n by {
            assert(winners[k] == rest[k]);
        }
        lemma_payout_conservation(rest, share, n);
        assert(!rest.contains(w)) by {
            if rest.contains(w) {
                let j = choose|j: int| 0 <= j < rest.len() && rest[j] == w;
                assert(winners[j] == winners[winners.len() - 1]);
                assert(false);
            }
        }
        assert(payout_seq(winners, share, n) =~= payout_seq(rest, share, n).update(w, share)) by {
            assert forall|i: int| 0 <= i < n && i != w implies (winners.contains(i) <==> rest.contains(
                i,
            )) by {
                if winners.contains(i) {
                    let j = choose|j: int| 0 <= j < winners.len() && winners[j] == i;
                    assert(j < winners.len() - 1);
                    assert(rest[j] == i);
                }
                if rest.contains(i) {
                    let j = choose|j: int| 0 <= j < rest.len() && rest[j] == i;
                    assert(winners[j] == i);
                }
            }
            assert(winners.contains(w)) by {
                assert(winners[winners.len() - 1] == w);
            }
        }
        lemma_sum_update(payout_seq(rest, share, n), w, share);
        assert(share * winners.len() == share * rest.len() + share) by (nonlinear_arith)
            requires
                winners.len() == rest.len() + 1,
        ;
    }
}

/// When the pot divides evenly among the distinct winning seats, the
/// payouts sum back to exactly the pot.
pub proof fn lemma_showdown_pays_out_the_pot(winners: Seq<int>, pot: int, n: int)
    requires
        winners.no_duplicates(),
        forall|k: int| 0 <= k < winners.len() ==> 0 <= #[trigger] winners[k] < n,
        winners.len() >= 1,
        pot >= 0,
        n >= 0,
        pot % (winners.len() as int) == 0,
    ensures
        sum_int(payout_seq(winners, pot / (winners.len() as int), n)) == pot,
{
    let len = winners.len() as int;
    lemma_payout_conservation(winners, pot / len, n);
    vstd::arithmetic::div_mod::lemma_fundamental_div_mod(pot, len);
}

/// Whether a seat list mentions a seat.
fn contains_idx(v: &Vec<usize>, x: usize) -> (b: bool)
    ensures
        b == v@.contains(x),
{
    let mut k: usize = 0;
    while k < v.len()
        invariant
            k <= v@.len(),
            forall|j: int| 0 <= j < k ==> #[trigger] v@[j] != x,
        decreases v@.len() - k,
    {
        if v[k] == x {
            return true;
        }
        k = k + 1;
    }
    false
}

/// Settles the hand: each winning seat is paid an even share of the pot
/// and every participant is told the hand is over. The settlement is
/// refused when there is no winner to pay or the pot does not divide
/// evenly among the winners.
pub fn end_hand<T: HoldemPlayer>(
    round: &Round,
    players: &mut Vec<T>,
    winning_players: &Vec<usize>,
) -> (r: Result<(), HoldemError>)
    requires
        round.wf(),
        forall|k: int|
            0 <= k < winning_players@.len() ==> #[trigger] winning_players@[k] < old(
                players,
            ).len(),
    ensures
        final(players).len() == old(players).len(),
        r is Ok <==> (winning_players@.len() >= 1 && round.model().pot() % (
        winning_players@.len() as int) == 0),
        r is Err ==> r == Err::<(), HoldemError>(HoldemError::InvariantViolation)
            && *final(players) == *old(players),
{
    let n_winners: usize = winning_players.len();
    if n_winners == 0 {
        return Err(HoldemError::InvariantViolation);
    }
    let pot: u32 = round.pot_total();
    let pot64: u64 = pot as u64;
    let nw64: u64 = n_winners as u64;
    if pot64 % nw64 != 0 {
        return Err(HoldemError::InvariantViolation);
    }
    proof {
        vstd::arithmetic::div_mod::lemma_div_nonincreasing(pot64 as int, nw64 as int);
    }
    let winnings: u32 = (pot64 / nw64) as u32;
    let mut i: usize = 0;
    while i < players.len()
        invariant
            i <= players@.len(),
            players@.len() == old(players)@.len(),
        decreases players@.len() - i,
    {
        let is_winner = contains_idx(winning_players, i);
        if is_winner {
            players[i].end_round(Some(winnings));
        } else {
            players[i].end_round(None);
        }
        i = i + 1;
    }
    Ok(())
}

/// Drives one betting street to completion: while the street is open, it
/// asks the seat on turn for a decision and feeds it into the round; when
/// the street closes it re-bases the round for the next one. The street
/// is aborted when a decision provider fails, when a bet would overflow
/// the chip counter, or - defensively - when the hard cap of one thousand
/// actions is reached. Whatever happens, seats only ever leave the active
/// set; none comes back.
pub fn play_holdem_round<T: HoldemPlayer>(
    players: &mut Vec<T>,
    round: &mut Round,
    shared_cards: &Vec<u8>,
    turn: &Turn,
) -> (r: Result<(), HoldemError>)
    requires
        old(round).wf(),
        old(round).model().plays + 1000 <= usize::MAX,
        old(round).model().seats() <= old(players).len(),
    ensures
        final(players).len() == old(players).len(),
        final(round).wf(),
        final(round).model().seats() == old(round).model().seats(),
        forall|p: int|
            final(round).model().active.contains(p) ==> old(round).model().active.contains(p),
        r is Ok ==> {
            &&& final(round).model().plays == 0
            &&& final(round).model().cursor == 0
            &&& !final(round).model().orbit_done
            &&& final(round).model().orbit_target == final(round).model().active.len()
            &&& forall|i: int|
                0 <= i < final(round).model().seats() ==> final(round).model().bets[i] == 0
        },
        old(round).model().ended() ==> r is Ok,
        r is Err ==> final(round).model().plays <= old(round).model().plays + 999,
{
    let max_plays: usize = 1000;
    let mut count: usize = 1;
    while count < max_plays
        invariant
            max_plays == 1000,
            1 <= count <= max_plays,
            players@.len() == old(players)@.len(),
            round.wf(),
            round.model().seats() == old(round).model().seats(),
            round.model().seats() <= players@.len(),
            round.model().plays <= old(round).model().plays + count - 1,
            old(round).model().plays + 1000 <= usize::MAX,
            forall|p: int|
                round.model().active.contains(p) ==> old(round).model().active.contains(p),
            count == 1 ==> *round == *old(round),
            count > 1 ==> !old(round).model().ended(),
        decreases max_plays - count,
    {
        if round.round_ended() {
            round.reset_round();
            return Ok(());
        }
        let min_bet = round.min_next_bet();
        let player_idx = round.next_player_idx();
        proof {
            assert(round.model().active.contains(round.model().current_seat()));
        }
        let pot = round.pot_total();
        let actives = round.remaining_players();
        let play_r = players[player_idx].play(
            &actives,
            player_idx,
            pot,
            min_bet,
            shared_cards,
            turn,
        );
        let play = match play_r {
            Ok(p) => p,
            Err(e) => { return Err(e) },
        };
        let ghost before = round.model();
        match play {
            Play::Fold => {
                let _more: bool = round.next_play(Play::Fold);
                proof {
                    lemma_fold_monotonic(before, 0);
                }
            },
            Play::Bet(val) => {
                if val > u32::MAX - pot {
                    return Err(HoldemError::InvariantViolation);
                }
                let _more: bool = round.next_play(Play::Bet(val));
                proof {
                    lemma_fold_monotonic(before, val as int);
                }
            },
        }
        count = count + 1;
    }
    Err(HoldemError::InvariantViolation)
}

/// The score of the hand revealed at position `k`, taken with the board.
pub open spec fn hand_score(hands: Seq<[u8; 2]>, board: Seq<u8>, k: int) -> int {
    spec_score(hands[k]@ + board)
}

/// The best score among the first `n` revealed hands.
pub open spec fn max_hand_score(hands: Seq<[u8; 2]>, board: Seq<u8>, n: int) -> int
    decreases n,
{
    if n <= 1 {
        hand_score(hands, board, 0)
    } else {
        let rest = max_hand_score(hands, board, n - 1);
        if hand_score(hands, board, n - 1) > rest {
            hand_score(hands, board, n - 1)
        } else {
            rest
        }
    }
}

/// The best score dominates every hand it has seen.
proof fn lemma_max_hand_ge(hands: Seq<[u8; 2]>, board: Seq<u8>, n: int, j: int)
    requires
        0 <= j < n,
    ensures
        max_hand_score(hands, board, n) >= hand_score(hands, board, j),
    decreases n,
{
    if n > 1 && j < n - 1 {
        lemma_max_hand_ge(hands, board, n - 1, j);
    }
}

/// Picks the winners of a showdown: of the seats and the hands they
/// revealed (position by position), exactly those seats whose hand scores
/// the best score of them all. The selection is refused when a revealed
/// card is out of range.
pub fn select_winners(hands: &Vec<[u8; 2]>, seats: &Vec<usize>, board: &[u8; 5]) -> (r: Result<
    Vec<usize>,
    HoldemError,
>)
    requires
        hands@.len() == seats@.len(),
        seats@.len() >= 1,
        forall|a: int, b: int|
            0 <= a < b < seats@.len() ==> #[trigger] seats@[a] < #[trigger] seats@[b],
        forall|i: int| 0 <= i < 5 ==> 1 <= #[trigger] board@[i] <= 52,
    ensures
        r is Ok <==> (forall|k: int|
            0 <= k < hands@.len() ==> 1 <= #[trigger] hands@[k]@[0] <= 52 && 1 <= hands@[k]@[1]
                <= 52),
        r is Err ==> r == Err::<Vec<usize>, HoldemError>(HoldemError::InvariantViolation),
        r matches Ok(w) ==> {
            &&& w@.len() >= 1
            &&& w@.no_duplicates()
            &&& forall|j: int| 0 <= j < w@.len() ==> seats@.contains(#[trigger] w@[j])
            &&& forall|k: int|
                0 <= k < seats@.len() ==> (#[trigger] w@.contains(seats@[k]) <==> hand_score(
                    hands@,
                    board@,
                    k,
                ) == max_hand_score(hands@, board@, seats@.len() as int))
        },
{
    let mut v: usize = 0;
    while v < hands.len()
        invariant
            v <= hands@.len(),
            forall|k: int|
                0 <= k < v ==> 1 <= #[trigger] hands@[k]@[0] <= 52 && 1 <= hands@[k]@[1] <= 52,
        decreases hands@.len() - v,
    {
        let h = hands[v];
        if h[0] < 1 || h[0] > 52 || h[1] < 1 || h[1] > 52 {
            return Err(HoldemError::InvariantViolation);
        }
        v = v + 1;
    }
    let mut winners: Vec<usize> = Vec::new();
    let mut best: u32 = 0;
    let mut k: usize = 0;
    while k < seats.len()
        invariant
            hands@.len() == seats@.len(),
            seats@.len() >= 1,
            k <= seats@.len(),
            forall|a: int, b: int|
                0 <= a < b < seats@.len() ==> #[trigger] seats@[a] < #[trigger] seats@[b],
            forall|i: int| 0 <= i < 5 ==> 1 <= #[trigger] board@[i] <= 52,
            forall|j: int|
                0 <= j < hands@.len() ==> 1 <= #[trigger] hands@[j]@[0] <= 52 && 1 <= hands@[j]@[1]
                    <= 52,
            k >= 1 ==> best == max_hand_score(hands@, board@, k as int),
            (winners@.len() >= 1 <==> k >= 1),
            forall|a: int, b: int|
                0 <= a < b < winners@.len() ==> #[trigger] winners@[a] < #[trigger] winners@[b],
            forall|a: int|
                0 <= a < winners@.len() ==> seats@.take(k as int).contains(#[trigger] winners@[a]),
            forall|j: int|
                0 <= j < k ==> (#[trigger] winners@.contains(seats@[j]) <==> hand_score(
                    hands@,
                    board@,
                    j,
                ) == max_hand_score(hands@, board@, k as int)),
        decreases seats@.len() - k,
    {
        let h = hands[k];
        proof {
            assert(h@ == hands@[k as int]@);
            assert(1 <= h@[0] <= 52 && 1 <= h@[1] <= 52);
        }
        let s = score_hand(&h, board);
        proof {
            assert(h@ + board@ == hands@[k as int]@ + board@);
            assert(s == hand_score(hands@, board@, k as int));
        }
        if k == 0 || s > best {
            let mut fresh: Vec<usize> = Vec::new();
            fresh.push(seats[k]);
            winners = fresh;
            best = s;
            proof {
                assert(winners@[0] == seats@[k as int]);
                assert(winners@.contains(seats@[k as int]));
                assert(seats@.take(k as int + 1).contains(seats@[k as int])) by {
                    assert(seats@.take(k as int + 1)[k as int] == seats@[k as int]);
                }
                assert forall|j: int| 0 <= j < k + 1 implies (#[trigger] winners@.contains(
                    seats@[j],
                ) <==> hand_score(hands@, board@, j) == max_hand_score(
                    hands@,
                    board@,
                    k as int + 1,
                )) by {
                    if j < k {
                        lemma_max_hand_ge(hands@, board@, k as int, j);
                        assert(hand_score(hands@, board@, j) < s);
                        if winners@.contains(seats@[j]) {
                            assert(winners@[0] == seats@[k as int]);
                            assert(seats@[j] == seats@[k as int]);
                            assert(false);
                        }
                    }
                }
            }
        } else if s == best {
            let ghost w0 = winners@;
            proof {
                assert forall|a: int| 0 <= a < w0.len() implies #[trigger] w0[a] < seats@[
                    k as int] by {
                    let ja = choose|ja: int| 0 <= ja < k && seats@.take(k as int)[ja] == w0[a];
                    assert(seats@[ja] < seats@[k as int]);
                }
            }
            winners.push(seats[k]);
            proof {
                assert(winners@ == w0.push(seats@[k as int]));
                assert forall|a: int, b2: int|
                    0 <= a < b2 < winners@.len() implies #[trigger] winners@[a]
                    < #[trigger] winners@[b2] by {
                    if b2 == w0.len() {
                        assert(winners@[a] == w0[a]);
                        assert(winners@[b2] == seats@[k as int]);
                    } else {
                        assert(winners@[a] == w0[a] && winners@[b2] == w0[b2]);
                    }
                }
                assert forall|j: int| 0 <= j < k + 1 implies (#[trigger] winners@.contains(
                    seats@[j],
                ) <==> hand_score(hands@, board@, j) == max_hand_score(
                    hands@,
                    board@,
                    k as int + 1,
                )) by {
                    assert(max_hand_score(hands@, board@, k as int + 1) == max_hand_score(
                        hands@,
                        board@,
                        k as int,
                    ));
                    if j < k {
                        assert(seats@[j] != seats@[k as int]);
                        assert(winners@.contains(seats@[j]) <==> w0.contains(seats@[j])) by {
                            if winners@.contains(seats@[j]) {
                                let a = choose|a: int|
                                    0 <= a < winners@.len() && winners@[a] == seats@[j];
                                if a < w0.len() {
                                    assert(w0[a] == seats@[j]);
                                } else {
                                    assert(winners@[a] == seats@[k as int]);
                                    assert(false);
                                }
                            }
                            if w0.contains(seats@[j]) {
                                let a = choose|a: int| 0 <= a < w0.len() && w0[a] == seats@[j];
                                assert(winners@[a] == seats@[j]);
                            }
                        }
                    } else {
                        assert(winners@[w0.len() as int] == seats@[k as int]);
                        assert(winners@.contains(seats@[k as int]));
                    }
                }
            }
        } else {
            proof {
                assert(!winners@.contains(seats@[k as int])) by {
                    if winners@.contains(seats@[k as int]) {
                        let a = choose|a: int|
                            0 <= a < winners@.len() && winners@[a] == seats@[k as int];
                        let j = choose|j: int|
                            0 <= j < k && seats@.take(k as int)[j] == winners@[a];
                        assert(seats@[j] == seats@[k as int]);
                        assert(false);
                    }
                }
            }
        }
        proof {
            assert forall|a: int| 0 <= a < winners@.len() implies seats@.take(k as int + 1).contains(
                #[trigger] winners@[a],
            ) by {
                if seats@.take(k as int).contains(winners@[a]) {
                    let j = choose|j: int|
                        0 <= j < k && seats@.take(k as int)[j] == winners@[a];
                    assert(seats@.take(k as int + 1)[j] == winners@[a]);
                } else {
                    assert(winners@[a] == seats@[k as int]);
                    assert(seats@.take(k as int + 1)[k as int] == seats@[k as int]);
                }
            }
        }
        k = k + 1;
    }
    proof {
        assert(seats@.take(seats@.len() as int) =~= seats@);
        assert forall|j: int| 0 <= j < winners@.len() implies seats@.contains(
            #[trigger] winners@[j],
        ) by {
            assert(seats@.take(k as int).contains(winners@[j]));
        }
    }
    Ok(winners)
}

/// The showdown: every active seat reveals its two cards, each hand is
/// scored together with the five shared cards, the highest score wins
/// and ties share the win. The winners are then paid an even split of
/// the pot. The showdown is refused before anyone reveals when the board
/// does not hold exactly five cards in range; it is refused after when a
/// seat cannot reveal a hand, a revealed card is out of range, or the
/// pot does not divide evenly.
pub fn compare_and_end_hand<T: HoldemPlayer>(
    round: &Round,
    players: &mut Vec<T>,
    shared_cards: &Vec<u8>,
) -> (r: Result<Vec<usize>, HoldemError>)
    requires
        round.wf(),
        round.model().seats() <= old(players).len(),
    ensures
        final(players).len() == old(players).len(),
        shared_cards@.len() != 5 ==> r is Err,
        (exists|j: int|
            0 <= j < shared_cards@.len() && !(1 <= #[trigger] shared_cards@[j] <= 52)) ==> r is Err,
        r matches Ok(w) ==> {
            &&& w@.len() >= 1
            &&& w@.no_duplicates()
            &&& forall|a: int|
                0 <= a < w@.len() ==> round.model().active.contains(#[trigger] w@[a] as int)
            &&& round.model().pot() % (w@.len() as int) == 0
        },
{
    if shared_cards.len() != 5 {
        return Err(HoldemError::InvariantViolation);
    }
    let mut b: usize = 0;
    while b < 5
        invariant
            b <= 5,
            shared_cards@.len() == 5,
            forall|j: int| 0 <= j < b ==> 1 <= #[trigger] shared_cards@[j] <= 52,
        decreases 5 - b,
    {
        if shared_cards[b] < 1 || shared_cards[b] > 52 {
            return Err(HoldemError::InvariantViolation);
        }
        b = b + 1;
    }
    let board: [u8; 5] = [
        shared_cards[0],
        shared_cards[1],
        shared_cards[2],
        shared_cards[3],
        shared_cards[4],
    ];
    let actives = round.remaining_players();
    let ghost act = round.model().active;
    proof {
        assert forall|a: int, b2: int|
            0 <= a < b2 < actives@.len() implies #[trigger] actives@[a]
            < #[trigger] actives@[b2] by {
            assert(act[a] == actives@[a] as int);
            assert(act[b2] == actives@[b2] as int);
        }
    }
    let mut hands: Vec<[u8; 2]> = Vec::new();
    let mut k: usize = 0;
    while k < actives.len()
        invariant
            k <= actives@.len(),
            hands@.len() == k,
            actives@.map_values(|p: usize| p as int) == act,
            act == round.model().active,
            round.wf(),
            round.model().seats() <= players@.len(),
            players@.len() == old(players)@.len(),
        decreases actives@.len() - k,
    {
        proof {
            assert(act[k as int] == actives@[k as int] as int);
            assert(0 <= act[k as int] < round.model().seats());
        }
        let p: usize = actives[k];
        let hand = match players[p].show() {
            Ok(h) => h,
            Err(e) => { return Err(e) },
        };
        hands.push(hand);
        k = k + 1;
    }
    proof {
        assert forall|i: int| 0 <= i < 5 implies 1 <= #[trigger] board@[i] <= 52 by {
            assert(board@[i] == shared_cards@[i]);
        }
    }
    let winners = match select_winners(&hands, &actives, &board) {
        Ok(w) => w,
        Err(e) => { return Err(e) },
    };
    proof {
        assert forall|a: int|
            0 <= a < winners@.len() implies act.contains(#[trigger] winners@[a] as int)
            && winners@[a] < players@.len() by {
            let j = choose|j: int| 0 <= j < actives@.len() && actives@[j] == winners@[a];
            assert(act[j] == actives@[j] as int);
            assert(act[j] < round.model().seats());
        }
    }
    match end_hand(round, players, &winners) {
        Ok(()) => Ok(winners),
        Err(e) => Err(e),
    }
}

/// Plays one full hand of no-limit hold'em. The deck is shuffled; every
/// seat is dealt two cards, assigned its position and charged the ante;
/// the seats at positions one and two post the little and big blind; then
/// the four streets are bet in turn, each street's board cards dealt
/// first (three at the flop, one at the turn and one at the river, so
/// the river leaves the five-card board the showdown scores). A street
/// left with a single survivor ends the hand at once with the whole pot;
/// otherwise the hand goes to showdown. Blinds out of order or fewer
/// than three seats are rejected before anything is dealt.
pub fn holdem_nl<T: HoldemPlayer>(
    dealer: &mut Dealer,
    players: &mut Vec<T>,
    blinds: [u32; 2],
    ante: u32,
) -> (r: Result<(), HoldemError>)
    requires
        old(dealer).wf(),
    ensures
        final(dealer).wf(),
        final(dealer).deck@.to_multiset() == old(dealer).deck@.to_multiset(),
        final(players).len() == old(players).len(),
        blinds@[0] > blinds@[1] || old(players).len() < 3 ==> r == Err::<(), HoldemError>(
            HoldemError::ConfigurationError,
        ),
        old(players).len() >= 26 ==> r is Err,
        blinds@[0] > u32::MAX - ante || blinds@[1] > u32::MAX - ante ==> r is Err,
        (ante as int) * old(players).len() + blinds@[0] + blinds@[1] > u32::MAX ==> r is Err,
{
    if blinds[0] > blinds[1] {
        return Err(HoldemError::ConfigurationError);
    }
    let n_players = players.len();
    if n_players < 3 {
        return Err(HoldemError::ConfigurationError);
    }
    dealer.shuffle();
    let mut i: usize = 0;
    while i < n_players
        invariant
            dealer.wf(),
            dealer.deck@.to_multiset() == old(dealer).deck@.to_multiset(),
            dealer.card_idx == 2 * i,
            dealer.card_idx <= 50,
            players@.len() == old(players)@.len(),
            n_players == players@.len(),
            n_players >= 3,
            blinds@[0] <= blinds@[1],
        decreases n_players - i,
    {
        let c1 = match dealer.next_card() {
            Ok(c) => c,
            Err(e) => { return Err(e) },
        };
        let c2 = match dealer.next_card() {
            Ok(c) => c,
            Err(e) => { return Err(e) },
        };
        players[i].recieve_cards([c1, c2]);
        players[i].assign_position(i + 1, n_players);
        match players[i].blind(Blind { amount: ante, btype: BlindType::Ante }) {
            Ok(_) => (),
            Err(e) => { return Err(e) },
        }
        i = i + 1;
    }
    match players[1].blind(Blind { amount: blinds[0], btype: BlindType::Little }) {
        Ok(_) => (),
        Err(e) => { return Err(e) },
    }
    match players[2].blind(Blind { amount: blinds[1], btype: BlindType::Big }) {
        Ok(_) => (),
        Err(e) => { return Err(e) },
    }
    let mut pre_bets: Vec<u32> = Vec::new();
    while pre_bets.len() < n_players
        invariant
            3 <= n_players <= 25,
            pre_bets@.len() <= n_players,
            forall|j: int| 0 <= j < pre_bets@.len() ==> #[trigger] pre_bets@[j] == ante,
        decreases n_players - pre_bets@.len(),
    {
        pre_bets.push(ante);
    }
    let ghost base = pre_bets@.map_values(|x: u32| x as int);
    if blinds[0] > u32::MAX - ante {
        return Err(HoldemError::ConfigurationError);
    }
    pre_bets.set(1, ante + blinds[0]);
    let ghost mid = pre_bets@.map_values(|x: u32| x as int);
    if blinds[1] > u32::MAX - ante {
        return Err(HoldemError::ConfigurationError);
    }
    pre_bets.set(2, ante + blinds[1]);
    let ghost seed = pre_bets@.map_values(|x: u32| x as int);
    proof {
        assert forall|j: int| 0 <= j < base.len() implies #[trigger] base[j] == ante as int by {}
        lemma_sum_const(base, ante as int);
        assert(mid =~= base.update(1, (ante + blinds@[0]) as int));
        lemma_sum_update(base, 1, (ante + blinds@[0]) as int);
        assert(seed =~= mid.update(2, (ante + blinds@[1]) as int));
        lemma_sum_update(mid, 2, (ante + blinds@[1]) as int);
        assert(base.len() == n_players as int);
        assert(sum_int(base) == (n_players as int) * (ante as int));
        assert(base[1] == ante as int);
        assert(mid[2] == ante as int);
        assert(sum_int(mid) == sum_int(base) - base[1] + ((ante + blinds@[0]) as int));
        assert(sum_int(seed) == sum_int(mid) - mid[2] + ((ante + blinds@[1]) as int));
        assert((n_players as int) * (ante as int) == (ante as int) * (n_players as int)) by (nonlinear_arith);
        assert(sum_int(seed) == (ante as int) * n_players + blinds@[0] + blinds@[1]);
    }
    let mut round = match Round::new(n_players, Some(pre_bets)) {
        Ok(r0) => r0,
        Err(e) => { return Err(e) },
    };
    proof {
        assert((ante as int) * n_players + blinds@[0] + blinds@[1] <= u32::MAX);
    }
    let mut shared_cards: Vec<u8> = Vec::new();
    let mut winning_players: Vec<usize> = Vec::new();

    // Betting on the hole cards.
    let turn_tag = Turn::HOLE;
    match play_holdem_round(players, &mut round, &shared_cards, &turn_tag) {
        Ok(()) => (),
        Err(e) => { return Err(e) },
    }
    match round.one_remaining_player() {
        Some(idx) => {
            winning_players.push(idx);
            return end_hand(&round, players, &winning_players);
        },
        None => (),
    }

    // The flop.
    let mut d: usize = 0;
    while d < 3
        invariant
            d <= 3,
            dealer.wf(),
            dealer.deck@.to_multiset() == old(dealer).deck@.to_multiset(),
            shared_cards@.len() == d,
            players@.len() == old(players)@.len(),
            n_players == players@.len(),
            3 <= n_players <= 25,
            blinds@[0] <= blinds@[1],
            blinds@[0] <= u32::MAX - ante,
            blinds@[1] <= u32::MAX - ante,
            (ante as int) * n_players + blinds@[0] + blinds@[1] <= u32::MAX,
        decreases 3 - d,
    {
        let c = match dealer.next_card() {
            Ok(c) => c,
            Err(e) => { return Err(e) },
        };
        shared_cards.push(c);
        d = d + 1;
    }
    let turn_tag = Turn::FLOP;
    match play_holdem_round(players, &mut round, &shared_cards, &turn_tag) {
        Ok(()) => (),
        Err(e) => { return Err(e) },
    }
    match round.one_remaining_player() {
        Some(idx) => {
            winning_players.push(idx);
            return end_hand(&round, players, &winning_players);
        },
        None => (),
    }

    // The turn.
    let c = match dealer.next_card() {
        Ok(c) => c,
        Err(e) => { return Err(e) },
    };
    shared_cards.push(c);
    let turn_tag = Turn::TURN;
    match play_holdem_round(players, &mut round, &shared_cards, &turn_tag) {
        Ok(()) => (),
        Err(e) => { return Err(e) },
    }
    match round.one_remaining_player() {
        Some(idx) => {
            winning_players.push(idx);
            return end_hand(&round, players, &winning_players);
        },
        None => (),
    }

    // The river.
    let c = match dealer.next_card() {
        Ok(c) => c,
        Err(e) => { return Err(e) },
    };
    shared_cards.push(c);
    let turn_tag = Turn::RIVER;
    match play_holdem_round(players, &mut round, &shared_cards, &turn_tag) {
        Ok(()) => (),
        Err(e) => { return Err(e) },
    }
    match round.one_remaining_player() {
        Some(idx) => {
            winning_players.push(idx);
            return end_hand(&round, players, &winning_players);
        },
        None => (),
    }

    // The remaining seats compare their cards.
    match compare_and_end_hand(&round, players, &shared_cards) {
        Ok(_) => Ok(()),
        Err(e) => Err(e),
    }
}

} // verus!
