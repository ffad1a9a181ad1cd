//! Construction of a hand and the transition engine.
//!
//! `from_ordered_deck` logic lives in `State::from_deck`; `State::from_seed`
//! shuffles a fresh deck deterministically first.  `State::apply_action`
//! computes the unique successor state of a state and a proposed action.

use vstd::prelude::*;
use vstd::arithmetic::div_mod::{
    lemma_fundamental_div_mod, lemma_mod_division_less_than_divisor, lemma_small_mod,
    lemma_add_mod_noop, lemma_mod_add_multiples_vanish,
};
use crate::action::{Action, ActionEnum, ActionRecord};
use crate::card::Card;
use crate::hand::{best_rank_of, lemma_best_rank_fn, pool_of, rank_hand, rank_le, rank_le_spec, rank_view};
use crate::state::{
    committed, chips, count_active, ind_player, ind_winner, loser_committed, losers_total,
    state_equal, sum_by, sum_chips, sum_committed, sum_rewards, winners_wf, PlayerState, State,
    StateStatus, lemma_state_equal_inv, lemma_sum_by_update, lemma_sum_by_const, lemma_sum_by_le,
    lemma_sum_by_linear, lemma_sum_by_member, lemma_sum_by_nonneg, lemma_sum_by_nonpos,
    lemma_sum_by_split, lemma_sum_by_transfer, lemma_sum_two_blinds, lemma_winner_count,
};
use crate::stage::Stage;

verus! {

broadcast use vstd::string::to_string_from_display_ensures_for_str;

/// A construction-time validation failure: the hand was not built, and the
/// message names the violated condition.
#[derive(Debug)]
pub struct InitStateError {
    pub msg: String,
}

/// Copies a vector of plain values.
pub fn copy_vec<T: Copy>(v: &Vec<T>) -> (r: Vec<T>)
    ensures
        r@ == v@,
{
    let mut r: Vec<T> = Vec::new();
    let n = v.len();
    for i in 0..n
        invariant
            n == v@.len(),
            r@.len() == i,
            forall|j: int| 0 <= j < i ==> r@[j] == v@[j],
    {
        r.push(v[i]);
    }
    proof {
        assert(r@ =~= v@);
    }
    r
}

/// Whether an action kind stands in a legal-action list.
pub fn contains_action(v: &Vec<ActionEnum>, x: ActionEnum) -> (r: bool)
    ensures
        r == v@.contains(x),
{
    let n = v.len();
    for i in 0..n
        invariant
            n == v@.len(),
            forall|j: int| 0 <= j < i ==> v@[j] != x,
    {
        if v[i] == x {
            return true;
        }
    }
    false
}

/// Counts the seats still active.
fn count_active_exec(v: &Vec<PlayerState>) -> (r: u64)
    ensures
        r == count_active(v@),
{
    let mut r: u64 = 0;
    let n = v.len();
    for i in 0..n
        invariant
            n == v@.len(),
            r == count_active(v@.subrange(0, i as int)),
            r <= i,
    {
        proof {
            assert(v@.subrange(0, i + 1).drop_last() =~= v@.subrange(0, i as int));
            assert(v@.subrange(0, i + 1).last() == v@[i as int]);
        }
        if v[i].active {
            r = r + 1;
        }
    }
    proof {
        assert(v@.subrange(0, n as int) =~= v@);
    }
    r
}

/// The action kinds legal for the state's current player, enumerated Fold,
/// Check, Call, Raise where present: nothing once the hand is over or at
/// Showdown; no Call when there is nothing to call; no Check when there is.
pub fn legal_actions(state: &State) -> (legal: Vec<ActionEnum>)
    ensures
        legal@ == state.legal_actions_spec(),
{
    let mut legal: Vec<ActionEnum> = Vec::new();
    let over = match state.stage {
        Stage::Showdown => true,
        _ => false,
    };
    if over || state.final_state {
        proof {
            assert(legal@ =~= state.legal_actions_spec());
        }
        return legal;
    }
    legal.push(ActionEnum::Fold);
    if state.min_bet == 0 {
        legal.push(ActionEnum::Check);
    } else {
        legal.push(ActionEnum::Call);
    }
    legal.push(ActionEnum::Raise);
    proof {
        assert(legal@ =~= state.legal_actions_spec());
    }
    legal
}

/// The deal-order seat of player `p` at an `n`-seat table: seats count from
/// the player after the button, who posts the small blind; the next seat
/// posts the big blind.
pub open spec fn seat_of(p: int, button: int, n: int) -> int {
    (p + n - (button + 1) % n) % n
}

/// The seat state of player `p` in a freshly constructed hand: two hole cards
/// dealt in seat order, the blind posted out of the stake, everything else
/// clear.
pub open spec fn fresh_player(
    p: int,
    button: u64,
    sb: u64,
    bb: u64,
    stake: u64,
    deck: Seq<Card>,
    n: int,
) -> PlayerState {
    let i = seat_of(p, button as int, n);
    let blind: u64 = if i == 0 {
        sb
    } else if i == 1 {
        bb
    } else {
        0
    };
    PlayerState {
        player: p as u64,
        hand: (deck[2 * i], deck[2 * i + 1]),
        bet_chips: blind,
        pot_chips: 0,
        stake: (stake - blind) as u64,
        reward: 0,
        active: true,
        last_stage_action: None,
    }
}

/// Whether construction must be rejected: too few players, the button not a
/// player, the deck too small to deal every hand, inverted blinds, or a stake
/// below the big blind.  Negative blinds cannot be written in the chip type.
pub open spec fn construction_rejected(
    n_players: u64,
    button: u64,
    sb: u64,
    bb: u64,
    stake: u64,
    deck: Seq<Card>,
) -> bool {
    ||| n_players < 2
    ||| button >= n_players
    ||| deck.len() < 2 * n_players
    ||| bb < sb
    ||| stake < bb
}

/// A freshly constructed hand: players seated in index order with the blinds
/// posted, the first three seats after the button spoken for (small blind,
/// big blind, first to act), the remaining deck intact, and the pot holding
/// exactly the blinds.
pub open spec fn fresh_state(
    s: State,
    n_players: u64,
    button: u64,
    sb: u64,
    bb: u64,
    stake: u64,
    deck: Seq<Card>,
) -> bool {
    let n = n_players as int;
    &&& s.players_state@.len() == n
    &&& forall|p: int|
        0 <= p < n ==> s.players_state@[p] == fresh_player(p, button, sb, bb, stake, deck, n)
    &&& s.current_player == (button as int + 3) % n
    &&& s.public_cards@.len() == 0
    &&& s.stage is Preflop
    &&& s.button == button
    &&& s.from_action is None
    &&& s.legal_actions@ == s.legal_actions_spec()
    &&& s.deck@ == deck.skip(2 * n)
    &&& s.pot == sb + bb
    &&& s.min_bet == bb
    &&& !s.final_state
    &&& s.status is Okay
    &&& deck.len() >= 2 * n + 5 ==> s.inv()
}

/// The full contract of construction: rejected exactly on the listed
/// conditions, with one message per violated condition (the first in order of
/// checking), and otherwise a fresh hand dealt from the given deck.
pub open spec fn constructs(
    result: Result<State, InitStateError>,
    n_players: u64,
    button: u64,
    sb: u64,
    bb: u64,
    stake: u64,
    deck: Seq<Card>,
) -> bool {
    &&& (result is Err) == construction_rejected(n_players, button, sb, bb, stake, deck)
    &&& (result matches Err(e) ==> e.msg@ == (if n_players < 2 {
        "The number of players must be 2 or more"@
    } else if button >= n_players {
        "The button must be between the players"@
    } else if deck.len() < 2 * n_players {
        "The number of cards in the deck must be at least 2*n_players"@
    } else if bb < sb {
        "The small blind must be smaller or equal than the big blind"@
    } else {
        "The stake must be greater or equal than the big blind"@
    }))
    &&& (result matches Ok(s) ==> fresh_state(s, n_players, button, sb, bb, stake, deck))
}

/// Seat arithmetic: the seat of the player after the button is 0, of the next
/// 1, and every player other than those two sits at seat 2 or later.
proof fn lemma_seat_positions(button: u64, n: int, q: int)
    requires
        n >= 2,
        (button as int) < n,
        0 <= q < n,
    ensures
        0 <= seat_of(q, button as int, n) < n,
        (seat_of(q, button as int, n) == 0) <==> (q == (button as int + 1) % n),
        (seat_of(q, button as int, n) == 1) <==> (q == (button as int + 2) % n),
{
    let b = button as int;
    let bpo = (b + 1) % n;
    lemma_mod_division_less_than_divisor(b + 1, n);
    lemma_mod_division_less_than_divisor(b + 2, n);
    if q >= bpo {
        lemma_add_mod_noop(q - bpo, n, n);
        lemma_small_mod((q - bpo) as nat, n as nat);
        lemma_small_mod(0nat, n as nat);
        assert(seat_of(q, b, n) == q - bpo);
    } else {
        lemma_small_mod((q + n - bpo) as nat, n as nat);
        assert(seat_of(q, b, n) == q + n - bpo);
    }
    // relate (b + 2) % n to bpo + 1
    lemma_add_mod_noop(b + 1, 1, n);
    lemma_small_mod(1nat, n as nat);
    if bpo + 1 < n {
        lemma_small_mod((bpo + 1) as nat, n as nat);
        assert((b + 2) % n == bpo + 1);
    } else {
        // bpo == n - 1
        lemma_add_mod_noop(0, n, n);
        lemma_small_mod(0nat, n as nat);
        assert((bpo + 1) % n == 0) by {
            assert(bpo + 1 == n);
            lemma_mod_division_less_than_divisor(n, n);
            lemma_fundamental_div_mod(n, n);
            assert(n % n == 0) by {
                lemma_add_mod_noop(0, n, n);
                lemma_small_mod(0nat, n as nat);
            }
        }
        assert((b + 2) % n == 0);
    }
}

impl State {
    /// Builds a hand from an already ordered deck: validates the arguments,
    /// deals two hole cards per player in seat order, posts the blinds, and
    /// hands the turn to the seat three places after the button.
    ///
    /// The product bound keeps every chip total representable: the table
    /// never holds more than `n_players * stake` chips.
    pub fn from_deck(
        n_players: u64,
        button: u64,
        sb: u64,
        bb: u64,
        stake: u64,
        deck: Vec<Card>,
    ) -> (result: Result<State, InitStateError>)
        requires
            (n_players as int) * (stake as int) <= i64::MAX as int,
        ensures
            constructs(result, n_players, button, sb, bb, stake, deck@),
    {
        if n_players < 2 {
            return Err(
                InitStateError { msg: "The number of players must be 2 or more".to_string() },
            );
        }
        if button >= n_players {
            return Err(
                InitStateError { msg: "The button must be between the players".to_string() },
            );
        }
        let deck_len = deck.len() as u64;
        if deck_len / 2 < n_players {
            proof {
                lemma_fundamental_div_mod(deck_len as int, 2);
            }
            return Err(
                InitStateError {
                    msg: "The number of cards in the deck must be at least 2*n_players".to_string(),
                },
            );
        }
        proof {
            lemma_fundamental_div_mod(deck_len as int, 2);
        }
        if bb < sb {
            return Err(
                InitStateError {
                    msg: "The small blind must be smaller or equal than the big blind".to_string(),
                },
            );
        }
        if stake < bb {
            return Err(
                InitStateError {
                    msg: "The stake must be greater or equal than the big blind".to_string(),
                },
            );
        }

        let ghost n = n_players as int;
        let ghost gdeck = deck@;
        proof {
            assert(gdeck.len() <= usize::MAX);
        }
        let bpo = (button + 1) % n_players;
        let mut players_state: Vec<PlayerState> = Vec::new();
        for p in 0..n_players
            invariant
                2 <= n_players,
                button < n_players,
                sb <= bb <= stake,
                n == n_players as int,
                gdeck == deck@,
                2 * n <= gdeck.len(),
                gdeck.len() <= usize::MAX,
                bpo == (button as int + 1) % n,
                0 <= bpo < n_players,
                players_state@.len() == p,
                forall|q: int|
                    0 <= q < p ==> players_state@[q] == fresh_player(
                        q,
                        button,
                        sb,
                        bb,
                        stake,
                        gdeck,
                        n,
                    ),
        {
            proof {
                lemma_seat_positions(button, n, p as int);
                lemma_mod_division_less_than_divisor(button as int + 1, n);
                lemma_mod_division_less_than_divisor((p + n_players - bpo) as int, n);
            }
            let i = (p + n_players - bpo) % n_players;
            proof {
                assert(i as int == seat_of(p as int, button as int, n));
            }
            let blind: u64 = if i == 0 {
                sb
            } else if i == 1 {
                bb
            } else {
                0
            };
            let hand0 = deck[(2 * i) as usize];
            let hand1 = deck[(2 * i + 1) as usize];
            players_state.push(
                PlayerState {
                    player: p,
                    hand: (hand0, hand1),
                    bet_chips: blind,
                    pot_chips: 0,
                    stake: stake - blind,
                    reward: 0,
                    active: true,
                    last_stage_action: None,
                },
            );
        }

        let mut rest: Vec<Card> = Vec::new();
        let two_n = (2 * n_players) as usize;
        let full = deck.len();
        for j in two_n..full
            invariant
                two_n == 2 * n <= gdeck.len(),
                full == gdeck.len(),
                gdeck == deck@,
                rest@ == gdeck.subrange(2 * n, j as int),
        {
            rest.push(deck[j]);
            proof {
                assert(rest@ =~= gdeck.subrange(2 * n, j + 1));
            }
        }
        proof {
            assert(rest@ =~= gdeck.skip(2 * n));
        }

        proof {
            assert(sb + bb <= 2 * (stake as int));
            assert(2 * (stake as int) <= (n_players as int) * (stake as int)) by (nonlinear_arith)
                requires
                    n_players >= 2,
            ;
        }
        let mut state = State {
            current_player: (button + 3) % n_players,
            players_state,
            public_cards: Vec::new(),
            stage: Stage::Preflop,
            button,
            from_action: None,
            legal_actions: Vec::new(),
            deck: rest,
            final_state: false,
            pot: sb + bb,
            min_bet: bb,
            status: StateStatus::Okay,
        };
        state.legal_actions = legal_actions(&state);

        proof {
            let ps = state.players_state@;
            lemma_mod_division_less_than_divisor(button as int + 3, n);
            assert forall|q: int| 0 <= q < n implies committed(#[trigger] ps[q]) == (if q == (
            button as int + 1) % n {
                sb as int
            } else if q == (button as int + 2) % n {
                bb as int
            } else {
                0int
            }) by {
                lemma_seat_positions(button, n, q);
            }
            lemma_mod_division_less_than_divisor(button as int + 1, n);
            lemma_mod_division_less_than_divisor(button as int + 2, n);
            assert((button as int + 1) % n != (button as int + 2) % n) by {
                lemma_seat_positions(button, n, (button as int + 1) % n);
            }
            lemma_sum_two_blinds(
                ps,
                (button as int + 1) % n,
                (button as int + 2) % n,
                sb,
                bb,
            );
            assert(sum_committed(ps) == sb + bb);
            assert forall|q: int| 0 <= q < n implies chips(#[trigger] ps[q]) == stake as int by {
                lemma_seat_positions(button, n, q);
            }
            lemma_sum_by_const(ps, |p: PlayerState| chips(p), stake as int);
            assert(sum_chips(ps) == (stake as int) * n) by (nonlinear_arith)
                requires
                    sum_chips(ps) == (stake as int) * ps.len() as int,
                    ps.len() == n,
            ;
            assert((stake as int) * n <= i64::MAX as int) by (nonlinear_arith)
                requires
                    (n_players as int) * (stake as int) <= i64::MAX as int,
                    n == n_players as int,
            ;
            lemma_sum_by_const(
                ps,
                |p: PlayerState| if p.active {
                    1int
                } else {
                    0int
                },
                1,
            );
            if gdeck.len() >= 2 * n + 5 {
                assert(state.inv());
            }
        }
        Ok(state)
    }
}


/// Whether a player number stands in a winner list.
fn contains_u64(v: &Vec<u64>, x: u64) -> (r: bool)
    ensures
        r == v@.contains(x),
{
    let n = v.len();
    for i in 0..n
        invariant
            n == v@.len(),
            forall|j: int| 0 <= j < i ==> v@[j] != x,
    {
        if v[i] == x {
            return true;
        }
    }
    false
}

/// The seat state after payoff distribution: commitment paid out, the seat
/// retired, and the reward settled — an equal share of the losers' total for
/// a winner, the negated own commitment for anyone else.
pub open spec fn settled_player(p: PlayerState, w: Seq<u64>, share: int) -> PlayerState {
    PlayerState {
        player: p.player,
        hand: p.hand,
        bet_chips: 0,
        pot_chips: 0,
        stake: p.stake,
        reward: if w.contains(p.player) {
            share as i64
        } else {
            (-committed(p)) as i64
        },
        active: false,
        last_stage_action: p.last_stage_action,
    }
}

impl State {
    /// Distributes the terminal payoff to a winner set: the losers' total
    /// commitment is split evenly among the winners (integer division; the
    /// indivisible remainder is discarded, as this single-pot model has no
    /// further owner for it), every loser's reward is the negative of their
    /// own commitment, and the hand ends.
    #[verifier::rlimit(60)]
    fn set_winners(&mut self, winners: Vec<u64>)
        requires
            winners_wf(old(self).players_state@, winners@),
            forall|i: int|
                0 <= i < old(self).players_state@.len() ==> (#[trigger] old(
                    self,
                ).players_state@[i]).player == i,
            sum_chips(old(self).players_state@) <= i64::MAX,
        ensures
            ({
                let ps = old(self).players_state@;
                let w = winners@;
                let share = losers_total(ps, w) / w.len() as int;
                &&& final(self).final_state
                &&& final(self).players_state@.len() == ps.len()
                &&& forall|i: int|
                    0 <= i < ps.len() ==> final(self).players_state@[i] == settled_player(
                        #[trigger] ps[i],
                        w,
                        share,
                    )
                &&& sum_rewards(final(self).players_state@) == w.len() * share - losers_total(
                    ps,
                    w,
                )
                &&& -(w.len() as int) < sum_rewards(final(self).players_state@) <= 0
                &&& 0 <= share <= i64::MAX
                &&& w.len() == 1 ==> sum_rewards(final(self).players_state@) == 0
                &&& final(self).current_player == old(self).current_player
                &&& final(self).public_cards@ == old(self).public_cards@
                &&& final(self).stage == old(self).stage
                &&& final(self).button == old(self).button
                &&& final(self).from_action == old(self).from_action
                &&& final(self).legal_actions@ == old(self).legal_actions@
                &&& final(self).deck@ == old(self).deck@
                &&& final(self).pot == old(self).pot
                &&& final(self).min_bet == old(self).min_bet
                &&& final(self).status == old(self).status
            }),
    {
        let ghost gps = self.players_state@;
        let ghost w = winners@;
        let n = self.players_state.len();

        // The losers' total commitment.
        let mut total: u64 = 0;
        proof {
            assert forall|i: int| 0 <= i < gps.len() implies loser_committed(w)(#[trigger] gps[i])
                <= chips(gps[i]) && 0 <= loser_committed(w)(gps[i]) && 0 <= chips(gps[i]) by {}
        }
        for i in 0..n
            invariant
                n == gps.len(),
                self.players_state@ == gps,
                w == winners@,
                sum_chips(gps) <= i64::MAX,
                total == sum_by(gps.subrange(0, i as int), loser_committed(w)),
                total <= sum_by(gps.subrange(0, i as int), |p: PlayerState| chips(p)),
        {
            let ghost pre = gps.subrange(0, i as int);
            proof {
                assert(gps.subrange(0, i + 1).drop_last() =~= pre);
                assert(gps.subrange(0, i + 1).last() == gps[i as int]);
                lemma_sum_by_member(gps, |p: PlayerState| chips(p), i as int);
                lemma_sum_by_split(gps, |p: PlayerState| chips(p), i + 1);
                assert(gps.subrange(i + 1, gps.len() as int).len() == gps.len() - i - 1);
                assert forall|j: int|
                    0 <= j < gps.subrange(i + 1, gps.len() as int).len() implies (|p: PlayerState|
                    chips(p))(#[trigger] gps.subrange(i + 1, gps.len() as int)[j]) >= 0 by {}
                lemma_sum_by_nonneg(gps.subrange(i + 1, gps.len() as int), |p: PlayerState| chips(p));
            }
            let p = self.players_state[i];
            let c = p.pot_chips + p.bet_chips;
            if !contains_u64(&winners, p.player) {
                total = total + c;
            }
        }
        proof {
            assert(gps.subrange(0, n as int) =~= gps);
            assert(total == losers_total(gps, w));
        }

        let k = winners.len() as u64;
        let share = total / k;
        proof {
            lemma_fundamental_div_mod(total as int, k as int);
            lemma_mod_division_less_than_divisor(total as int, k as int);
        }

        // Settle every seat.
        let mut settled: Vec<PlayerState> = Vec::new();
        for i in 0..n
            invariant
                n == gps.len(),
                self.players_state@ == gps,
                w == winners@,
                winners@.len() == k,
                sum_chips(gps) <= i64::MAX,
                share == losers_total(gps, w) / k as int,
                0 <= share <= total == losers_total(gps, w) <= i64::MAX,
                settled@.len() == i,
                forall|j: int|
                    0 <= j < i ==> settled@[j] == settled_player(#[trigger] gps[j], w, share as int),
        {
            proof {
                lemma_sum_by_member(gps, |p: PlayerState| chips(p), i as int);
            }
            let p = self.players_state[i];
            let c = p.pot_chips + p.bet_chips;
            let reward: i64 = if contains_u64(&winners, p.player) {
                share as i64
            } else {
                -(c as i64)
            };
            settled.push(
                PlayerState {
                    player: p.player,
                    hand: p.hand,
                    bet_chips: 0,
                    pot_chips: 0,
                    stake: p.stake,
                    reward,
                    active: false,
                    last_stage_action: p.last_stage_action,
                },
            );
        }
        self.players_state = settled;
        self.final_state = true;

        proof {
            let new_ps = self.players_state@;
            let share_i = share as int;
            let ghost mixed = |p: PlayerState| share_i * ind_winner(w)(p) - loser_committed(w)(p);
            assert forall|i: int| 0 <= i < new_ps.len() implies (|p: PlayerState| p.reward as int)(
                #[trigger] new_ps[i],
            ) == mixed(gps[i]) by {
                assert(share_i * 1 == share_i && share_i * 0 == 0) by (nonlinear_arith);
                assert forall|j: int| 0 <= j < gps.len() implies (|p: PlayerState| chips(p))(
                    #[trigger] gps[j],
                ) >= 0 by {}
                lemma_sum_by_member(gps, |p: PlayerState| chips(p), i);
                assert(committed(gps[i]) <= chips(gps[i]) <= i64::MAX);
            }
            lemma_sum_by_transfer(new_ps, |p: PlayerState| p.reward as int, gps, mixed);
            assert forall|i: int| 0 <= i < gps.len() implies mixed(#[trigger] gps[i]) == share_i
                * ind_winner(w)(gps[i]) - loser_committed(w)(gps[i]) by {}
            lemma_sum_by_linear(gps, ind_winner(w), loser_committed(w), mixed, share_i);
            lemma_winner_count(gps, w);
            let kk = w.len() as int;
            let s_total = losers_total(gps, w);
            assert(share_i * kk == kk * share_i) by (nonlinear_arith);
            assert(sum_rewards(new_ps) == kk * share_i - s_total);
            lemma_fundamental_div_mod(s_total, kk);
            lemma_mod_division_less_than_divisor(s_total, kk);
            assert(kk * (s_total / kk) == (s_total / kk) * kk) by (nonlinear_arith);
            assert(sum_rewards(new_ps) == -(s_total % kk));
        }
    }
}


/// The seat reached by stepping `d` seats onward from seat `s` at an
/// `n`-seat table.
pub open spec fn wrap_seat(s: int, d: int, n: int) -> int {
    (s + d) % n
}

/// Whether seat `r` is the first active seat at or after seat `start`,
/// counting onward around the table: `r` is active and every seat passed on
/// the way to it is not.
pub open spec fn is_first_active_after(ps: Seq<PlayerState>, start: int, r: int) -> bool {
    &&& 0 <= r < ps.len()
    &&& ps[r].active
    &&& forall|d: int|
        0 <= d < (r + ps.len() - start) % (ps.len() as int)
            ==> !ps[#[trigger] wrap_seat(start, d, ps.len() as int)].active
}

/// Wrapping `d` seats onward from seat `s` lands on `(s + d) % n`, which is
/// `s + d` itself until it passes the table size and `s + d - n` after.
proof fn lemma_wrap_add(s: int, d: int, n: int)
    requires
        0 <= s < n,
        0 <= d < n,
    ensures
        (s + d) % n == if s + d < n {
            s + d
        } else {
            s + d - n
        },
{
    if s + d < n {
        lemma_small_mod((s + d) as nat, n as nat);
    } else {
        lemma_mod_add_multiples_vanish(s + d - n, n);
        lemma_small_mod((s + d - n) as nat, n as nat);
    }
}

/// The first active seat at or after `start`, wrapping around the table:
/// every seat passed over on the way is inactive.
fn first_active_from(players: &Vec<PlayerState>, start: u64) -> (r: u64)
    requires
        players@.len() >= 2,
        (start as int) < players@.len(),
        count_active(players@) >= 1,
    ensures
        is_first_active_after(players@, start as int, r as int),
{
    let n = players.len() as u64;
    let gn: Ghost<int> = Ghost(players@.len() as int);
    let mut cur = start;
    let mut step: u64 = 0;
    proof {
        lemma_small_mod(start as nat, n as nat);
    }
    while step < n
        invariant
            gn@ == players@.len() as int,
            n == players@.len(),
            players@.len() <= usize::MAX,
            2 <= n,
            start < n,
            cur < n,
            step <= n,
            cur as int == (start as int + step as int) % gn@,
            forall|d: int| 0 <= d < step ==> !players@[#[trigger] wrap_seat(start as int, d, gn@)].active,
        decreases n - step,
    {
        if players[cur as usize].active {
            proof {
                lemma_wrap_add(start as int, step as int, gn@);
                if cur >= start {
                    lemma_mod_add_multiples_vanish(step as int, gn@);
                    lemma_small_mod(step as nat, n as nat);
                } else {
                    lemma_small_mod(step as nat, n as nat);
                }
                assert((cur as int + gn@ - start as int) % gn@ == step as int);
                assert forall|d: int|
                    0 <= d < (cur as int + players@.len() - start as int) % (
                    players@.len() as int) implies !players@[#[trigger] wrap_seat(
                    start as int,
                    d,
                    players@.len() as int,
                )].active by {
                    assert(wrap_seat(start as int, d, gn@) == wrap_seat(
                        start as int,
                        d,
                        players@.len() as int,
                    ));
                }
            }
            return cur;
        }
        proof {
            assert(!players@[wrap_seat(start as int, step as int, gn@)].active);
            let x = start as int + step as int;
            lemma_add_mod_noop(x, 1, gn@);
            lemma_small_mod(1nat, n as nat);
            if cur + 1 < n {
                lemma_small_mod((cur + 1) as nat, n as nat);
            } else {
                lemma_mod_add_multiples_vanish(0, gn@);
                lemma_small_mod(0nat, n as nat);
            }
        }
        cur = if cur + 1 == n {
            0
        } else {
            cur + 1
        };
        step = step + 1;
    }
    proof {
        assert forall|i: int| 0 <= i < gn@ implies !(#[trigger] players@[i]).active by {
            let d: int = if i >= start as int {
                i - start as int
            } else {
                i + gn@ - start as int
            };
            lemma_wrap_add(start as int, d, gn@);
            assert(wrap_seat(start as int, d, gn@) == i);
            assert(!players@[wrap_seat(start as int, d, gn@)].active);
        }
        assert forall|i: int| 0 <= i < players@.len() implies (|p: PlayerState| if p.active {
            1int
        } else {
            0int
        })(#[trigger] players@[i]) <= 0 by {}
        lemma_sum_by_nonpos(
            players@,
            |p: PlayerState| if p.active {
                1int
            } else {
                0int
            },
        );
        assert(false);
    }
    0
}

/// The seat state after a street closes: the street's bet folded into the
/// pot commitment and the street action record cleared.
pub open spec fn street_cleared(p: PlayerState) -> PlayerState {
    PlayerState {
        player: p.player,
        hand: p.hand,
        bet_chips: 0,
        pot_chips: (p.pot_chips + p.bet_chips) as u64,
        stake: p.stake,
        reward: p.reward,
        active: p.active,
        last_stage_action: None,
    }
}

impl State {
    /// Advances to the next street: deals the street's public cards (three
    /// for the flop, one each for turn and river), folds every seat's bet
    /// into its pot commitment, clears the street action records, resets the
    /// call level, and hands the turn to the first active seat after the
    /// button.
    fn to_next_stage(&mut self)
        requires
            !(old(self).stage is Showdown),
            old(self).players_state@.len() >= 2,
            (old(self).button as int) < old(self).players_state@.len(),
            count_active(old(self).players_state@) >= 1,
            old(self).public_cards@.len() == old(self).stage.public_cards_spec(),
            old(self).deck@.len() + old(self).public_cards@.len() >= 5,
            sum_chips(old(self).players_state@) <= i64::MAX,
        ensures
            ({
                let dealt = old(self).stage.next_spec().public_cards_spec() - old(
                    self,
                ).stage.public_cards_spec();
                &&& final(self).stage == old(self).stage.next_spec()
                &&& final(self).public_cards@ == old(self).public_cards@ + old(
                    self,
                ).deck@.subrange(0, dealt)
                &&& final(self).deck@ == old(self).deck@.skip(dealt)
                &&& final(self).players_state@.len() == old(self).players_state@.len()
                &&& forall|i: int|
                    0 <= i < old(self).players_state@.len() ==> final(self).players_state@[i]
                        == street_cleared(#[trigger] old(self).players_state@[i])
                &&& final(self).min_bet == 0
                &&& (final(self).current_player as int) < final(self).players_state@.len()
                &&& final(self).players_state@[final(self).current_player as int].active
                &&& is_first_active_after(
                    final(self).players_state@,
                    (old(self).button as int + 1) % (old(self).players_state@.len() as int),
                    final(self).current_player as int,
                )
                &&& final(self).pot == old(self).pot
                &&& final(self).button == old(self).button
                &&& final(self).from_action == old(self).from_action
                &&& final(self).legal_actions@ == old(self).legal_actions@
                &&& final(self).final_state == old(self).final_state
                &&& final(self).status == old(self).status
            }),
    {
        let ghost gps = old(self).players_state@;
        let ghost gdeck = old(self).deck@;
        let ghost gpub = old(self).public_cards@;
        self.stage = match self.stage {
            Stage::Preflop => Stage::Flop,
            Stage::Flop => Stage::Turn,
            Stage::Turn => Stage::River,
            _ => Stage::Showdown,
        };
        let n_deal: usize = match self.stage {
            Stage::Flop => 3,
            Stage::Turn | Stage::River => 1,
            _ => 0,
        };
        for k in 0..n_deal
            invariant
                n_deal <= gdeck.len(),
                self.deck@ == gdeck.skip(k as int),
                self.public_cards@ == gpub + gdeck.subrange(0, k as int),
                self.players_state@ == gps,
                self.stage == old(self).stage.next_spec(),
                self.button == old(self).button,
                self.current_player == old(self).current_player,
                self.from_action == old(self).from_action,
                self.legal_actions@ == old(self).legal_actions@,
                self.pot == old(self).pot,
                self.min_bet == old(self).min_bet,
                self.final_state == old(self).final_state,
                self.status == old(self).status,
        {
            let c = self.deck.remove(0);
            self.public_cards.push(c);
            proof {
                assert(self.deck@ =~= gdeck.skip(k + 1));
                assert(self.public_cards@ =~= gpub + gdeck.subrange(0, k + 1));
            }
        }
        proof {
            assert(self.public_cards@ =~= gpub + gdeck.subrange(0, n_deal as int));
        }

        let n = self.players_state.len();
        let mut cleared: Vec<PlayerState> = Vec::new();
        for i in 0..n
            invariant
                n == gps.len(),
                self.players_state@ == gps,
                sum_chips(gps) <= i64::MAX,
                cleared@.len() == i,
                forall|j: int| 0 <= j < i ==> cleared@[j] == street_cleared(#[trigger] gps[j]),
        {
            proof {
                assert forall|j: int| 0 <= j < gps.len() implies (|p: PlayerState| chips(p))(
                    #[trigger] gps[j],
                ) >= 0 by {}
                lemma_sum_by_member(gps, |p: PlayerState| chips(p), i as int);
            }
            let p = self.players_state[i];
            cleared.push(
                PlayerState {
                    player: p.player,
                    hand: p.hand,
                    bet_chips: 0,
                    pot_chips: p.pot_chips + p.bet_chips,
                    stake: p.stake,
                    reward: p.reward,
                    active: p.active,
                    last_stage_action: None,
                },
            );
        }
        self.players_state = cleared;
        self.min_bet = 0;

        proof {
            let f = |p: PlayerState| if p.active {
                1int
            } else {
                0int
            };
            assert forall|i: int| 0 <= i < self.players_state@.len() implies f(
                #[trigger] self.players_state@[i],
            ) == f(gps[i]) by {}
            crate::state::lemma_sum_by_transfer(self.players_state@, f, gps, f);
        }
        let start = (self.button + 1) % (self.players_state.len() as u64);
        proof {
            lemma_mod_division_less_than_divisor(
                self.button as int + 1,
                self.players_state@.len() as int,
            );
        }
        self.current_player = first_active_from(&self.players_state, start);
    }
}



/// If every seat but `k` is inactive, at most one seat is active.
proof fn lemma_lone_active(ps: Seq<PlayerState>, k: int)
    requires
        forall|i: int| 0 <= i < ps.len() ==> (#[trigger] ps[i]).player == i,
        0 <= k < ps.len(),
        forall|j: int| 0 <= j < ps.len() && j != k ==> !(#[trigger] ps[j]).active,
    ensures
        count_active(ps) <= 1,
{
    let kk = ps[k].player;
    let act = |p: PlayerState| if p.active {
        1int
    } else {
        0int
    };
    assert forall|i: int| 0 <= i < ps.len() implies act(#[trigger] ps[i]) <= ind_player(kk)(
        ps[i],
    ) by {
        if i != k {
            assert(!ps[i].active);
            assert(ps[i].player == i && kk == k);
        }
    }
    crate::state::lemma_sum_by_le(ps, act, ind_player(kk));
    crate::state::lemma_ind_player_unique(ps, kk);
}

/// Whether the audit record says that `a` was proposed at state `s`.
pub open spec fn records(rec: ActionRecord, s: State, a: Action) -> bool {
    &&& rec.player == s.current_player
    &&& rec.stage == s.stage
    &&& rec.action == a
    &&& rec.legal_actions@ == s.legal_actions@
}

/// A transition stopped by a rule violation: the state as just before the
/// attempted action plus the audit record, the given error status, and the
/// hand over.
pub open spec fn error_stop(next: State, s: State, a: Action, st: StateStatus) -> bool {
    &&& next.current_player == s.current_player
    &&& next.players_state@ == s.players_state@
    &&& next.public_cards@ == s.public_cards@
    &&& next.stage == s.stage
    &&& next.button == s.button
    &&& (next.from_action matches Some(rec) && records(rec, s, a))
    &&& next.legal_actions@ == s.legal_actions@
    &&& next.deck@ == s.deck@
    &&& next.pot == s.pot
    &&& next.min_bet == s.min_bet
    &&& next.final_state
    &&& next.status == st
}

/// Whether a raise of `a.amount` on top of the owed call would cost the
/// current player more than their remaining stake.
pub open spec fn raise_over_stake(s: State, a: Action) -> bool {
    let p = s.players_state@[s.current_player as int];
    s.min_bet - p.bet_chips + a.amount > p.stake
}

/// Whether the betting round closes once `a` is applied at `s`: at least two
/// players stay active, every other active player has already acted this
/// street (the actor just did), and every active bet matches the street's
/// call level as the action leaves it.
pub open spec fn round_closes(s: State, a: Action) -> bool {
    let ps = s.players_state@;
    let actor = s.current_player as int;
    let level: int = if a.action is Raise {
        s.min_bet + a.amount
    } else {
        s.min_bet as int
    };
    &&& count_active(ps) - (if a.action is Fold {
        1int
    } else {
        0int
    }) >= 2
    &&& forall|i: int|
        0 <= i < ps.len() && i != actor && (#[trigger] ps[i]).active
            ==> ps[i].last_stage_action is Some
    &&& forall|i: int|
        0 <= i < ps.len() && i != actor && (#[trigger] ps[i]).active ==> ps[i].bet_chips == level
    &&& (a.action is Check ==> ps[actor].bet_chips == s.min_bet)
}

/// The chips seat `p` has committed once `a` is applied at `s`: the acting
/// seat adds what a call or raise moves, every other seat stands.
pub open spec fn committed_after(s: State, a: Action, p: PlayerState) -> int {
    committed(p) + if p.player == s.current_player {
        match a.action {
            ActionEnum::Call => s.min_bet - p.bet_chips,
            ActionEnum::Raise => s.min_bet - p.bet_chips + a.amount,
            _ => 0,
        }
    } else {
        0int
    }
}

/// Whether the seat state `p` is still in the hand once `a` is applied at
/// `s`: it was live before, and it is not the seat of an acting fold.
pub open spec fn stays_live(s: State, a: Action, p: PlayerState) -> bool {
    p.active && !(a.action is Fold && p.player == s.current_player)
}

/// Whether the seat state `p` wins the showdown that `a` brings about at
/// `s`: still in the hand, and no seat still in the hand holds a strictly
/// stronger best 5-card hand on the board.
pub open spec fn showdown_winner(s: State, a: Action, p: PlayerState) -> bool {
    &&& stays_live(s, a, p)
    &&& forall|j: int|
        0 <= j < s.players_state@.len() && stays_live(s, a, #[trigger] s.players_state@[j])
            ==> rank_le_spec(
            best_rank_of(pool_of(p.hand, s.public_cards@)),
            best_rank_of(pool_of(s.players_state@[j].hand, s.public_cards@)),
        )
}

/// Per-seat winner indicator for the showdown.
pub open spec fn winner_ind(s: State, a: Action) -> spec_fn(PlayerState) -> int {
    |p: PlayerState| if showdown_winner(s, a, p) {
        1int
    } else {
        0int
    }
}

/// How many seats win the showdown.
pub open spec fn showdown_winner_count(s: State, a: Action) -> int {
    sum_by(s.players_state@, winner_ind(s, a))
}

/// The chips committed by the seats that do not win the showdown, counted
/// after the closing action's own chips moved.
pub open spec fn showdown_losses(s: State, a: Action) -> int {
    sum_by(
        s.players_state@,
        |p: PlayerState| if showdown_winner(s, a, p) {
            0int
        } else {
            committed_after(s, a, p)
        },
    )
}

/// The financial effect of a successfully applied action on the successor
/// state: what the acting player paid or forfeited, how the pot moved, and
/// what happened to everyone else.  Claims about per-seat chips are stated
/// for successors still in play; a successor that reached the payoff has its
/// commitments settled as `State::settled_shape` describes.
pub open spec fn action_applied(next: State, s: State, a: Action) -> bool {
    let actor = s.current_player as int;
    let ps = s.players_state@;
    let nps = next.players_state@;
    let owed = s.min_bet - ps[actor].bet_chips;
    &&& next.status is Okay
    &&& next.button == s.button
    &&& nps.len() == ps.len()
    &&& (next.from_action matches Some(rec) && records(rec, s, a))
    &&& (next.stage == s.stage || next.stage == s.stage.next_spec())
    &&& forall|i: int|
        0 <= i < ps.len() ==> (#[trigger] nps[i]).hand == ps[i].hand && nps[i].player
            == ps[i].player
    &&& (next.stage == s.stage ==> next.deck@ == s.deck@ && next.public_cards@
        == s.public_cards@)
    &&& (next.stage != s.stage ==> {
        let dealt = next.stage.public_cards_spec() - s.stage.public_cards_spec();
        &&& next.public_cards@ == s.public_cards@ + s.deck@.subrange(0, dealt)
        &&& next.deck@ == s.deck@.skip(dealt)
    })
    &&& (next.stage == s.stage ==> nps[actor].last_stage_action == Some(a.action))
    &&& (next.stage != s.stage ==> next.min_bet == 0 && forall|i: int|
        0 <= i < nps.len() ==> (#[trigger] nps[i]).last_stage_action is None)
    &&& (!next.final_state && next.stage == s.stage ==> is_first_active_after(
        ps,
        (actor + 1) % (ps.len() as int),
        next.current_player as int,
    ))
    &&& (!next.final_state && next.stage != s.stage ==> is_first_active_after(
        nps,
        (s.button as int + 1) % (ps.len() as int),
        next.current_player as int,
    ))
    &&& ((next.stage != s.stage) <==> round_closes(s, a))
    &&& (next.final_state <==> ((a.action is Fold && count_active(ps) == 2) || (round_closes(s, a)
        && s.stage is River)))
    &&& forall|i: int|
        0 <= i < ps.len() && i != actor ==> (#[trigger] nps[i]).stake == ps[i].stake
    &&& (!next.final_state && next.stage == s.stage ==> forall|i: int|
        0 <= i < ps.len() && i != actor ==> #[trigger] nps[i] == ps[i])
    &&& (!next.final_state && next.stage != s.stage ==> forall|i: int|
        0 <= i < ps.len() && i != actor ==> #[trigger] nps[i] == street_cleared(ps[i]))
    &&& (next.stage == s.stage ==> next.min_bet == (if a.action is Raise {
        s.min_bet + a.amount
    } else {
        s.min_bet as int
    }))
    &&& (next.final_state ==> forall|i: int|
        0 <= i < ps.len() && !(#[trigger] ps[i]).active ==> nps[i].reward == -committed(ps[i]))
    &&& (round_closes(s, a) && s.stage is River ==> {
        &&& showdown_winner_count(s, a) >= 1
        &&& sum_rewards(nps) == -(showdown_losses(s, a) % showdown_winner_count(s, a))
        &&& forall|i: int|
            0 <= i < ps.len() ==> (#[trigger] nps[i]).reward == (if showdown_winner(s, a, ps[i]) {
                showdown_losses(s, a) / showdown_winner_count(s, a)
            } else {
                -committed_after(s, a, ps[i])
            })
    })
    &&& match a.action {
        ActionEnum::Fold => {
            &&& !nps[actor].active
            &&& nps[actor].reward == -committed(ps[actor])
            &&& nps[actor].stake == ps[actor].stake
            &&& (!next.final_state ==> nps[actor].bet_chips == 0 && committed(nps[actor])
                == committed(ps[actor]))
            &&& count_active(nps) < count_active(ps)
            &&& next.pot == s.pot
            &&& (count_active(ps) == 2 ==> next.final_state && sum_rewards(nps) == 0)
        },
        ActionEnum::Check => {
            &&& next.pot == s.pot
            &&& nps[actor].stake == ps[actor].stake
            &&& (!next.final_state ==> forall|i: int|
                0 <= i < ps.len() ==> committed(#[trigger] nps[i]) == committed(ps[i])
                    && nps[i].active == ps[i].active)
        },
        ActionEnum::Call => {
            &&& next.pot == s.pot + owed
            &&& nps[actor].stake == ps[actor].stake - owed
            &&& (!next.final_state ==> {
                &&& committed(nps[actor]) == committed(ps[actor]) + owed
                &&& nps[actor].active
                &&& forall|i: int|
                    0 <= i < ps.len() && i != actor ==> committed(#[trigger] nps[i]) == committed(
                        ps[i],
                    ) && nps[i].active == ps[i].active
            })
        },
        ActionEnum::Raise => {
            &&& next.pot == s.pot + owed + a.amount
            &&& nps[actor].stake == ps[actor].stake - owed - a.amount
            &&& (!next.final_state ==> {
                &&& committed(nps[actor]) == committed(ps[actor]) + owed + a.amount
                &&& nps[actor].active
                &&& forall|i: int|
                    0 <= i < ps.len() && i != actor ==> committed(#[trigger] nps[i]) == committed(
                        ps[i],
                    ) && nps[i].active == ps[i].active
            })
        },
    }
}

impl State {
    /// A field-for-field copy of the state.
    pub fn duplicate(&self) -> (c: State)
        ensures
            state_equal(c, *self),
    {
        let from_action: Option<ActionRecord> = match &self.from_action {
            Option::None => Option::None,
            Option::Some(rec) => Option::Some(
                ActionRecord {
                    player: rec.player,
                    stage: rec.stage,
                    action: rec.action,
                    legal_actions: copy_vec(&rec.legal_actions),
                },
            ),
        };
        State {
            current_player: self.current_player,
            players_state: copy_vec(&self.players_state),
            public_cards: copy_vec(&self.public_cards),
            stage: self.stage,
            button: self.button,
            from_action,
            legal_actions: copy_vec(&self.legal_actions),
            deck: copy_vec(&self.deck),
            pot: self.pot,
            min_bet: self.min_bet,
            final_state: self.final_state,
            status: self.status,
        }
    }

    /// Computes the unique successor state of this state under a proposed
    /// action.  The input is never touched; the result is always a fresh
    /// value.
    ///
    /// A state that is already terminal, or already stopped with an error,
    /// is returned unchanged (as a copy).  An action outside the legal set
    /// stops the hand with `IllegalAction`; a raise beyond the acting
    /// player's stake stops it with `HighBet`; both are reported as data,
    /// never raised.  Otherwise the action's chips move, the turn passes to
    /// the next active seat, the street closes once every active player has
    /// acted and matched the call level, and the hand ends by fold-out or at
    /// showdown, where the best 5-card hand (ties sharing) takes the pot.
    #[verifier::rlimit(100)]
    pub fn apply_action(&self, action: Action) -> (next: State)
        requires
            self.inv(),
        ensures
            next.inv(),
            !(self.status is Okay && !self.final_state) ==> state_equal(next, *self),
            self.status is Okay && !self.final_state && !self.legal_actions@.contains(
                action.action,
            ) ==> error_stop(next, *self, action, StateStatus::IllegalAction),
            self.status is Okay && !self.final_state && self.legal_actions@.contains(action.action)
                && action.action is Raise && raise_over_stake(*self, action) ==> error_stop(
                next,
                *self,
                action,
                StateStatus::HighBet,
            ),
            self.status is Okay && !self.final_state && self.legal_actions@.contains(action.action)
                && !(action.action is Raise && raise_over_stake(*self, action)) ==> action_applied(
                next,
                *self,
                action,
            ),
            self.from_action is Some || (self.status is Okay && !self.final_state)
                ==> next.from_action is Some,
    {
        match self.status {
            StateStatus::Okay => (),
            _ => {
                let c = self.duplicate();
                proof {
                    lemma_state_equal_inv(c, *self);
                }
                return c;
            },
        }
        if self.final_state {
            let c = self.duplicate();
            proof {
                lemma_state_equal_inv(c, *self);
            }
            return c;
        }

        let ghost gs = *self;
        let ghost ps = self.players_state@;
        let ghost actor = self.current_player as int;
        let n = self.players_state.len();

        let mut new_state = self.duplicate();
        new_state.from_action = Some(
            ActionRecord {
                player: self.current_player,
                action,
                stage: self.stage,
                legal_actions: copy_vec(&self.legal_actions),
            },
        );

        if !contains_action(&self.legal_actions, action.action) {
            new_state.status = StateStatus::IllegalAction;
            new_state.final_state = true;
            proof {
                assert(new_state.live_shape());
                assert(new_state.inv());
            }
            return new_state;
        }

        proof {
            // A legal action exists, so the hand is not at Showdown.
            if gs.stage is Showdown {
                assert(gs.legal_actions@.len() == 0);
            }
            assert(!(gs.stage is Showdown));
            assert(ps[actor].active);
            assert(chips(ps[actor]) <= sum_chips(ps)) by {
                assert forall|j: int| 0 <= j < ps.len() implies (|p: PlayerState| chips(p))(
                    #[trigger] ps[j],
                ) >= 0 by {}
                lemma_sum_by_member(ps, |p: PlayerState| chips(p), actor);
            }
            // The pot plus anything the actor can pay stays representable.
            crate::state::lemma_sum_by_add(
                ps,
                |q: PlayerState| committed(q),
                |q: PlayerState| q.stake as int,
                |q: PlayerState| chips(q),
            );
            assert forall|j: int| 0 <= j < ps.len() implies (|q: PlayerState| q.stake as int)(
                #[trigger] ps[j],
            ) >= 0 by {}
            lemma_sum_by_member(ps, |q: PlayerState| q.stake as int, actor);
            assert(sum_committed(ps) + ps[actor].stake <= sum_chips(ps));
        }

        let player = self.current_player as usize;

        match action.action {
            ActionEnum::Fold => {
                let mut p = new_state.players_state[player];
                p.active = false;
                p.pot_chips = p.pot_chips + p.bet_chips;
                p.bet_chips = 0;
                p.reward = -(p.pot_chips as i64);
                new_state.players_state[player] = p;
                proof {
                    lemma_sum_by_update(ps, |q: PlayerState| committed(q), actor, p);
                    lemma_sum_by_update(ps, |q: PlayerState| chips(q), actor, p);
                    lemma_sum_by_update(
                        ps,
                        |q: PlayerState| if q.active {
                            1int
                        } else {
                            0int
                        },
                        actor,
                        p,
                    );
                }
            },
            ActionEnum::Call => {
                let mut p = new_state.players_state[player];
                let owed = self.min_bet - p.bet_chips;
                p.bet_chips = p.bet_chips + owed;
                p.stake = p.stake - owed;
                new_state.players_state[player] = p;
                new_state.pot = new_state.pot + owed;
                proof {
                    lemma_sum_by_update(ps, |q: PlayerState| committed(q), actor, p);
                    lemma_sum_by_update(ps, |q: PlayerState| chips(q), actor, p);
                    lemma_sum_by_update(
                        ps,
                        |q: PlayerState| if q.active {
                            1int
                        } else {
                            0int
                        },
                        actor,
                        p,
                    );
                }
            },
            ActionEnum::Raise => {
                let mut p = new_state.players_state[player];
                let owed = self.min_bet - p.bet_chips;
                if action.amount > p.stake || owed > p.stake - action.amount {
                    new_state.status = StateStatus::HighBet;
                    new_state.final_state = true;
                    proof {
                        assert(new_state.live_shape());
                        assert(new_state.inv());
                    }
                    return new_state;
                }
                let bet = owed + action.amount;
                p.bet_chips = p.bet_chips + bet;
                p.stake = p.stake - bet;
                new_state.players_state[player] = p;
                new_state.pot = new_state.pot + bet;
                new_state.min_bet = p.bet_chips;
                proof {
                    lemma_sum_by_update(ps, |q: PlayerState| committed(q), actor, p);
                    lemma_sum_by_update(ps, |q: PlayerState| chips(q), actor, p);
                    lemma_sum_by_update(
                        ps,
                        |q: PlayerState| if q.active {
                            1int
                        } else {
                            0int
                        },
                        actor,
                        p,
                    );
                }
            },
            ActionEnum::Check => (),
        }

        {
            let mut p = new_state.players_state[player];
            p.last_stage_action = Some(action.action);
            proof {
                lemma_sum_by_update(new_state.players_state@, |q: PlayerState| committed(q), actor, p);
                lemma_sum_by_update(new_state.players_state@, |q: PlayerState| chips(q), actor, p);
                lemma_sum_by_update(
                    new_state.players_state@,
                    |q: PlayerState| if q.active {
                        1int
                    } else {
                        0int
                    },
                    actor,
                    p,
                );
            }
            new_state.players_state[player] = p;
        }

        // Advance to the next active seat, judged by the flags as they were
        // before the action.
        let next_seat_start = (self.current_player + 1) % (n as u64);
        proof {
            lemma_mod_division_less_than_divisor(gs.current_player as int + 1, n as int);
        }
        new_state.current_player = first_active_from(&self.players_state, next_seat_start);
        proof {
            // The seat found by the old flags is active under the new ones:
            // only the actor's seat changed, and only a fold deactivates it.
            // Were the found seat the actor's own after a fold, every other
            // seat would have been inactive already, contradicting the two
            // active players a live hand keeps.
            let nn = ps.len() as int;
            let start = next_seat_start as int;
            let cur = new_state.current_player as int;
            let mid = new_state.players_state@;
            if cur == actor && !mid[actor].active {
                assert(start == if actor + 1 < nn {
                    actor + 1
                } else {
                    0int
                }) by {
                    if actor + 1 < nn {
                        lemma_small_mod((actor + 1) as nat, nn as nat);
                    } else {
                        lemma_mod_add_multiples_vanish(0, nn);
                        lemma_small_mod(0nat, nn as nat);
                    }
                }
                assert((actor + nn - start) % nn == nn - 1) by {
                    if actor + 1 < nn {
                        lemma_small_mod((nn - 1) as nat, nn as nat);
                    } else {
                        lemma_mod_add_multiples_vanish(nn - 1, nn);
                        lemma_small_mod((nn - 1) as nat, nn as nat);
                    }
                }
                assert forall|j: int| 0 <= j < nn && j != actor implies !(#[trigger] ps[j]).active by {
                    let d: int = if j >= start {
                        j - start
                    } else {
                        j + nn - start
                    };
                    lemma_wrap_add(start, d, nn);
                    assert(wrap_seat(start, d, nn) == j);
                    if d == nn - 1 {
                        lemma_wrap_add(start, nn - 1, nn);
                        assert(j == actor);
                    }
                    assert(d < nn - 1);
                    assert(!ps[wrap_seat(start, d, nn)].active);
                }
                lemma_lone_active(ps, actor);
                assert(false);
            }
            if count_active(mid) >= 2 && !mid[cur].active {
                // the search seat is old-active, so it can only be the actor
                assert(cur == actor);
                assert(false);
            }
        }

        // The betting round closes when at least two players remain active,
        // every active player has acted this street, and all active bets
        // match the call level.
        let active_now = count_active_exec(&new_state.players_state);
        let multiple_active = active_now >= 2;

        let mut all_acted = true;
        let mut all_matched = true;
        for i in 0..n
            invariant
                n == new_state.players_state@.len(),
                all_acted == (forall|j: int|
                    0 <= j < i && (#[trigger] new_state.players_state@[j]).active
                        ==> new_state.players_state@[j].last_stage_action is Some),
                all_matched == (forall|j: int|
                    0 <= j < i && (#[trigger] new_state.players_state@[j]).active
                        ==> new_state.players_state@[j].bet_chips == new_state.min_bet),
        {
            let q = new_state.players_state[i];
            if q.active {
                if q.last_stage_action.is_none() {
                    all_acted = false;
                }
                if q.bet_chips != new_state.min_bet {
                    all_matched = false;
                }
            }
        }
        let round_ended = multiple_active && all_acted && all_matched;

        proof {
            // The computed closure test is the closure condition read off the
            // pre-action state.
            let mid = new_state.players_state@;
            assert(round_ended == round_closes(gs, action)) by {
                if multiple_active && all_acted && all_matched {
                    assert forall|i: int|
                        0 <= i < ps.len() && i != actor && (#[trigger] ps[i]).active implies ps[i].last_stage_action is Some && ps[i].bet_chips == (if action.action is Raise {
                        gs.min_bet + action.amount
                    } else {
                        gs.min_bet as int
                    }) by {
                        assert(mid[i] == ps[i]);
                        assert(mid[i].active);
                    }
                }
                if round_closes(gs, action) {
                    assert forall|i: int|
                        0 <= i < mid.len() && (#[trigger] mid[i]).active implies mid[i].last_stage_action is Some by {
                        if i != actor {
                            assert(mid[i] == ps[i] && ps[i].active);
                        }
                    }
                    assert forall|i: int|
                        0 <= i < mid.len() && (#[trigger] mid[i]).active implies mid[i].bet_chips == new_state.min_bet by {
                        if i != actor {
                            assert(mid[i] == ps[i] && ps[i].active);
                        }
                    }
                }
            }
        }

        proof {
            // Shape of the state right after the action's chips moved: only
            // the actor's seat changed, and its chips moved within the seat.
            let mid = new_state.players_state@;
            assert(mid.len() == ps.len());
            assert(forall|i: int| 0 <= i < mid.len() && i != actor ==> mid[i] == ps[i]);
            assert forall|i: int|
                0 <= i < mid.len() && (#[trigger] mid[i]).active implies mid[i].bet_chips
                <= new_state.min_bet by {}
            assert forall|i: int|
                0 <= i < mid.len() && !(#[trigger] mid[i]).active implies mid[i].bet_chips
                == 0 by {}
            assert forall|i: int, j: int|
                0 <= i < mid.len() && 0 <= j < mid.len() && (#[trigger] mid[i]).active && (
            #[trigger] mid[j]).active implies mid[i].pot_chips == mid[j].pot_chips by {}
            assert forall|i: int, j: int|
                0 <= i < mid.len() && 0 <= j < mid.len() implies chips(#[trigger] mid[i]) == chips(
                #[trigger] mid[j],
            ) by {}
            assert forall|i: int|
                0 <= i < mid.len() && (#[trigger] mid[i]).active implies new_state.min_bet
                <= mid[i].bet_chips + mid[i].stake by {
                if i != actor {
                    assert(chips(mid[i]) == chips(mid[actor]));
                    assert(mid[i].active && ps[i].active);
                    if action.action is Raise && mid[actor].active {
                        assert(mid[i].pot_chips == mid[actor].pot_chips);
                        assert(new_state.min_bet == mid[actor].bet_chips);
                    }
                }
            }
            assert(new_state.pot == sum_committed(mid));
            assert(sum_chips(mid) == sum_chips(ps));
            assert(new_state.min_bet >= gs.min_bet);
            assert(forall|i: int| 0 <= i < mid.len() ==> (#[trigger] mid[i]).player == i);
            assert forall|i: int|
                0 <= i < mid.len() && (#[trigger] mid[i]).active implies mid[i].reward == 0 by {}
            assert forall|i: int|
                0 <= i < mid.len() && !(#[trigger] mid[i]).active implies mid[i].reward
                == -committed(mid[i]) by {}
        }

        if round_ended {
            let ghost pre_adv = new_state.players_state@;
            new_state.to_next_stage();
            proof {
                // Closing the street moves bets into pot commitments and
                // changes no totals and no flags.
                let adv = new_state.players_state@;
                assert(adv.len() == pre_adv.len());
                assert forall|i: int| 0 <= i < adv.len() implies committed(#[trigger] adv[i])
                    == committed(pre_adv[i]) && chips(adv[i]) == chips(pre_adv[i]) && adv[i].active
                    == pre_adv[i].active && adv[i].reward == pre_adv[i].reward && adv[i].player
                    == pre_adv[i].player && adv[i].bet_chips == 0 by {}
                crate::state::lemma_sum_by_transfer(
                    adv,
                    |q: PlayerState| committed(q),
                    pre_adv,
                    |q: PlayerState| committed(q),
                );
                crate::state::lemma_sum_by_transfer(
                    adv,
                    |q: PlayerState| chips(q),
                    pre_adv,
                    |q: PlayerState| chips(q),
                );
                crate::state::lemma_sum_by_transfer(
                    adv,
                    |q: PlayerState| if q.active {
                        1int
                    } else {
                        0int
                    },
                    pre_adv,
                    |q: PlayerState| if q.active {
                        1int
                    } else {
                        0int
                    },
                );
            }
        }

        if active_now == 1 {
            let mut sole: u64 = 0;
            let mut found = false;
            for i in 0..n
                invariant
                    n == new_state.players_state@.len(),
                    found ==> exists|j: int|
                        0 <= j < n && (#[trigger] new_state.players_state@[j]).active && sole
                            == new_state.players_state@[j].player,
                    !found ==> forall|j: int|
                        0 <= j < i ==> !(#[trigger] new_state.players_state@[j]).active,
            {
                let q = new_state.players_state[i];
                if q.active && !found {
                    sole = q.player;
                    found = true;
                }
            }
            proof {
                if !found {
                    assert forall|j: int|
                        0 <= j < new_state.players_state@.len() implies (|p: PlayerState| if p.active {
                        1int
                    } else {
                        0int
                    })(#[trigger] new_state.players_state@[j]) <= 0 by {}
                    lemma_sum_by_nonpos(
                        new_state.players_state@,
                        |p: PlayerState| if p.active {
                            1int
                        } else {
                            0int
                        },
                    );
                }
            }
            proof {
                let cur_ps = new_state.players_state@;
                let j = choose|j: int|
                    0 <= j < n && (#[trigger] cur_ps[j]).active && sole == cur_ps[j].player;
                assert(sole < n as u64);
            }
            let winners = vec![sole];
            proof {
                assert(winners@ =~= seq![sole]);
                assert(winners_wf(new_state.players_state@, winners@));
            }
            let ghost pre_settle = new_state.players_state@;
            new_state.set_winners(winners);
            proof {
                let done = new_state.players_state@;
                assert(sum_rewards(done) == 0);
                assert(new_state.settled_shape()) by {
                    assert forall|i: int|
                        0 <= i < done.len() implies !(#[trigger] done[i]).active && done[i].bet_chips
                        == 0 && done[i].pot_chips == 0 by {
                        assert(done[i] == settled_player(pre_settle[i], seq![sole], losers_total(pre_settle, seq![sole]) / 1));
                    }
                }
                // the sole winner is a live seat, so every seat already out
                // of the hand keeps the loss recorded when it left
                let j = choose|j: int|
                    0 <= j < n && (#[trigger] pre_settle[j]).active && sole
                        == pre_settle[j].player;
                assert(sole == j as u64);
                assert forall|i: int|
                    0 <= i < pre_settle.len() && !(#[trigger] pre_settle[i]).active implies done[i].reward == -committed(
                    pre_settle[i],
                ) by {
                    assert(!seq![sole].contains(pre_settle[i].player)) by {
                        if seq![sole].contains(pre_settle[i].player) {
                            let kx = choose|kx: int|
                                0 <= kx < 1 && seq![sole][kx] == pre_settle[i].player;
                            assert(pre_settle[i].player == sole && pre_settle[i].player == i);
                        }
                    }
                }
                // nobody is active once the payoff is settled
                assert forall|i: int|
                    0 <= i < done.len() implies (|p: PlayerState| if p.active {
                    1int
                } else {
                    0int
                })(#[trigger] done[i]) <= 0 by {}
                lemma_sum_by_nonpos(
                    done,
                    |p: PlayerState| if p.active {
                        1int
                    } else {
                        0int
                    },
                );
                // settled chips never exceed the chips brought in
                assert forall|i: int| 0 <= i < done.len() implies (|q: PlayerState| chips(q))(
                    #[trigger] done[i],
                ) == (|q: PlayerState| q.stake as int)(pre_settle[i]) by {}
                lemma_sum_by_transfer(
                    done,
                    |q: PlayerState| chips(q),
                    pre_settle,
                    |q: PlayerState| q.stake as int,
                );
                assert forall|i: int|
                    0 <= i < pre_settle.len() implies (|q: PlayerState| q.stake as int)(
                    #[trigger] pre_settle[i],
                ) <= (|q: PlayerState| chips(q))(pre_settle[i]) by {}
                lemma_sum_by_le(
                    pre_settle,
                    |q: PlayerState| q.stake as int,
                    |q: PlayerState| chips(q),
                );
            }
        }

        let at_showdown = match new_state.stage {
            Stage::Showdown => true,
            _ => false,
        };
        if at_showdown && !new_state.final_state {
            let ghost board = new_state.public_cards@;
            let ghost adv = new_state.players_state@;
            let mut winners: Vec<u64> = Vec::new();
            let mut best: (u64, u64, u64) = (0, 0, 0);
            let mut have = false;
            for i in 0..n
                invariant
                    n == new_state.players_state@.len(),
                    new_state.public_cards@.len() == 5,
                    board == new_state.public_cards@,
                    adv == new_state.players_state@,
                    forall|j: int|
                        0 <= j < n ==> (#[trigger] new_state.players_state@[j]).player == j,
                    winners@.len() <= i,
                    have == (winners@.len() >= 1),
                    !have ==> forall|j: int|
                        0 <= j < i ==> !(#[trigger] new_state.players_state@[j]).active,
                    forall|k: int| 0 <= k < winners@.len() ==> (#[trigger] winners@[k]) < i,
                    forall|k: int| 0 <= k < winners@.len() ==> k <= (#[trigger] winners@[k]),
                    forall|k: int|
                        0 <= k < winners@.len() ==> new_state.players_state@[(
                        #[trigger] winners@[k]) as int].active,
                    forall|k1: int, k2: int|
                        0 <= k1 < k2 < winners@.len() ==> winners@[k1] < winners@[k2],
                    forall|k: int|
                        0 <= k < winners@.len() ==> best_rank_of(
                            pool_of(adv[(#[trigger] winners@[k]) as int].hand, board),
                        ) == rank_view(best),
                    have ==> forall|j: int|
                        0 <= j < i && (#[trigger] adv[j]).active ==> rank_le_spec(
                            rank_view(best),
                            best_rank_of(pool_of(adv[j].hand, board)),
                        ),
                    forall|j: int|
                        0 <= j < i && (#[trigger] adv[j]).active ==> (winners@.contains(j as u64)
                            <==> best_rank_of(pool_of(adv[j].hand, board)) == rank_view(best)),
            {
                let q = new_state.players_state[i];
                if q.active {
                    let rank = rank_hand(q.hand, &new_state.public_cards);
                    proof {
                        lemma_best_rank_fn(rank_view(rank), pool_of(q.hand, board));
                    }
                    let ghost old_winners = winners@;
                    let ghost old_best = best;
                    if !have {
                        winners.push(q.player);
                        best = rank;
                        have = true;
                        proof {
                            assert forall|j: int|
                                0 <= j < i + 1 && (#[trigger] adv[j]).active implies (
                            winners@.contains(j as u64) <==> best_rank_of(
                                pool_of(adv[j].hand, board),
                            ) == rank_view(best)) by {
                                if j < i {
                                    assert(!adv[j].active);
                                } else {
                                    assert(winners@[0] == i as u64);
                                    assert(winners@.contains(j as u64));
                                }
                            }
                        }
                    } else if rank_le(rank, best) {
                        if !rank_le(best, rank) {
                            // strictly better: a new sole leader
                            winners = Vec::new();
                        }
                        winners.push(q.player);
                        best = rank;
                        proof {
                            assert forall|j: int|
                                0 <= j < i + 1 && (#[trigger] adv[j]).active implies (
                            winners@.contains(j as u64) <==> best_rank_of(
                                pool_of(adv[j].hand, board),
                            ) == rank_view(best)) by {
                                let posts = winners@;
                                if j == i {
                                    assert(posts[posts.len() - 1] == i as u64);
                                    assert(posts.contains(j as u64));
                                } else if rank_view(old_best) == rank_view(rank) {
                                    // the leaders stay: membership is unchanged
                                    assert(posts.drop_last() =~= old_winners);
                                    if old_winners.contains(j as u64) {
                                        let kx = choose|kx: int|
                                            0 <= kx < old_winners.len() && old_winners[kx] == j as u64;
                                        assert(posts[kx] == j as u64);
                                        assert(posts.contains(j as u64));
                                    }
                                    if posts.contains(j as u64) {
                                        let kx = choose|kx: int|
                                            0 <= kx < posts.len() && posts[kx] == j as u64;
                                        assert(kx < posts.len() - 1);
                                        assert(old_winners[kx] == j as u64);
                                        assert(old_winners.contains(j as u64));
                                    }
                                } else {
                                    // a strictly stronger leader: the list was reset
                                    assert(rank_le_spec(rank_view(rank), rank_view(old_best))
                                        && rank_view(rank) != rank_view(old_best));
                                    assert(posts.len() == 1 && posts[0] == i as u64);
                                    assert(!posts.contains(j as u64)) by {
                                        if posts.contains(j as u64) {
                                            let kx = choose|kx: int|
                                                0 <= kx < posts.len() && posts[kx] == j as u64;
                                        }
                                    }
                                    // nobody processed earlier can match the new leader
                                    assert(rank_le_spec(rank_view(old_best), best_rank_of(
                                        pool_of(adv[j].hand, board),
                                    )));
                                }
                            }
                        }
                    } else {
                        proof {
                            assert(!rank_le_spec(rank_view(rank), rank_view(best)));
                            assert forall|j: int|
                                0 <= j < i + 1 && (#[trigger] adv[j]).active implies (
                            winners@.contains(j as u64) <==> best_rank_of(
                                pool_of(adv[j].hand, board),
                            ) == rank_view(best)) by {
                                if j == i {
                                    assert(!winners@.contains(i as u64)) by {
                                        if winners@.contains(i as u64) {
                                            let kx = choose|kx: int|
                                                0 <= kx < winners@.len() && winners@[kx] == i as u64;
                                            assert(winners@[kx] < i);
                                        }
                                    }
                                }
                            }
                        }
                    }
                }
            }
            proof {
                // the ranking pass always finds a live seat: the closed
                // round kept at least two
                if !have {
                    assert forall|j: int|
                        0 <= j < new_state.players_state@.len() implies (|p: PlayerState| if p.active {
                        1int
                    } else {
                        0int
                    })(#[trigger] new_state.players_state@[j]) <= 0 by {}
                    lemma_sum_by_nonpos(
                        new_state.players_state@,
                        |p: PlayerState| if p.active {
                            1int
                        } else {
                            0int
                        },
                    );
                    assert(false);
                }
            }
            if have {
                proof {
                    assert(winners@.len() <= n) by {
                        if winners@.len() > n {
                            assert(winners@[n as int] >= n && winners@[n as int] < n);
                        }
                    }
                    assert(winners_wf(new_state.players_state@, winners@));
                }
                let ghost w = winners@;
                let ghost pre_settle = new_state.players_state@;
                new_state.set_winners(winners);
                proof {
                    let done = new_state.players_state@;
                    let share = losers_total(pre_settle, w) / w.len() as int;
                    assert(-(w.len() as int) < sum_rewards(done) <= 0);
                    assert(new_state.settled_shape()) by {
                        assert forall|i: int|
                            0 <= i < done.len() implies !(#[trigger] done[i]).active
                            && done[i].bet_chips == 0 && done[i].pot_chips == 0 by {
                            assert(done[i] == settled_player(pre_settle[i], w, share));
                        }
                    }
                    // the winner list names live seats only, so every seat
                    // already out of the hand keeps the loss recorded when it
                    // left
                    assert forall|i: int|
                        0 <= i < pre_settle.len() && !(#[trigger] pre_settle[i]).active implies done[i].reward == -committed(
                        pre_settle[i],
                    ) by {
                        assert(!w.contains(pre_settle[i].player)) by {
                            if w.contains(pre_settle[i].player) {
                                let kx = choose|kx: int|
                                    0 <= kx < w.len() && w[kx] == pre_settle[i].player;
                                assert(pre_settle[(w[kx]) as int].active);
                                assert(pre_settle[i].player == i);
                            }
                        }
                    }
                    assert forall|i: int|
                        0 <= i < done.len() implies (|p: PlayerState| if p.active {
                        1int
                    } else {
                        0int
                    })(#[trigger] done[i]) <= 0 by {}
                    lemma_sum_by_nonpos(
                        done,
                        |p: PlayerState| if p.active {
                            1int
                        } else {
                            0int
                        },
                    );
                    assert forall|i: int| 0 <= i < done.len() implies (|q: PlayerState| chips(q))(
                        #[trigger] done[i],
                    ) == (|q: PlayerState| q.stake as int)(pre_settle[i]) by {}
                    lemma_sum_by_transfer(
                        done,
                        |q: PlayerState| chips(q),
                        pre_settle,
                        |q: PlayerState| q.stake as int,
                    );
                    assert forall|i: int|
                        0 <= i < pre_settle.len() implies (|q: PlayerState| q.stake as int)(
                        #[trigger] pre_settle[i],
                    ) <= (|q: PlayerState| chips(q))(pre_settle[i]) by {}
                    lemma_sum_by_le(
                        pre_settle,
                        |q: PlayerState| q.stake as int,
                        |q: PlayerState| chips(q),
                    );
                    // The collected list is exactly the specified winner set:
                    // a seat still in the hand wins exactly when its best
                    // hand matches the leading rank, which bounds every live
                    // seat's rank from below.
                    let leader = (w[0]) as int;
                    assert(pre_settle[leader].active && best_rank_of(
                        pool_of(adv[leader].hand, board),
                    ) == rank_view(best));
                    assert(board == gs.public_cards@);
                    assert forall|i: int|
                        0 <= i < pre_settle.len() implies (w.contains(pre_settle[i].player)
                        <==> showdown_winner(gs, action, ps[i])) by {
                        assert(pre_settle[i].player == i && ps[i].player == i);
                        assert(adv[i].hand == ps[i].hand);
                        assert(adv[i].active == stays_live(gs, action, ps[i]));
                        if adv[i].active {
                            let ri = best_rank_of(pool_of(ps[i].hand, gs.public_cards@));
                            if w.contains(pre_settle[i].player) {
                                let kx = choose|kx: int| 0 <= kx < w.len() && w[kx] == i as u64;
                                assert(ri == rank_view(best));
                                assert forall|j: int|
                                    0 <= j < ps.len() && stays_live(
                                    gs,
                                    action,
                                    #[trigger] ps[j],
                                ) implies rank_le_spec(ri, best_rank_of(
                                    pool_of(ps[j].hand, gs.public_cards@),
                                )) by {
                                    assert(ps[j].player == j && adv[j].active);
                                    assert(adv[j].hand == ps[j].hand);
                                }
                                assert(showdown_winner(gs, action, ps[i]));
                            }
                            if showdown_winner(gs, action, ps[i]) {
                                assert(adv[leader].active == stays_live(gs, action, ps[leader]));
                                assert(adv[leader].hand == ps[leader].hand);
                                assert(rank_le_spec(ri, rank_view(best)));
                                assert(rank_le_spec(rank_view(best), ri));
                                assert(ri == rank_view(best));
                                assert(w.contains(i as u64));
                            }
                        } else {
                            assert(!w.contains(pre_settle[i].player)) by {
                                if w.contains(pre_settle[i].player) {
                                    let kx = choose|kx: int|
                                        0 <= kx < w.len() && w[kx] == pre_settle[i].player;
                                    assert(pre_settle[(w[kx]) as int].active);
                                }
                            }
                            assert(!stays_live(gs, action, ps[i]));
                        }
                    }
                    // the two winner counts and loss totals agree
                    assert forall|i: int| 0 <= i < pre_settle.len() implies ind_winner(w)(
                        #[trigger] pre_settle[i],
                    ) == winner_ind(gs, action)(ps[i]) by {}
                    lemma_sum_by_transfer(pre_settle, ind_winner(w), ps, winner_ind(gs, action));
                    lemma_winner_count(pre_settle, w);
                    assert(showdown_winner_count(gs, action) == w.len());
                    assert forall|i: int| 0 <= i < pre_settle.len() implies loser_committed(w)(
                        #[trigger] pre_settle[i],
                    ) == (|p: PlayerState| if showdown_winner(gs, action, p) {
                        0int
                    } else {
                        committed_after(gs, action, p)
                    })(ps[i]) by {
                        assert(ps[i].player == i);
                        assert(committed(pre_settle[i]) == committed_after(gs, action, ps[i]));
                    }
                    lemma_sum_by_transfer(
                        pre_settle,
                        loser_committed(w),
                        ps,
                        |p: PlayerState| if showdown_winner(gs, action, p) {
                            0int
                        } else {
                            committed_after(gs, action, p)
                        },
                    );
                    assert(showdown_losses(gs, action) == losers_total(pre_settle, w));
                    // every reward is the specified one
                    assert forall|i: int|
                        0 <= i < done.len() implies (#[trigger] done[i]).reward == (
                    if showdown_winner(gs, action, ps[i]) {
                        showdown_losses(gs, action) / showdown_winner_count(gs, action)
                    } else {
                        -committed_after(gs, action, ps[i])
                    }) by {
                        assert(done[i] == settled_player(pre_settle[i], w, share));
                        assert(ps[i].player == i);
                        assert(committed(pre_settle[i]) == committed_after(gs, action, ps[i]));
                    }
                    assert(showdown_winner_count(gs, action) >= 1);
                    // the settled rewards sum to the negated division
                    // remainder of the even split
                    let lt = losers_total(pre_settle, w);
                    let kk = w.len() as int;
                    lemma_fundamental_div_mod(lt, kk);
                    lemma_mod_division_less_than_divisor(lt, kk);
                    assert(kk * (lt / kk) == (lt / kk) * kk) by (nonlinear_arith);
                    assert(sum_rewards(done) == -(lt % kk));
                }
            }
        }

        proof {
            // Stakes move only through the acting seat, and a seat not
            // acting changes only by street clearing or settlement.
            let endps = new_state.players_state@;
            assert forall|i: int| 0 <= i < ps.len() && i != actor implies (
            #[trigger] endps[i]).stake == ps[i].stake by {}
            assert(endps[actor].stake == new_state.players_state@[actor].stake);
            if !new_state.final_state {
                if round_ended {
                    assert forall|i: int|
                        0 <= i < ps.len() && i != actor implies #[trigger] endps[i]
                        == street_cleared(ps[i]) by {}
                } else {
                    assert forall|i: int|
                        0 <= i < ps.len() && i != actor implies #[trigger] endps[i] == ps[i] by {}
                }
            }
            // The street moved exactly when the round closed.
            if round_ended {
                assert(new_state.stage == gs.stage.next_spec());
                assert(gs.stage.next_spec() != gs.stage);
            } else {
                assert(new_state.stage == gs.stage);
            }
            // The hand ended exactly by fold-out or at showdown.
            if at_showdown {
                assert(round_ended && gs.stage is River);
            }
            if new_state.final_state {
                assert((action.action is Fold && count_active(ps) == 2) || (round_closes(
                    gs,
                    action,
                ) && gs.stage is River));
            }
            if !new_state.final_state {
                let fin = new_state.players_state@;
                assert(count_active(fin) == active_now);
                assert(count_active(fin) >= 2);
                assert(fin[new_state.current_player as int].active);
                assert forall|i: int|
                    0 <= i < fin.len() && (#[trigger] fin[i]).active implies fin[i].bet_chips
                    <= new_state.min_bet by {}
                assert forall|i: int|
                    0 <= i < fin.len() && !(#[trigger] fin[i]).active implies fin[i].bet_chips
                    == 0 by {}
                assert forall|i: int, j: int|
                    0 <= i < fin.len() && 0 <= j < fin.len() && (#[trigger] fin[i]).active && (
                #[trigger] fin[j]).active implies fin[i].pot_chips == fin[j].pot_chips by {}
                assert forall|i: int|
                    0 <= i < fin.len() && (#[trigger] fin[i]).active implies new_state.min_bet
                    <= fin[i].bet_chips + fin[i].stake by {}
                assert forall|i: int, j: int|
                    0 <= i < fin.len() && 0 <= j < fin.len() implies chips(#[trigger] fin[i])
                    == chips(#[trigger] fin[j]) by {}
                assert forall|i: int|
                    0 <= i < fin.len() && (#[trigger] fin[i]).active implies fin[i].reward
                    == 0 by {}
                assert forall|i: int|
                    0 <= i < fin.len() && !(#[trigger] fin[i]).active implies fin[i].reward
                    == -committed(fin[i]) by {}
                assert(new_state.pot == sum_committed(fin));
                assert(new_state.live_shape());
            }
        }
        new_state.legal_actions = legal_actions(&new_state);
        proof {
            crate::state::lemma_legal_spec_exclusive(new_state);
            assert(new_state.inv());
            assert(action_applied(new_state, gs, action));
        }
        new_state
    }
}


impl State {
    /// Builds a hand from a seed: a freshly generated full deck is shuffled
    /// by a deterministic seeded permutation and dealt as `from_deck` deals
    /// it, so the same seed always reproduces the same hand.
    pub fn from_seed(
        n_players: u64,
        button: u64,
        sb: u64,
        bb: u64,
        stake: u64,
        seed: u64,
    ) -> (result: Result<State, InitStateError>)
        requires
            (n_players as int) * (stake as int) <= i64::MAX as int,
        ensures
            constructs(
                result,
                n_players,
                button,
                sb,
                bb,
                stake,
                crate::shuffle::shuffle_of(crate::card::spec_deck(), seed),
            ),
            crate::shuffle::shuffle_of(crate::card::spec_deck(), seed).len() == 52,
    {
        let deck = crate::shuffle::shuffle_cards(Card::collect(), seed);
        proof {
            vstd::seq_lib::to_multiset_len(deck@);
            vstd::seq_lib::to_multiset_len(crate::card::spec_deck());
        }
        State::from_deck(n_players, button, sb, bb, stake, deck)
    }
}

} // verus!
