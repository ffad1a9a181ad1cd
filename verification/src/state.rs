//! Game state: per-player state, the table state, and the invariant that
//! every state reachable through the engine satisfies.

use vstd::prelude::*;
use crate::action::{ActionEnum, ActionRecord};
use crate::card::Card;
use crate::stage::Stage;

verus! {

/// Terminal error classification carried as data, never raised.
#[derive(Debug, Clone, Copy, PartialEq, Eq, Structural)]
pub enum StateStatus {
    Okay,
    IllegalAction,
    HighBet,
}

/// One seat at the table.
///
/// `bet_chips` is what the player has committed during the current street,
/// `pot_chips` what earlier streets moved into the pot, `stake` what is still
/// uncommitted.  `reward` is meaningful only once the hand is over: winners
/// receive an equal share of the losers' commitment, losers the negative of
/// their own.  `last_stage_action` remembers the kind of action taken during
/// the current street and is cleared when the street advances.
#[derive(Debug, Clone, Copy)]
pub struct PlayerState {
    pub player: u64,
    pub hand: (Card, Card),
    pub bet_chips: u64,
    pub pot_chips: u64,
    pub stake: u64,
    pub reward: i64,
    pub active: bool,
    pub last_stage_action: Option<ActionEnum>,
}

/// The full table state.  A value is created by a constructor and thereafter
/// only ever produces fresh successor values through `apply_action`; no state
/// is mutated in place after being returned to a caller.
#[derive(Debug, Clone)]
pub struct State {
    pub current_player: u64,
    pub players_state: Vec<PlayerState>,
    pub public_cards: Vec<Card>,
    pub stage: Stage,
    pub button: u64,
    pub from_action: Option<ActionRecord>,
    pub legal_actions: Vec<ActionEnum>,
    pub deck: Vec<Card>,
    pub pot: u64,
    pub min_bet: u64,
    pub final_state: bool,
    pub status: StateStatus,
}

/// Chips committed by one player so far: current street plus earlier streets.
pub open spec fn committed(p: PlayerState) -> int {
    p.pot_chips + p.bet_chips
}

/// All chips a player brought to the table: committed plus uncommitted.
pub open spec fn chips(p: PlayerState) -> int {
    p.pot_chips + p.bet_chips + p.stake
}

/// Sum of `f` over a sequence of seats.
pub open spec fn sum_by(ps: Seq<PlayerState>, f: spec_fn(PlayerState) -> int) -> int
    decreases ps.len(),
{
    if ps.len() == 0 {
        0
    } else {
        sum_by(ps.drop_last(), f) + f(ps.last())
    }
}

/// Total chips committed by all seats.
pub open spec fn sum_committed(ps: Seq<PlayerState>) -> int {
    sum_by(ps, |p: PlayerState| committed(p))
}

/// Total chips brought to the table by all seats.
pub open spec fn sum_chips(ps: Seq<PlayerState>) -> int {
    sum_by(ps, |p: PlayerState| chips(p))
}

/// Sum of all rewards.
pub open spec fn sum_rewards(ps: Seq<PlayerState>) -> int {
    sum_by(ps, |p: PlayerState| p.reward as int)
}

/// How many seats are still active.
pub open spec fn count_active(ps: Seq<PlayerState>) -> int {
    sum_by(ps, |p: PlayerState| if p.active { 1int } else { 0int })
}

pub proof fn lemma_sum_by_update(
    ps: Seq<PlayerState>,
    f: spec_fn(PlayerState) -> int,
    i: int,
    q: PlayerState,
)
    requires
        0 <= i < ps.len(),
    ensures
        sum_by(ps.update(i, q), f) == sum_by(ps, f) - f(ps[i]) + f(q),
    decreases ps.len(),
{
    if i == ps.len() - 1 {
        assert(ps.update(i, q).drop_last() =~= ps.drop_last());
        assert(ps.update(i, q).last() == q);
    } else {
        assert(ps.update(i, q).drop_last() =~= ps.drop_last().update(i, q));
        assert(ps.update(i, q).last() == ps.last());
        lemma_sum_by_update(ps.drop_last(), f, i, q);
    }
}

/// A sum of pointwise-bounded terms is bounded by the sum of the bounds.
pub proof fn lemma_sum_by_le(
    ps: Seq<PlayerState>,
    f: spec_fn(PlayerState) -> int,
    g: spec_fn(PlayerState) -> int,
)
    requires
        forall|i: int| 0 <= i < ps.len() ==> f(#[trigger] ps[i]) <= g(ps[i]),
    ensures
        sum_by(ps, f) <= sum_by(ps, g),
    decreases ps.len(),
{
    if ps.len() > 0 {
        assert(ps.last() == ps[ps.len() - 1]);
        assert(forall|i: int|
            0 <= i < ps.drop_last().len() ==> f(#[trigger] ps.drop_last()[i]) <= g(
                ps.drop_last()[i],
            ));
        lemma_sum_by_le(ps.drop_last(), f, g);
    }
}

/// A sum of non-positive terms is non-positive.
pub proof fn lemma_sum_by_nonpos(ps: Seq<PlayerState>, f: spec_fn(PlayerState) -> int)
    requires
        forall|i: int| 0 <= i < ps.len() ==> f(#[trigger] ps[i]) <= 0,
    ensures
        sum_by(ps, f) <= 0,
    decreases ps.len(),
{
    if ps.len() > 0 {
        assert(ps.last() == ps[ps.len() - 1]);
        assert(forall|i: int| 0 <= i < ps.drop_last().len() ==> f(#[trigger] ps.drop_last()[i]) <= 0);
        lemma_sum_by_nonpos(ps.drop_last(), f);
    }
}

/// Every term of a sum is bounded by the whole sum of non-negative terms.
pub proof fn lemma_sum_by_member(ps: Seq<PlayerState>, f: spec_fn(PlayerState) -> int, i: int)
    requires
        0 <= i < ps.len(),
        forall|j: int| 0 <= j < ps.len() ==> f(#[trigger] ps[j]) >= 0,
    ensures
        f(ps[i]) <= sum_by(ps, f),
    decreases ps.len(),
{
    assert(ps.last() == ps[ps.len() - 1]);
    assert(forall|j: int| 0 <= j < ps.drop_last().len() ==> f(#[trigger] ps.drop_last()[j]) >= 0);
    if i == ps.len() - 1 {
        lemma_sum_by_nonneg(ps.drop_last(), f);
    } else {
        lemma_sum_by_member(ps.drop_last(), f, i);
    }
}

/// A sum of non-negative terms is non-negative.
pub proof fn lemma_sum_by_nonneg(ps: Seq<PlayerState>, f: spec_fn(PlayerState) -> int)
    requires
        forall|i: int| 0 <= i < ps.len() ==> f(#[trigger] ps[i]) >= 0,
    ensures
        sum_by(ps, f) >= 0,
    decreases ps.len(),
{
    if ps.len() > 0 {
        assert(ps.last() == ps[ps.len() - 1]);
        assert(forall|i: int| 0 <= i < ps.drop_last().len() ==> f(#[trigger] ps.drop_last()[i]) >= 0);
        lemma_sum_by_nonneg(ps.drop_last(), f);
    }
}

impl State {
    /// The action kinds legal for the current player: everything, minus Call
    /// when there is nothing to call, minus Check when there is, and nothing
    /// at all once the hand has reached Showdown or a terminal state.
    pub open spec fn legal_actions_spec(self) -> Seq<ActionEnum> {
        if self.stage is Showdown || self.final_state {
            Seq::empty()
        } else if self.min_bet == 0 {
            seq![ActionEnum::Fold, ActionEnum::Check, ActionEnum::Raise]
        } else {
            seq![ActionEnum::Fold, ActionEnum::Call, ActionEnum::Raise]
        }
    }

    /// Number of seats.
    pub open spec fn n_players(self) -> int {
        self.players_state@.len() as int
    }

    /// Financial shape of a hand still in play (also of the snapshot kept by a
    /// terminal error state): seats are indexed by position, inactive seats
    /// have nothing on the street and their loss already recorded, active
    /// seats are level with each other from earlier streets, nobody is above
    /// the call level, and everybody can afford it.
    pub open spec fn live_shape(self) -> bool {
        let ps = self.players_state@;
        &&& count_active(ps) >= 2
        &&& ps[self.current_player as int].active
        &&& forall|i: int|
            0 <= i < ps.len() && (#[trigger] ps[i]).active ==> ps[i].bet_chips <= self.min_bet
        &&& forall|i: int|
            0 <= i < ps.len() && !(#[trigger] ps[i]).active ==> ps[i].bet_chips == 0
        &&& forall|i: int, j: int|
            0 <= i < ps.len() && 0 <= j < ps.len() && (#[trigger] ps[i]).active && (
            #[trigger] ps[j]).active ==> ps[i].pot_chips == ps[j].pot_chips
        &&& forall|i: int|
            0 <= i < ps.len() && (#[trigger] ps[i]).active ==> self.min_bet <= ps[i].bet_chips
                + ps[i].stake
        &&& forall|i: int, j: int|
            0 <= i < ps.len() && 0 <= j < ps.len() ==> chips(#[trigger] ps[i]) == chips(
                #[trigger] ps[j],
            )
        &&& forall|i: int| 0 <= i < ps.len() && (#[trigger] ps[i]).active ==> ps[i].reward == 0
        &&& forall|i: int|
            0 <= i < ps.len() && !(#[trigger] ps[i]).active ==> ps[i].reward == -committed(ps[i])
        &&& self.pot == sum_committed(ps)
    }

    /// Shape of a state settled by payoff distribution: every seat inactive
    /// with its commitment paid out, and the rewards summing to zero up to the
    /// integer remainder of the even split among the winners.
    pub open spec fn settled_shape(self) -> bool {
        let ps = self.players_state@;
        &&& forall|i: int|
            0 <= i < ps.len() ==> !(#[trigger] ps[i]).active && ps[i].bet_chips == 0
                && ps[i].pot_chips == 0
        &&& -ps.len() < sum_rewards(ps) <= 0
    }

    /// The invariant of every state the engine returns.  Constructors
    /// establish it and `apply_action` preserves it.
    pub open spec fn inv(self) -> bool {
        let ps = self.players_state@;
        &&& ps.len() >= 2
        &&& self.current_player < ps.len()
        &&& self.button < ps.len()
        &&& forall|i: int| 0 <= i < ps.len() ==> (#[trigger] ps[i]).player == i
        &&& self.public_cards@.len() == self.stage.public_cards_spec()
        &&& self.deck@.len() + self.public_cards@.len() >= 5
        &&& self.status is Okay ==> self.legal_actions@ == self.legal_actions_spec()
        &&& !(self.legal_actions@.contains(ActionEnum::Check) && self.legal_actions@.contains(
            ActionEnum::Call,
        ))
        &&& sum_chips(ps) <= i64::MAX
        &&& !(self.status is Okay) ==> self.final_state
        &&& (self.final_state && self.status is Okay) ==> self.settled_shape()
        &&& (!self.final_state || !(self.status is Okay)) ==> self.live_shape()
    }
}

/// The legal-action set of an invariant-respecting state never contains Check
/// and Call at the same time: with nothing to call Check stands and Call does
/// not, otherwise the reverse.
pub proof fn lemma_check_call_exclusive(s: State)
    requires
        s.inv(),
    ensures
        !(s.legal_actions@.contains(ActionEnum::Check) && s.legal_actions@.contains(
            ActionEnum::Call,
        )),
{
}

/// The computed legal-action set never holds Check and Call together: the
/// street's call level decides which of the two stands.
pub proof fn lemma_legal_spec_exclusive(s: State)
    ensures
        !(s.legal_actions_spec().contains(ActionEnum::Check) && s.legal_actions_spec().contains(
            ActionEnum::Call,
        )),
        s.legal_actions_spec().contains(ActionEnum::Call) ==> s.min_bet != 0,
        !(s.stage is Showdown || s.final_state) && s.min_bet == 0 ==> s.legal_actions_spec()
            .contains(ActionEnum::Check),
        !(s.stage is Showdown || s.final_state) && s.min_bet != 0 ==> s.legal_actions_spec()
            .contains(ActionEnum::Call),
{
    let legal = s.legal_actions_spec();
    if s.stage is Showdown || s.final_state {
        assert(forall|i: int| 0 <= i < legal.len() ==> legal[i] != ActionEnum::Check);
        assert(!legal.contains(ActionEnum::Check));
    } else if s.min_bet == 0 {
        assert(forall|i: int| 0 <= i < legal.len() ==> legal[i] != ActionEnum::Call);
        assert(!legal.contains(ActionEnum::Call));
        assert(legal[1] == ActionEnum::Check);
    } else {
        assert(forall|i: int| 0 <= i < legal.len() ==> legal[i] != ActionEnum::Check);
        assert(!legal.contains(ActionEnum::Check));
        assert(legal[1] == ActionEnum::Call);
    }
}

/// At a terminal state the rewards never sum to a positive amount, and at a
/// terminal state settled by a payoff they sum to zero up to the integer
/// remainder of the even split: strictly above the negated number of seats.
pub proof fn lemma_zero_sum(s: State)
    requires
        s.inv(),
        s.final_state,
    ensures
        sum_rewards(s.players_state@) <= 0,
        s.status is Okay ==> -s.n_players() < sum_rewards(s.players_state@),
{
    let ps = s.players_state@;
    if s.status is Okay {
        assert(s.settled_shape());
    } else {
        assert(s.live_shape());
        let f = |p: PlayerState| p.reward as int;
        assert forall|i: int| 0 <= i < ps.len() implies f(#[trigger] ps[i]) <= 0 by {
            if ps[i].active {
            } else {
                assert(ps[i].reward == -committed(ps[i]));
            }
        }
        lemma_sum_by_nonpos(ps, f);
    }
}


/// Per-seat indicator of carrying the player number `v`.
pub open spec fn ind_player(v: u64) -> spec_fn(PlayerState) -> int {
    |p: PlayerState| if p.player == v {
        1int
    } else {
        0int
    }
}

/// Per-seat indicator of belonging to the winner list `w`.
pub open spec fn ind_winner(w: Seq<u64>) -> spec_fn(PlayerState) -> int {
    |p: PlayerState| if w.contains(p.player) {
        1int
    } else {
        0int
    }
}

/// Per-seat commitment of the seats outside the winner list `w`.
pub open spec fn loser_committed(w: Seq<u64>) -> spec_fn(PlayerState) -> int {
    |p: PlayerState| if w.contains(p.player) {
        0int
    } else {
        committed(p)
    }
}

/// Total chips committed by the seats outside the winner list.
pub open spec fn losers_total(ps: Seq<PlayerState>, w: Seq<u64>) -> int {
    sum_by(ps, loser_committed(w))
}

/// A winner list is well formed for a seat sequence when it is non-empty,
/// names existing seats, and names no seat twice.
pub open spec fn winners_wf(ps: Seq<PlayerState>, w: Seq<u64>) -> bool {
    &&& w.len() >= 1
    &&& forall|k: int| 0 <= k < w.len() ==> (#[trigger] w[k]) < ps.len()
    &&& forall|k1: int, k2: int| 0 <= k1 < k2 < w.len() ==> w[k1] != w[k2]
}

pub proof fn lemma_sum_by_split(ps: Seq<PlayerState>, f: spec_fn(PlayerState) -> int, i: int)
    requires
        0 <= i <= ps.len(),
    ensures
        sum_by(ps, f) == sum_by(ps.subrange(0, i), f) + sum_by(ps.subrange(i, ps.len() as int), f),
    decreases ps.len(),
{
    if i == ps.len() {
        assert(ps.subrange(0, i) =~= ps);
    } else {
        let dl = ps.drop_last();
        lemma_sum_by_split(dl, f, i);
        assert(ps.subrange(0, i) =~= dl.subrange(0, i));
        assert(ps.subrange(i, ps.len() as int).drop_last() =~= dl.subrange(i, dl.len() as int));
        assert(ps.subrange(i, ps.len() as int).last() == ps.last());
    }
}

pub proof fn lemma_sum_by_add(
    ps: Seq<PlayerState>,
    f: spec_fn(PlayerState) -> int,
    g: spec_fn(PlayerState) -> int,
    h: spec_fn(PlayerState) -> int,
)
    requires
        forall|i: int| 0 <= i < ps.len() ==> h(#[trigger] ps[i]) == f(ps[i]) + g(ps[i]),
    ensures
        sum_by(ps, h) == sum_by(ps, f) + sum_by(ps, g),
    decreases ps.len(),
{
    if ps.len() > 0 {
        assert(ps.last() == ps[ps.len() - 1]);
        assert(forall|i: int|
            0 <= i < ps.drop_last().len() ==> h(#[trigger] ps.drop_last()[i]) == f(
                ps.drop_last()[i],
            ) + g(ps.drop_last()[i]));
        lemma_sum_by_add(ps.drop_last(), f, g, h);
    }
}

/// No seat carries a player number at or beyond the seat count, so the
/// indicator of such a number sums to zero.
pub proof fn lemma_ind_player_absent(ps: Seq<PlayerState>, v: u64)
    requires
        forall|i: int| 0 <= i < ps.len() ==> (#[trigger] ps[i]).player == i,
        ps.len() <= v,
    ensures
        sum_by(ps, ind_player(v)) == 0,
    decreases ps.len(),
{
    if ps.len() > 0 {
        assert(ps.last() == ps[ps.len() - 1]);
        assert(forall|i: int|
            0 <= i < ps.drop_last().len() ==> (#[trigger] ps.drop_last()[i]).player == i);
        lemma_ind_player_absent(ps.drop_last(), v);
        assert(ind_player(v)(ps.last()) == 0);
    }
}

/// Exactly one seat carries an existing player number.
pub proof fn lemma_ind_player_unique(ps: Seq<PlayerState>, v: u64)
    requires
        forall|i: int| 0 <= i < ps.len() ==> (#[trigger] ps[i]).player == i,
        v < ps.len(),
    ensures
        sum_by(ps, ind_player(v)) == 1,
    decreases ps.len(),
{
    assert(ps.last() == ps[ps.len() - 1]);
    assert(forall|i: int|
        0 <= i < ps.drop_last().len() ==> (#[trigger] ps.drop_last()[i]).player == i);
    if v == ps.len() - 1 {
        lemma_ind_player_absent(ps.drop_last(), v);
    } else {
        lemma_ind_player_unique(ps.drop_last(), v);
        assert(ind_player(v)(ps.last()) == 0);
    }
}

/// A well-formed winner list hits exactly one seat per entry: the indicator
/// of the list sums to the length of the list.
pub proof fn lemma_winner_count(ps: Seq<PlayerState>, w: Seq<u64>)
    requires
        forall|i: int| 0 <= i < ps.len() ==> (#[trigger] ps[i]).player == i,
        forall|k: int| 0 <= k < w.len() ==> (#[trigger] w[k]) < ps.len(),
        forall|k1: int, k2: int| 0 <= k1 < k2 < w.len() ==> w[k1] != w[k2],
    ensures
        sum_by(ps, ind_winner(w)) == w.len(),
    decreases w.len(),
{
    if w.len() == 0 {
        assert forall|i: int| 0 <= i < ps.len() implies ind_winner(w)(#[trigger] ps[i]) == 0 by {
            assert(!w.contains(ps[i].player));
        }
        lemma_sum_by_nonpos(ps, ind_winner(w));
        lemma_sum_by_nonneg(ps, ind_winner(w));
    } else {
        let dl = w.drop_last();
        let v = w.last();
        assert(forall|k: int| 0 <= k < dl.len() ==> (#[trigger] dl[k]) < ps.len());
        assert(forall|k1: int, k2: int| 0 <= k1 < k2 < dl.len() ==> dl[k1] != dl[k2]);
        lemma_winner_count(ps, dl);
        lemma_ind_player_unique(ps, v);
        assert(!dl.contains(v)) by {
            if dl.contains(v) {
                let k = choose|k: int| 0 <= k < dl.len() && dl[k] == v;
                assert(w[k] == w[w.len() - 1]);
            }
        }
        assert forall|i: int| 0 <= i < ps.len() implies ind_winner(w)(#[trigger] ps[i])
            == ind_winner(dl)(ps[i]) + ind_player(v)(ps[i]) by {
            let p = ps[i];
            if w.contains(p.player) {
                let k = choose|k: int| 0 <= k < w.len() && w[k] == p.player;
                if k < w.len() - 1 {
                    assert(dl[k] == p.player);
                    assert(dl.contains(p.player));
                    assert(p.player != v);
                } else {
                    assert(p.player == v);
                }
            } else {
                assert(!dl.contains(p.player)) by {
                    if dl.contains(p.player) {
                        let k = choose|k: int| 0 <= k < dl.len() && dl[k] == p.player;
                        assert(w[k] == p.player);
                    }
                }
                assert(p.player != v) by {
                    if p.player == v {
                        assert(w[w.len() - 1] == p.player);
                    }
                }
            }
        }
        lemma_sum_by_add(ps, ind_winner(dl), ind_player(v), ind_winner(w));
    }
}


/// A sum of constant terms is the constant times the seat count.
pub proof fn lemma_sum_by_const(ps: Seq<PlayerState>, f: spec_fn(PlayerState) -> int, c: int)
    requires
        forall|i: int| 0 <= i < ps.len() ==> f(#[trigger] ps[i]) == c,
    ensures
        sum_by(ps, f) == c * ps.len(),
    decreases ps.len(),
{
    if ps.len() == 0 {
        assert(c * 0 == 0) by (nonlinear_arith);
    } else {
        assert(ps.last() == ps[ps.len() - 1]);
        assert(forall|i: int| 0 <= i < ps.drop_last().len() ==> f(#[trigger] ps.drop_last()[i]) == c);
        lemma_sum_by_const(ps.drop_last(), f, c);
        assert(c * (ps.len() - 1) + c == c * ps.len()) by (nonlinear_arith);
    }
}

/// The committed chips of a table where only seats `a` and `b` have posted
/// (the blinds) sum to the two posted amounts.
pub proof fn lemma_sum_two_blinds(ps: Seq<PlayerState>, a: int, b: int, sb: u64, bb: u64)
    requires
        a != b,
        forall|q: int|
            0 <= q < ps.len() ==> committed(#[trigger] ps[q]) == (if q == a {
                sb as int
            } else if q == b {
                bb as int
            } else {
                0int
            }),
    ensures
        sum_committed(ps) == (if 0 <= a < ps.len() {
            sb as int
        } else {
            0int
        }) + (if 0 <= b < ps.len() {
            bb as int
        } else {
            0int
        }),
    decreases ps.len(),
{
    if ps.len() > 0 {
        assert(ps.last() == ps[ps.len() - 1]);
        assert(forall|q: int|
            0 <= q < ps.drop_last().len() ==> committed(#[trigger] ps.drop_last()[q]) == (if q == a {
                sb as int
            } else if q == b {
                bb as int
            } else {
                0int
            }));
        lemma_sum_two_blinds(ps.drop_last(), a, b, sb, bb);
    }
}


/// Sums over two same-length seat sequences with pointwise-equal terms agree.
pub proof fn lemma_sum_by_transfer(
    ps1: Seq<PlayerState>,
    f1: spec_fn(PlayerState) -> int,
    ps2: Seq<PlayerState>,
    f2: spec_fn(PlayerState) -> int,
)
    requires
        ps1.len() == ps2.len(),
        forall|i: int| 0 <= i < ps1.len() ==> f1(#[trigger] ps1[i]) == f2(ps2[i]),
    ensures
        sum_by(ps1, f1) == sum_by(ps2, f2),
    decreases ps1.len(),
{
    if ps1.len() > 0 {
        assert(ps1.last() == ps1[ps1.len() - 1]);
        assert(ps2.last() == ps2[ps2.len() - 1]);
        assert(forall|i: int|
            0 <= i < ps1.drop_last().len() ==> f1(#[trigger] ps1.drop_last()[i]) == f2(
                ps2.drop_last()[i],
            ));
        lemma_sum_by_transfer(ps1.drop_last(), f1, ps2.drop_last(), f2);
    }
}

/// A sum of terms that are a fixed linear combination of two other terms is
/// that combination of the two sums.
pub proof fn lemma_sum_by_linear(
    ps: Seq<PlayerState>,
    f: spec_fn(PlayerState) -> int,
    g: spec_fn(PlayerState) -> int,
    h: spec_fn(PlayerState) -> int,
    c: int,
)
    requires
        forall|i: int| 0 <= i < ps.len() ==> h(#[trigger] ps[i]) == c * f(ps[i]) - g(ps[i]),
    ensures
        sum_by(ps, h) == c * sum_by(ps, f) - sum_by(ps, g),
    decreases ps.len(),
{
    if ps.len() == 0 {
        assert(c * 0 == 0) by (nonlinear_arith);
    } else {
        assert(ps.last() == ps[ps.len() - 1]);
        assert(forall|i: int|
            0 <= i < ps.drop_last().len() ==> h(#[trigger] ps.drop_last()[i]) == c * f(
                ps.drop_last()[i],
            ) - g(ps.drop_last()[i]));
        lemma_sum_by_linear(ps.drop_last(), f, g, h, c);
        let sf = sum_by(ps.drop_last(), f);
        let lf = f(ps.last());
        assert(c * sf + c * lf == c * (sf + lf)) by (nonlinear_arith);
    }
}


/// Two audit records hold the same data.
pub open spec fn record_opt_equal(a: Option<ActionRecord>, b: Option<ActionRecord>) -> bool {
    match (a, b) {
        (Option::None, Option::None) => true,
        (Option::Some(x), Option::Some(y)) => {
            &&& x.player == y.player
            &&& x.stage == y.stage
            &&& x.action == y.action
            &&& x.legal_actions@ == y.legal_actions@
        },
        _ => false,
    }
}

/// Two states hold the same data, field for field.
pub open spec fn state_equal(a: State, b: State) -> bool {
    &&& a.current_player == b.current_player
    &&& a.players_state@ == b.players_state@
    &&& a.public_cards@ == b.public_cards@
    &&& a.stage == b.stage
    &&& a.button == b.button
    &&& record_opt_equal(a.from_action, b.from_action)
    &&& a.legal_actions@ == b.legal_actions@
    &&& a.deck@ == b.deck@
    &&& a.pot == b.pot
    &&& a.min_bet == b.min_bet
    &&& a.final_state == b.final_state
    &&& a.status == b.status
}

/// The invariant depends only on the data a state holds, so it carries over
/// to an equal state.
pub proof fn lemma_state_equal_inv(a: State, b: State)
    requires
        state_equal(a, b),
        b.inv(),
    ensures
        a.inv(),
{
    assert(a.legal_actions_spec() == b.legal_actions_spec());
}

} // verus!
