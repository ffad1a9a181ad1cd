use pokers::action::{Action, ActionEnum};
use pokers::card::{Card, CardRank, CardSuit};
use pokers::game_logic::legal_actions;
use pokers::hand::{high_card_value, rank_card_combination, rank_hand, rank_le};
use pokers::stage::Stage;
use pokers::state::{State, StateStatus};

fn card(code: &str) -> Card {
    Card::from_string(code.to_string()).unwrap()
}

fn cards(codes: &[&str]) -> Vec<Card> {
    codes.iter().map(|c| card(c)).collect()
}

#[test]
fn parse_card_codes() {
    // a code is rank character first, suit character second
    assert_eq!(card("AS"), Card::new(CardSuit::Spades, CardRank::RA));
    assert_eq!(card("2c"), Card::new(CardSuit::Clubs, CardRank::R2));
    assert_eq!(card("Th"), Card::new(CardSuit::Hearts, CardRank::RT));
    assert_eq!(card("KD"), Card::new(CardSuit::Diamonds, CardRank::RK));
    // the rank character is case-sensitive, the suit character is not
    assert!(Card::from_string("as".to_string()).is_none());
    assert!(Card::from_string("1S".to_string()).is_none());
    assert!(Card::from_string("AX".to_string()).is_none());
    assert!(Card::from_string("A".to_string()).is_none());
    assert!(Card::from_string("ASA".to_string()).is_none());
    assert!(Card::from_string("".to_string()).is_none());
}

#[test]
fn full_deck_is_suit_major() {
    let deck = Card::collect();
    assert_eq!(deck.len(), 52);
    assert_eq!(deck[0], Card::new(CardSuit::Clubs, CardRank::R2));
    assert_eq!(deck[12], Card::new(CardSuit::Clubs, CardRank::RA));
    assert_eq!(deck[13], Card::new(CardSuit::Diamonds, CardRank::R2));
    assert_eq!(deck[51], Card::new(CardSuit::Spades, CardRank::RA));
    for i in 0..52 {
        for j in (i + 1)..52 {
            assert_ne!(deck[i], deck[j]);
        }
    }
}

#[test]
fn constructor_rejections() {
    let deck = Card::collect;
    let e = State::from_deck(1, 0, 1, 2, 200, deck()).err().unwrap();
    assert_eq!(e.msg, "The number of players must be 2 or more");
    let e = State::from_deck(2, 2, 1, 2, 200, deck()).err().unwrap();
    assert_eq!(e.msg, "The button must be between the players");
    let e = State::from_deck(30, 0, 1, 2, 200, deck()).err().unwrap();
    assert_eq!(e.msg, "The number of cards in the deck must be at least 2*n_players");
    let e = State::from_deck(2, 0, 3, 2, 200, deck()).err().unwrap();
    assert_eq!(e.msg, "The small blind must be smaller or equal than the big blind");
    let e = State::from_deck(2, 0, 1, 2, 1, deck()).err().unwrap();
    assert_eq!(e.msg, "The stake must be greater or equal than the big blind");
}

// Heads-up construction: the seat after the button posts the small blind,
// the button itself (two seats on, wrapping) posts the big blind, and the
// first player to act sits three seats after the button.
#[test]
fn heads_up_blind_seats() {
    let deck = Card::collect();
    let state = State::from_deck(2, 0, 1, 2, 200, deck.clone()).unwrap();
    assert_eq!(state.current_player, (0 + 3) % 2);
    assert_eq!(state.players_state.len(), 2);
    // player 1 sits right after the button: small blind
    assert_eq!(state.players_state[1].bet_chips, 1);
    assert_eq!(state.players_state[1].stake, 199);
    // player 0 (the button) posts the big blind in heads-up play
    assert_eq!(state.players_state[0].bet_chips, 2);
    assert_eq!(state.players_state[0].stake, 198);
    assert_eq!(state.pot, 3);
    assert_eq!(state.min_bet, 2);
    assert!(matches!(state.stage, Stage::Preflop));
    assert!(state.from_action.is_none());
    // hole cards are dealt two at a time in seat order
    assert_eq!(state.players_state[1].hand.0, deck[0]);
    assert_eq!(state.players_state[1].hand.1, deck[1]);
    assert_eq!(state.players_state[0].hand.0, deck[2]);
    assert_eq!(state.players_state[0].hand.1, deck[3]);
    assert_eq!(state.deck.len(), 48);
}

#[test]
fn three_player_blind_seats() {
    let state = State::from_deck(3, 0, 1, 2, 200, Card::collect()).unwrap();
    assert_eq!(state.current_player, (0 + 3) % 3);
    assert_eq!(state.players_state[1].stake, 199);
    assert_eq!(state.players_state[2].stake, 198);
    assert_eq!(state.players_state[0].stake, 200);
    assert_eq!(state.pot, 3);
}

#[test]
fn legal_actions_exclude_call_or_check() {
    let state = State::from_deck(2, 0, 1, 2, 200, Card::collect()).unwrap();
    // a blind is due: Call stands, Check does not
    assert_eq!(state.legal_actions, vec![ActionEnum::Fold, ActionEnum::Call, ActionEnum::Raise]);
    assert_eq!(legal_actions(&state), state.legal_actions);
    // play to the flop: nothing is due, Check stands, Call does not
    let state = state.apply_action(Action::new(ActionEnum::Call, 0));
    let state = state.apply_action(Action::new(ActionEnum::Call, 0));
    assert!(matches!(state.stage, Stage::Flop));
    assert_eq!(state.min_bet, 0);
    assert_eq!(state.legal_actions, vec![ActionEnum::Fold, ActionEnum::Check, ActionEnum::Raise]);
    assert!(!(state.legal_actions.contains(&ActionEnum::Check) && state.legal_actions.contains(
        &ActionEnum::Call,
    )));
}

// An action outside the legal set stops the hand with IllegalAction and
// records who proposed it.
#[test]
fn illegal_action_stops_hand() {
    let state = State::from_deck(2, 0, 1, 2, 200, Card::collect()).unwrap();
    let acting = state.current_player;
    let next = state.apply_action(Action::new(ActionEnum::Check, 0));
    assert!(matches!(next.status, StateStatus::IllegalAction));
    assert!(next.final_state);
    let rec = next.from_action.clone().unwrap();
    assert_eq!(rec.player, acting);
    assert!(matches!(rec.action.action, ActionEnum::Check));
    // the rest of the state is untouched
    assert_eq!(next.pot, state.pot);
    assert_eq!(next.min_bet, state.min_bet);
    assert_eq!(next.players_state[0].stake, state.players_state[0].stake);
    // no action applies once the hand is stopped
    let frozen = next.apply_action(Action::new(ActionEnum::Fold, 0));
    assert!(matches!(frozen.status, StateStatus::IllegalAction));
    assert_eq!(frozen.pot, next.pot);
}

// A raise whose total cost exceeds the acting player's stake stops the hand
// with HighBet.
#[test]
fn oversized_raise_stops_hand() {
    let state = State::from_deck(2, 0, 1, 2, 200, Card::collect()).unwrap();
    let next = state.apply_action(Action::new(ActionEnum::Raise, 10_000));
    assert!(matches!(next.status, StateStatus::HighBet));
    assert!(next.final_state);
    assert_eq!(next.pot, state.pot);
    // a raise the stake can cover goes through
    let next = state.apply_action(Action::new(ActionEnum::Raise, 50));
    assert!(matches!(next.status, StateStatus::Okay));
    assert_eq!(next.min_bet, 52);
    assert_eq!(next.pot, 3 + 1 + 50);
}

#[test]
fn from_action_set_after_every_apply() {
    let mut state = State::from_deck(2, 0, 1, 2, 200, Card::collect()).unwrap();
    assert!(state.from_action.is_none());
    for kind in [ActionEnum::Call, ActionEnum::Check, ActionEnum::Check] {
        state = state.apply_action(Action::new(kind, 0));
        assert!(state.from_action.is_some());
    }
}

// All but one player fold before showdown: the hand ends at once, the sole
// remaining player wins what the others committed, and the rewards cancel.
#[test]
fn fold_out_pays_survivor() {
    let state = State::from_deck(3, 0, 1, 2, 100, Card::collect()).unwrap();
    assert_eq!(state.current_player, 0);
    let state = state.apply_action(Action::new(ActionEnum::Fold, 0));
    assert!(!state.final_state);
    assert_eq!(state.current_player, 1);
    let state = state.apply_action(Action::new(ActionEnum::Fold, 0));
    assert!(state.final_state);
    assert!(matches!(state.status, StateStatus::Okay));
    // player 0 had committed nothing, player 1 the small blind; player 2
    // collects both commitments
    assert_eq!(state.players_state[0].reward, 0);
    assert_eq!(state.players_state[1].reward, -1);
    assert_eq!(state.players_state[2].reward, 1);
    let total: i64 = state.players_state.iter().map(|p| p.reward).sum();
    assert_eq!(total, 0);
    assert!(state.players_state.iter().all(|p| !p.active));
    // folding moves no stake: every seat keeps its uncommitted chips
    assert_eq!(state.players_state[0].stake, 100);
    assert_eq!(state.players_state[1].stake, 99);
    assert_eq!(state.players_state[2].stake, 98);
}

// A showdown tie on category and keys: the two tied players each take an
// equal half-share of the folded player's commitment.
#[test]
fn showdown_tie_splits_pot() {
    let mut deck = cards(&["2C", "3D", "4H", "5C", "6D", "7H"]);
    deck.extend(cards(&["TS", "JS", "QS", "KS", "AS"]));
    let state = State::from_deck(3, 0, 2, 4, 100, deck).unwrap();
    // player 0 calls the big blind, player 1 surrenders the small blind,
    // player 2 checks by calling with nothing owed
    let state = state.apply_action(Action::new(ActionEnum::Call, 0));
    let state = state.apply_action(Action::new(ActionEnum::Fold, 0));
    let state = state.apply_action(Action::new(ActionEnum::Call, 0));
    assert!(matches!(state.stage, Stage::Flop));
    // both live players check every remaining street
    let state = state.apply_action(Action::new(ActionEnum::Check, 0));
    let state = state.apply_action(Action::new(ActionEnum::Check, 0));
    assert!(matches!(state.stage, Stage::Turn));
    let state = state.apply_action(Action::new(ActionEnum::Check, 0));
    let state = state.apply_action(Action::new(ActionEnum::Check, 0));
    assert!(matches!(state.stage, Stage::River));
    let state = state.apply_action(Action::new(ActionEnum::Check, 0));
    let state = state.apply_action(Action::new(ActionEnum::Check, 0));
    // the board is a royal flush: both remaining players tie and split the
    // folded small blind evenly
    assert!(state.final_state);
    assert!(matches!(state.status, StateStatus::Okay));
    assert_eq!(state.players_state[0].reward, 1);
    assert_eq!(state.players_state[1].reward, -2);
    assert_eq!(state.players_state[2].reward, 1);
    let total: i64 = state.players_state.iter().map(|p| p.reward).sum();
    assert_eq!(total, 0);
}

#[test]
fn hand_categories_rank_in_order() {
    let hands = [
        cards(&["TS", "JS", "QS", "KS", "AS"]),  // royal flush
        cards(&["9S", "TS", "JS", "QS", "KS"]),  // straight flush
        cards(&["2C", "2D", "2H", "2S", "7C"]),  // four of a kind
        cards(&["3C", "3D", "3H", "9S", "9C"]),  // full house
        cards(&["2H", "5H", "7H", "9H", "JH"]),  // flush
        cards(&["4C", "5D", "6H", "7S", "8C"]),  // straight
        cards(&["6C", "6D", "6H", "2S", "9C"]),  // three of a kind
        cards(&["8C", "8D", "4H", "4S", "KC"]),  // two pair
        cards(&["QC", "QD", "3H", "6S", "9C"]),  // one pair
        cards(&["2C", "5D", "8H", "JS", "KC"]),  // high card
    ];
    let mut previous: Option<(u64, u64, u64)> = None;
    for (idx, hand) in hands.iter().enumerate() {
        let rank = rank_card_combination(hand);
        assert_eq!(rank.0 as usize, idx + 1);
        if let Some(stronger) = previous {
            // a stronger category always gives a strictly smaller triple
            assert!(rank_le(stronger, rank) && !(rank_le(rank, stronger)));
        }
        previous = Some(rank);
    }
}

#[test]
fn wheel_counts_as_straight() {
    let wheel = cards(&["2C", "3D", "4H", "5S", "AC"]);
    let rank = rank_card_combination(&wheel);
    assert_eq!(rank.0, 6);
    let steel_wheel = cards(&["2S", "3S", "4S", "5S", "AS"]);
    let rank = rank_card_combination(&steel_wheel);
    assert_eq!(rank.0, 2);
}

#[test]
fn quads_rank_exact_value() {
    let quads = cards(&["2C", "2D", "2H", "2S", "7C"]);
    let rank = rank_card_combination(&quads);
    // primary key: the quad rank alone, 12 - 0 for deuces
    // secondary key: all five ranks sorted ascending, base-13 weighted
    let secondary: u64 = 12 + 13 * 12 + 169 * 12 + 2197 * 12 + 28561 * (12 - 5);
    assert_eq!(rank, (3, 12, secondary));
}

#[test]
fn high_card_value_formula() {
    // a single rank encodes as 12 minus its position
    assert_eq!(high_card_value(&vec![CardRank::R2]), 12);
    assert_eq!(high_card_value(&vec![CardRank::RA]), 0);
    // two ranks: the lower at weight 1, the higher at weight 13
    assert_eq!(high_card_value(&vec![CardRank::RK, CardRank::R5]), (12 - 3) + 13 * (12 - 11));
    // order of the input does not matter
    assert_eq!(
        high_card_value(&vec![CardRank::R5, CardRank::RK]),
        high_card_value(&vec![CardRank::RK, CardRank::R5]),
    );
}

#[test]
fn rank_hand_picks_best_subset() {
    // seven cards holding a royal flush among them
    let public = cards(&["TS", "JS", "QS", "3C", "KS"]);
    let rank = rank_hand((card("AS"), card("7D")), &public);
    assert_eq!(rank, (1, 0, 0));
    // the same seven cards give the same rank every time
    let again = rank_hand((card("AS"), card("7D")), &public);
    assert_eq!(rank, again);
    // five public cards and a useless hand still rank the board
    let board_only = rank_hand((card("2C"), card("4D")), &cards(&["6H", "7H", "8H", "9H", "TH"]));
    assert_eq!(board_only.0, 2);
}

#[test]
fn from_seed_is_deterministic() {
    let a = State::from_seed(2, 0, 1, 2, 200, 42).unwrap();
    let b = State::from_seed(2, 0, 1, 2, 200, 42).unwrap();
    assert_eq!(a.players_state[0].hand.0, b.players_state[0].hand.0);
    assert_eq!(a.players_state[0].hand.1, b.players_state[0].hand.1);
    assert_eq!(a.players_state[1].hand.0, b.players_state[1].hand.0);
    assert_eq!(a.players_state[1].hand.1, b.players_state[1].hand.1);
    assert_eq!(a.deck, b.deck);
    assert_eq!(a.deck.len(), 48);
    // the shuffled deck still holds 52 distinct cards
    let mut all = a.deck.clone();
    all.push(a.players_state[0].hand.0);
    all.push(a.players_state[0].hand.1);
    all.push(a.players_state[1].hand.0);
    all.push(a.players_state[1].hand.1);
    for i in 0..all.len() {
        for j in (i + 1)..all.len() {
            assert_ne!(all[i], all[j]);
        }
    }
    // the seeded permutation really reorders: the cards in deal order are
    // not the generated deck as it stands
    let mut deal_order = vec![
        a.players_state[1].hand.0,
        a.players_state[1].hand.1,
        a.players_state[0].hand.0,
        a.players_state[0].hand.1,
    ];
    deal_order.extend(a.deck.iter().copied());
    assert_ne!(deal_order, Card::collect());
}

// Raises move the call level and keep the pot consistent through a full
// betting round.
#[test]
fn raise_and_call_close_the_round() {
    let state = State::from_deck(2, 0, 1, 2, 200, Card::collect()).unwrap();
    // player 1 raises 8 on top of the owed call: bet level 10
    let state = state.apply_action(Action::new(ActionEnum::Raise, 8));
    assert!(matches!(state.status, StateStatus::Okay));
    assert_eq!(state.min_bet, 10);
    assert_eq!(state.pot, 2 + 10);
    assert!(matches!(state.stage, Stage::Preflop));
    // player 0 calls: the round closes and the flop comes
    let state = state.apply_action(Action::new(ActionEnum::Call, 0));
    assert!(matches!(state.stage, Stage::Flop));
    assert_eq!(state.pot, 20);
    assert_eq!(state.min_bet, 0);
    assert_eq!(state.public_cards.len(), 3);
    // street bets were folded into the pot commitments
    assert_eq!(state.players_state[0].bet_chips, 0);
    assert_eq!(state.players_state[1].bet_chips, 0);
    assert_eq!(state.players_state[0].pot_chips, 10);
    assert_eq!(state.players_state[1].pot_chips, 10);
}

// Terminal rewards never sum above zero, whatever sequence of actions led to
// the end of the hand.
#[test]
fn rewards_never_sum_positive() {
    let scripts: [&[(ActionEnum, u64)]; 3] = [
        &[(ActionEnum::Fold, 0)],
        &[(ActionEnum::Raise, 30), (ActionEnum::Fold, 0)],
        &[(ActionEnum::Call, 0), (ActionEnum::Raise, 1_000_000)],
    ];
    for script in scripts {
        let mut state = State::from_deck(2, 1, 5, 10, 500, Card::collect()).unwrap();
        for (kind, amount) in script {
            state = state.apply_action(Action::new(*kind, *amount));
        }
        assert!(state.final_state);
        let total: i64 = state.players_state.iter().map(|p| p.reward).sum();
        assert!(total <= 0);
    }
}
