//! Cards: suits, ranks, the 52-card deck, and parsing of 2-character codes.

use vstd::prelude::*;
use vstd::string::StrSliceExecFns;

verus! {

/// One of the four suits, ordered by declaration: Clubs < Diamonds < Hearts < Spades.
#[derive(Debug, Clone, Copy, PartialEq, Eq, PartialOrd, Ord, Hash, Structural)]
pub enum CardSuit {
    Clubs,
    Diamonds,
    Hearts,
    Spades,
}

/// One of the thirteen ranks, ordered by declaration: R2 (deuce) up to RA (ace).
#[derive(Debug, Clone, Copy, PartialEq, Eq, PartialOrd, Ord, Hash, Structural)]
pub enum CardRank {
    R2,
    R3,
    R4,
    R5,
    R6,
    R7,
    R8,
    R9,
    RT,
    RJ,
    RQ,
    RK,
    RA,
}

/// A playing card: a suit and a rank.
#[derive(Debug, Clone, Copy, PartialEq, Eq, Structural)]
pub struct Card {
    pub suit: CardSuit,
    pub rank: CardRank,
}

impl CardSuit {
    /// The position of this suit in declaration order, 0 through 3.
    pub open spec fn index_spec(self) -> int {
        match self {
            CardSuit::Clubs => 0,
            CardSuit::Diamonds => 1,
            CardSuit::Hearts => 2,
            CardSuit::Spades => 3,
        }
    }

    /// The suit at position `i` of declaration order.
    pub open spec fn from_index_spec(i: int) -> CardSuit {
        if i == 0 {
            CardSuit::Clubs
        } else if i == 1 {
            CardSuit::Diamonds
        } else if i == 2 {
            CardSuit::Hearts
        } else {
            CardSuit::Spades
        }
    }
}

impl CardRank {
    /// The position of this rank in declaration order, 0 (deuce) through 12 (ace).
    pub open spec fn index_spec(self) -> int {
        match self {
            CardRank::R2 => 0,
            CardRank::R3 => 1,
            CardRank::R4 => 2,
            CardRank::R5 => 3,
            CardRank::R6 => 4,
            CardRank::R7 => 5,
            CardRank::R8 => 6,
            CardRank::R9 => 7,
            CardRank::RT => 8,
            CardRank::RJ => 9,
            CardRank::RQ => 10,
            CardRank::RK => 11,
            CardRank::RA => 12,
        }
    }

    /// The rank at position `i` of declaration order.
    pub open spec fn from_index_spec(i: int) -> CardRank {
        if i == 0 {
            CardRank::R2
        } else if i == 1 {
            CardRank::R3
        } else if i == 2 {
            CardRank::R4
        } else if i == 3 {
            CardRank::R5
        } else if i == 4 {
            CardRank::R6
        } else if i == 5 {
            CardRank::R7
        } else if i == 6 {
            CardRank::R8
        } else if i == 7 {
            CardRank::R9
        } else if i == 8 {
            CardRank::RT
        } else if i == 9 {
            CardRank::RJ
        } else if i == 10 {
            CardRank::RQ
        } else if i == 11 {
            CardRank::RK
        } else {
            CardRank::RA
        }
    }

    /// The rank at position `i` of declaration order, as a machine value.
    pub fn from_index(i: u64) -> (r: CardRank)
        requires
            i < 13,
        ensures
            r == CardRank::from_index_spec(i as int),
    {
        if i == 0 {
            CardRank::R2
        } else if i == 1 {
            CardRank::R3
        } else if i == 2 {
            CardRank::R4
        } else if i == 3 {
            CardRank::R5
        } else if i == 4 {
            CardRank::R6
        } else if i == 5 {
            CardRank::R7
        } else if i == 6 {
            CardRank::R8
        } else if i == 7 {
            CardRank::R9
        } else if i == 8 {
            CardRank::RT
        } else if i == 9 {
            CardRank::RJ
        } else if i == 10 {
            CardRank::RQ
        } else if i == 11 {
            CardRank::RK
        } else {
            CardRank::RA
        }
    }

    /// The position of this rank, as a machine integer.
    pub fn index(self) -> (r: u64)
        ensures
            r == self.index_spec(),
    {
        match self {
            CardRank::R2 => 0,
            CardRank::R3 => 1,
            CardRank::R4 => 2,
            CardRank::R5 => 3,
            CardRank::R6 => 4,
            CardRank::R7 => 5,
            CardRank::R8 => 6,
            CardRank::R9 => 7,
            CardRank::RT => 8,
            CardRank::RJ => 9,
            CardRank::RQ => 10,
            CardRank::RK => 11,
            CardRank::RA => 12,
        }
    }
}

/// The standard deck in generation order: suit-major, rank-minor.  Card number
/// `k` carries the suit at position `k / 13` and the rank at position `k % 13`.
pub open spec fn spec_deck() -> Seq<Card> {
    Seq::new(52, |k: int| Card {
        suit: CardSuit::from_index_spec(k / 13),
        rank: CardRank::from_index_spec(k % 13),
    })
}

/// The card encoded by the two characters `ra` (rank code) and `su` (suit
/// code), or `None` when either character is not a valid code.  Rank codes
/// are 2 through 9, T, J, Q, K, A, upper case only; suit codes are C, D, H,
/// S, upper or lower case.
pub open spec fn spec_parse_card(ra: char, su: char) -> Option<Card> {
    if spec_parse_suit(su) is Some && spec_parse_rank(ra) is Some {
        Some(Card { suit: spec_parse_suit(su)->0, rank: spec_parse_rank(ra)->0 })
    } else {
        None
    }
}

/// The suit encoded by one character, upper or lower case.
pub open spec fn spec_parse_suit(c: char) -> Option<CardSuit> {
    if c == 'C' || c == 'c' {
        Some(CardSuit::Clubs)
    } else if c == 'D' || c == 'd' {
        Some(CardSuit::Diamonds)
    } else if c == 'H' || c == 'h' {
        Some(CardSuit::Hearts)
    } else if c == 'S' || c == 's' {
        Some(CardSuit::Spades)
    } else {
        None
    }
}

/// The rank encoded by one character; letter codes must be upper case.
pub open spec fn spec_parse_rank(c: char) -> Option<CardRank> {
    if c == '2' {
        Some(CardRank::R2)
    } else if c == '3' {
        Some(CardRank::R3)
    } else if c == '4' {
        Some(CardRank::R4)
    } else if c == '5' {
        Some(CardRank::R5)
    } else if c == '6' {
        Some(CardRank::R6)
    } else if c == '7' {
        Some(CardRank::R7)
    } else if c == '8' {
        Some(CardRank::R8)
    } else if c == '9' {
        Some(CardRank::R9)
    } else if c == 'T' {
        Some(CardRank::RT)
    } else if c == 'J' {
        Some(CardRank::RJ)
    } else if c == 'Q' {
        Some(CardRank::RQ)
    } else if c == 'K' {
        Some(CardRank::RK)
    } else if c == 'A' {
        Some(CardRank::RA)
    } else {
        None
    }
}

impl Card {
    /// Builds the card with the given suit and rank.
    pub fn new(suit: CardSuit, rank: CardRank) -> (c: Card)
        ensures
            c == (Card { suit, rank }),
    {
        Card { suit, rank }
    }

    /// Parses a 2-character card code: rank character first (case-sensitive),
    /// suit character second (case-insensitive).  Returns `None` on any other
    /// input, including strings that are not exactly two characters long.
    pub fn from_string(string: String) -> (c: Option<Card>)
        ensures
            c == (if string@.len() == 2 {
                spec_parse_card(string@[0], string@[1])
            } else {
                None::<Card>
            }),
    {
        let s: &str = string.as_str();
        if s.unicode_len() != 2 {
            return None;
        }
        let ra = s.get_char(0);
        let su = s.get_char(1);
        let suit = match su {
            'C' | 'c' => Some(CardSuit::Clubs),
            'D' | 'd' => Some(CardSuit::Diamonds),
            'H' | 'h' => Some(CardSuit::Hearts),
            'S' | 's' => Some(CardSuit::Spades),
            _ => None,
        };
        let rank = match ra {
            '2' => Some(CardRank::R2),
            '3' => Some(CardRank::R3),
            '4' => Some(CardRank::R4),
            '5' => Some(CardRank::R5),
            '6' => Some(CardRank::R6),
            '7' => Some(CardRank::R7),
            '8' => Some(CardRank::R8),
            '9' => Some(CardRank::R9),
            'T' => Some(CardRank::RT),
            'J' => Some(CardRank::RJ),
            'Q' => Some(CardRank::RQ),
            'K' => Some(CardRank::RK),
            'A' => Some(CardRank::RA),
            _ => None,
        };
        match (suit, rank) {
            (Some(su2), Some(ra2)) => Some(Card { suit: su2, rank: ra2 }),
            _ => None,
        }
    }

    /// Generates the full 52-card deck in suit-major, rank-minor order.
    pub fn collect() -> (deck: Vec<Card>)
        ensures
            deck@ == spec_deck(),
    {
        let mut deck: Vec<Card> = Vec::new();
        let suits = [CardSuit::Clubs, CardSuit::Diamonds, CardSuit::Hearts, CardSuit::Spades];
        let ranks = [
            CardRank::R2,
            CardRank::R3,
            CardRank::R4,
            CardRank::R5,
            CardRank::R6,
            CardRank::R7,
            CardRank::R8,
            CardRank::R9,
            CardRank::RT,
            CardRank::RJ,
            CardRank::RQ,
            CardRank::RK,
            CardRank::RA,
        ];
        for si in 0..4usize
            invariant
                deck@.len() == si * 13,
                forall|k: int| 0 <= k < deck@.len() ==> deck@[k] == #[trigger] spec_deck()[k],
                suits@ =~= Seq::new(4, |i: int| CardSuit::from_index_spec(i)),
                ranks@ =~= Seq::new(13, |i: int| CardRank::from_index_spec(i)),
        {
            for ri in 0..13usize
                invariant
                    0 <= si < 4,
                    deck@.len() == si * 13 + ri,
                    forall|k: int| 0 <= k < deck@.len() ==> deck@[k] == #[trigger] spec_deck()[k],
                    suits@ =~= Seq::new(4, |i: int| CardSuit::from_index_spec(i)),
                    ranks@ =~= Seq::new(13, |i: int| CardRank::from_index_spec(i)),
            {
                let c = Card { suit: suits[si], rank: ranks[ri] };
                proof {
                    let k = si * 13 + ri;
                    assert(k / 13 == si && k % 13 == ri) by (nonlinear_arith)
                        requires
                            0 <= si < 4,
                            0 <= ri < 13,
                            k == si * 13 + ri,
                    ;
                }
                deck.push(c);
            }
        }
        assert(deck@ =~= spec_deck());
        deck
    }
}

} // verus!
