//! Card identities and their fixed value tables.
//!
//! The 54 canonical identities (13 ranks x 4 suits plus two jokers) each have
//! a *default value*, their 1-based position in new-deck order (Hearts A-K,
//! Clubs A-K, Diamonds K-A, Spades K-A, Joker A, Joker B), and a *cipher
//! value* in 1..=53 under which both jokers count 53.

use vstd::prelude::*;

verus! {

/// Error returned when card or stack notation cannot be parsed.
#[derive(PartialEq, Eq, Clone, Copy, Debug)]
pub struct IllegalStringError;

/// Distinguishes the two jokers of a deck.
#[derive(PartialEq, Eq, Hash, Clone, Copy, Debug, Structural)]
pub enum JokerId {
    A,
    B,
}

/// The four French suits.
#[derive(PartialEq, Eq, Hash, Clone, Copy, Debug, Structural)]
pub enum Suit {
    Club,
    Diamond,
    Heart,
    Spade,
}

/// One playing-card identity: a rank with a suit, or one of the two jokers.
#[derive(PartialEq, Eq, Hash, Clone, Copy, Debug, Structural)]
pub enum Card {
    Ace(Suit),
    Two(Suit),
    Three(Suit),
    Four(Suit),
    Five(Suit),
    Six(Suit),
    Seven(Suit),
    Eight(Suit),
    Nine(Suit),
    Ten(Suit),
    Jack(Suit),
    Queen(Suit),
    King(Suit),
    Joker(JokerId),
}

/// Rank of a card, 1 (ace) through 13 (king); 0 for a joker.
pub open spec fn spec_rank(c: Card) -> int {
    match c {
        Card::Ace(_) => 1,
        Card::Two(_) => 2,
        Card::Three(_) => 3,
        Card::Four(_) => 4,
        Card::Five(_) => 5,
        Card::Six(_) => 6,
        Card::Seven(_) => 7,
        Card::Eight(_) => 8,
        Card::Nine(_) => 9,
        Card::Ten(_) => 10,
        Card::Jack(_) => 11,
        Card::Queen(_) => 12,
        Card::King(_) => 13,
        Card::Joker(_) => 0,
    }
}

/// Suit of a card; a joker is given an arbitrary fixed suit, never used.
pub open spec fn spec_suit(c: Card) -> Suit {
    match c {
        Card::Ace(s) => s,
        Card::Two(s) => s,
        Card::Three(s) => s,
        Card::Four(s) => s,
        Card::Five(s) => s,
        Card::Six(s) => s,
        Card::Seven(s) => s,
        Card::Eight(s) => s,
        Card::Nine(s) => s,
        Card::Ten(s) => s,
        Card::Jack(s) => s,
        Card::Queen(s) => s,
        Card::King(s) => s,
        Card::Joker(_) => Suit::Heart,
    }
}

/// Position of a card in new-deck order, 1..=54: Hearts A-K are 1..=13,
/// Clubs A-K are 14..=26, Diamonds K-A are 27..=39, Spades K-A are 40..=52,
/// Joker A is 53 and Joker B is 54.
pub open spec fn spec_default_value(c: Card) -> int {
    match c {
        Card::Joker(JokerId::A) => 53,
        Card::Joker(JokerId::B) => 54,
        _ => match spec_suit(c) {
            Suit::Heart => spec_rank(c),
            Suit::Club => 13 + spec_rank(c),
            Suit::Diamond => 40 - spec_rank(c),
            Suit::Spade => 53 - spec_rank(c),
        },
    }
}

/// Value that follows `v` in new-deck order when each deck carries `jokers`
/// jokers: values count up to `52 + jokers` and then wrap to 1.
pub open spec fn spec_next_value(v: int, jokers: int) -> int {
    if v < 52 + jokers {
        v + 1
    } else {
        1
    }
}

/// Cipher value of a card, 1..=53: the default value, except that both
/// jokers count 53.
pub open spec fn spec_cipher_value(c: Card) -> int {
    if c == Card::Joker(JokerId::B) {
        53
    } else {
        spec_default_value(c)
    }
}

/// A default card value: an integer in 1..=54.
#[derive(PartialEq, Eq, Clone, Copy, Debug)]
pub struct DefCardValue {
    v: u8,
}

impl DefCardValue {
    /// The raw value.
    pub closed spec fn spec_value(&self) -> u8 {
        self.v
    }

    #[verifier::type_invariant]
    pub open spec fn type_inv(&self) -> bool {
        1 <= self.spec_value() <= 54
    }

    /// Checked constructor: accepts exactly the values 1..=54.
    pub fn new(v: u8) -> (r: Option<DefCardValue>)
        ensures
            1 <= v <= 54 ==> (r matches Some(d) && d.spec_value() == v),
            !(1 <= v <= 54) ==> r is None,
    {
        if 1 <= v && v <= 54 {
            Some(DefCardValue { v })
        } else {
            None
        }
    }

    /// The raw value, executable.
    pub fn get(&self) -> (r: u8)
        ensures
            r == self.spec_value(),
    {
        self.v
    }

}

/// A per-deck joker count: an integer in 0..=2.
#[derive(PartialEq, Eq, Clone, Copy, Debug)]
pub struct JokersPerDeck {
    n: u8,
}

impl JokersPerDeck {
    /// The raw count.
    pub closed spec fn spec_count(&self) -> u8 {
        self.n
    }

    #[verifier::type_invariant]
    pub open spec fn type_inv(&self) -> bool {
        self.spec_count() <= 2
    }

    /// Checked constructor: accepts exactly the counts 0..=2.
    pub fn new(n: u8) -> (r: Option<JokersPerDeck>)
        ensures
            n <= 2 ==> (r matches Some(j) && j.spec_count() == n),
            n > 2 ==> r is None,
    {
        if n <= 2 {
            Some(JokersPerDeck { n })
        } else {
            None
        }
    }

    /// The raw count, executable.
    pub fn get(&self) -> (r: u8)
        ensures
            r == self.spec_count(),
    {
        self.n
    }

}

/// A riffle-noise level: an integer in 0..=10. Level 0 is a perfect cut and
/// merge; higher levels let the cut point stray further from the midpoint.
#[derive(PartialEq, Eq, Clone, Copy, Debug)]
pub struct NoiseLevel {
    n: u8,
}

impl NoiseLevel {
    /// The raw level.
    pub closed spec fn spec_level(&self) -> u8 {
        self.n
    }

    #[verifier::type_invariant]
    pub open spec fn type_inv(&self) -> bool {
        self.spec_level() <= 10
    }

    /// Checked constructor: accepts exactly the levels 0..=10.
    pub fn new(n: u8) -> (r: Option<NoiseLevel>)
        ensures
            n <= 10 ==> (r matches Some(l) && l.spec_level() == n),
            n > 10 ==> r is None,
    {
        if n <= 10 {
            Some(NoiseLevel { n })
        } else {
            None
        }
    }

    /// The raw level, executable.
    pub fn get(&self) -> (r: u8)
        ensures
            r == self.spec_level(),
    {
        self.n
    }

}

impl Card {
    /// Rank of the card as an executable value.
    fn rank(&self) -> (r: u8)
        ensures
            r == spec_rank(*self),
    {
        match *self {
            Card::Ace(_) => 1,
            Card::Two(_) => 2,
            Card::Three(_) => 3,
            Card::Four(_) => 4,
            Card::Five(_) => 5,
            Card::Six(_) => 6,
            Card::Seven(_) => 7,
            Card::Eight(_) => 8,
            Card::Nine(_) => 9,
            Card::Ten(_) => 10,
            Card::Jack(_) => 11,
            Card::Queen(_) => 12,
            Card::King(_) => 13,
            Card::Joker(_) => 0,
        }
    }

    /// Default value of the card: its 1-based position in new-deck order.
    pub fn default_value(&self) -> (r: DefCardValue)
        ensures
            r.spec_value() == spec_default_value(*self),
    {
        let v: u8 = match *self {
            Card::Joker(JokerId::A) => 53,
            Card::Joker(JokerId::B) => 54,
            _ => {
                let rank = self.rank();
                match spec_suit_exec(self) {
                    Suit::Heart => rank,
                    Suit::Club => 13 + rank,
                    Suit::Diamond => 40 - rank,
                    Suit::Spade => 53 - rank,
                }
            },
        };
        DefCardValue { v }
    }

    /// Default value that follows this card's in new-deck order, wrapping
    /// past the last card of a deck that carries `jokers_per_deck` jokers.
    pub fn next_def_val_in_sequence(&self, jokers_per_deck: JokersPerDeck) -> (r: DefCardValue)
        ensures
            r.spec_value() == spec_next_value(
                spec_default_value(*self),
                jokers_per_deck.spec_count() as int,
            ),
    {
        proof {
            use_type_invariant(&jokers_per_deck);
        }
        let last: u8 = 52 + jokers_per_deck.get();
        let own = self.default_value();
        proof {
            use_type_invariant(&own);
        }
        if own.get() < last {
            DefCardValue { v: own.get() + 1 }
        } else {
            DefCardValue { v: 1 }
        }
    }

    /// Cipher value of the card: the default value, with both jokers at 53.
    pub fn value(&self) -> (r: u8)
        ensures
            r == spec_cipher_value(*self),
    {
        match *self {
            Card::Joker(_) => 53,
            _ => self.default_value().get(),
        }
    }
}

/// First character of a card's two-character notation: its rank, with 'T'
/// for ten and 'F' for a joker ("fool").
pub open spec fn spec_rank_char(c: Card) -> char {
    match c {
        Card::Ace(_) => 'A',
        Card::Two(_) => '2',
        Card::Three(_) => '3',
        Card::Four(_) => '4',
        Card::Five(_) => '5',
        Card::Six(_) => '6',
        Card::Seven(_) => '7',
        Card::Eight(_) => '8',
        Card::Nine(_) => '9',
        Card::Ten(_) => 'T',
        Card::Jack(_) => 'J',
        Card::Queen(_) => 'Q',
        Card::King(_) => 'K',
        Card::Joker(_) => 'F',
    }
}

/// Second character of a card's two-character notation: its suit, or the
/// joker's identifier.
pub open spec fn spec_suit_char(c: Card) -> char {
    match c {
        Card::Joker(JokerId::A) => 'A',
        Card::Joker(JokerId::B) => 'B',
        _ => match spec_suit(c) {
            Suit::Club => 'C',
            Suit::Diamond => 'D',
            Suit::Heart => 'H',
            Suit::Spade => 'S',
        },
    }
}

/// The two-character notation of a card, e.g. "AC", "TD" or "FA".
pub open spec fn spec_card_text(c: Card) -> Seq<char> {
    seq![spec_rank_char(c), spec_suit_char(c)]
}

/// The suit denoted by a notation character, if any.
pub open spec fn spec_suit_of_char(ch: char) -> Option<Suit> {
    if ch == 'S' {
        Some(Suit::Spade)
    } else if ch == 'H' {
        Some(Suit::Heart)
    } else if ch == 'D' {
        Some(Suit::Diamond)
    } else if ch == 'C' {
        Some(Suit::Club)
    } else {
        None
    }
}

/// The card of suit `s` denoted by a rank character, if any.
pub open spec fn spec_ranked_card(ch: char, s: Suit) -> Option<Card> {
    if ch == 'A' {
        Some(Card::Ace(s))
    } else if ch == '2' {
        Some(Card::Two(s))
    } else if ch == '3' {
        Some(Card::Three(s))
    } else if ch == '4' {
        Some(Card::Four(s))
    } else if ch == '5' {
        Some(Card::Five(s))
    } else if ch == '6' {
        Some(Card::Six(s))
    } else if ch == '7' {
        Some(Card::Seven(s))
    } else if ch == '8' {
        Some(Card::Eight(s))
    } else if ch == '9' {
        Some(Card::Nine(s))
    } else if ch == 'T' {
        Some(Card::Ten(s))
    } else if ch == 'J' {
        Some(Card::Jack(s))
    } else if ch == 'Q' {
        Some(Card::Queen(s))
    } else if ch == 'K' {
        Some(Card::King(s))
    } else {
        None
    }
}

/// The card denoted by a two-character token, if the token is well formed.
pub open spec fn spec_parse_card(t: Seq<char>) -> Option<Card> {
    if t.len() != 2 {
        None
    } else if t[0] == 'F' {
        if t[1] == 'A' {
            Some(Card::Joker(JokerId::A))
        } else if t[1] == 'B' {
            Some(Card::Joker(JokerId::B))
        } else {
            None
        }
    } else {
        match spec_suit_of_char(t[1]) {
            Some(s) => spec_ranked_card(t[0], s),
            None => None,
        }
    }
}

impl Card {
    /// Parses a card from its two-character notation, rank-or-'F' then
    /// suit-or-joker-id; any malformed token is rejected.
    pub fn from_str(s: &str) -> (r: Result<Card, IllegalStringError>)
        ensures
            r matches Ok(c) ==> spec_parse_card(s@) == Some(c),
            r is Err ==> spec_parse_card(s@) is None,
    {
        if s.unicode_len() != 2 {
            return Err(IllegalStringError);
        }
        let c0 = s.get_char(0);
        let c1 = s.get_char(1);
        if c0 == 'F' {
            if c1 == 'A' {
                Ok(Card::Joker(JokerId::A))
            } else if c1 == 'B' {
                Ok(Card::Joker(JokerId::B))
            } else {
                Err(IllegalStringError)
            }
        } else {
            let suit = if c1 == 'S' {
                Suit::Spade
            } else if c1 == 'H' {
                Suit::Heart
            } else if c1 == 'D' {
                Suit::Diamond
            } else if c1 == 'C' {
                Suit::Club
            } else {
                return Err(IllegalStringError);
            };
            if c0 == 'A' {
                Ok(Card::Ace(suit))
            } else if c0 == '2' {
                Ok(Card::Two(suit))
            } else if c0 == '3' {
                Ok(Card::Three(suit))
            } else if c0 == '4' {
                Ok(Card::Four(suit))
            } else if c0 == '5' {
                Ok(Card::Five(suit))
            } else if c0 == '6' {
                Ok(Card::Six(suit))
            } else if c0 == '7' {
                Ok(Card::Seven(suit))
            } else if c0 == '8' {
                Ok(Card::Eight(suit))
            } else if c0 == '9' {
                Ok(Card::Nine(suit))
            } else if c0 == 'T' {
                Ok(Card::Ten(suit))
            } else if c0 == 'J' {
                Ok(Card::Jack(suit))
            } else if c0 == 'Q' {
                Ok(Card::Queen(suit))
            } else if c0 == 'K' {
                Ok(Card::King(suit))
            } else {
                Err(IllegalStringError)
            }
        }
    }

    /// Renders the card in its two-character notation.
    pub fn to_string(&self) -> (r: String)
        ensures
            r@ == spec_card_text(*self),
    {
        let mut out = String::from_str(rank_str(self));
        out.append(suit_str(self));
        proof {
            assert(out@ =~= spec_card_text(*self));
        }
        out
    }
}

/// The one-character string holding a card's rank character.
fn rank_str(c: &Card) -> (r: &'static str)
    ensures
        r@ == seq![spec_rank_char(*c)],
{
    match *c {
        Card::Ace(_) => {
            proof {
                reveal_strlit("A");
                assert(("A")@ =~= seq!['A']);
            }
            "A"
        },
        Card::Two(_) => {
            proof {
                reveal_strlit("2");
                assert(("2")@ =~= seq!['2']);
            }
            "2"
        },
        Card::Three(_) => {
            proof {
                reveal_strlit("3");
                assert(("3")@ =~= seq!['3']);
            }
            "3"
        },
        Card::Four(_) => {
            proof {
                reveal_strlit("4");
                assert(("4")@ =~= seq!['4']);
            }
            "4"
        },
        Card::Five(_) => {
            proof {
                reveal_strlit("5");
                assert(("5")@ =~= seq!['5']);
            }
            "5"
        },
        Card::Six(_) => {
            proof {
                reveal_strlit("6");
                assert(("6")@ =~= seq!['6']);
            }
            "6"
        },
        Card::Seven(_) => {
            proof {
                reveal_strlit("7");
                assert(("7")@ =~= seq!['7']);
            }
            "7"
        },
        Card::Eight(_) => {
            proof {
                reveal_strlit("8");
                assert(("8")@ =~= seq!['8']);
            }
            "8"
        },
        Card::Nine(_) => {
            proof {
                reveal_strlit("9");
                assert(("9")@ =~= seq!['9']);
            }
            "9"
        },
        Card::Ten(_) => {
            proof {
                reveal_strlit("T");
                assert(("T")@ =~= seq!['T']);
            }
            "T"
        },
        Card::Jack(_) => {
            proof {
                reveal_strlit("J");
                assert(("J")@ =~= seq!['J']);
            }
            "J"
        },
        Card::Queen(_) => {
            proof {
                reveal_strlit("Q");
                assert(("Q")@ =~= seq!['Q']);
            }
            "Q"
        },
        Card::King(_) => {
            proof {
                reveal_strlit("K");
                assert(("K")@ =~= seq!['K']);
            }
            "K"
        },
        Card::Joker(_) => {
            proof {
                reveal_strlit("F");
                assert(("F")@ =~= seq!['F']);
            }
            "F"
        },
    }
}

/// The one-character string holding a card's suit or joker-id character.
fn suit_str(c: &Card) -> (r: &'static str)
    ensures
        r@ == seq![spec_suit_char(*c)],
{
    match *c {
        Card::Joker(JokerId::A) => {
            proof {
                reveal_strlit("A");
                assert(("A")@ =~= seq!['A']);
            }
            "A"
        },
        Card::Joker(JokerId::B) => {
            proof {
                reveal_strlit("B");
                assert(("B")@ =~= seq!['B']);
            }
            "B"
        },
        _ => match spec_suit_exec(c) {
            Suit::Club => {
                proof {
                    reveal_strlit("C");
                    assert(("C")@ =~= seq!['C']);
                }
                "C"
            },
            Suit::Diamond => {
                proof {
                    reveal_strlit("D");
                    assert(("D")@ =~= seq!['D']);
                }
                "D"
            },
            Suit::Heart => {
                proof {
                    reveal_strlit("H");
                    assert(("H")@ =~= seq!['H']);
                }
                "H"
            },
            Suit::Spade => {
                proof {
                    reveal_strlit("S");
                    assert(("S")@ =~= seq!['S']);
                }
                "S"
            },
        },
    }
}

/// The card of rank `r` (1..=13) in suit `s`.
pub open spec fn spec_rank_card(r: int, s: Suit) -> Card {
    if r == 1 {
        Card::Ace(s)
    } else if r == 2 {
        Card::Two(s)
    } else if r == 3 {
        Card::Three(s)
    } else if r == 4 {
        Card::Four(s)
    } else if r == 5 {
        Card::Five(s)
    } else if r == 6 {
        Card::Six(s)
    } else if r == 7 {
        Card::Seven(s)
    } else if r == 8 {
        Card::Eight(s)
    } else if r == 9 {
        Card::Nine(s)
    } else if r == 10 {
        Card::Ten(s)
    } else if r == 11 {
        Card::Jack(s)
    } else if r == 12 {
        Card::Queen(s)
    } else {
        Card::King(s)
    }
}

/// The unique card whose default value is `v` (1..=54): the card at 1-based
/// position `v` of a fresh two-joker deck.
pub open spec fn spec_card_of_value(v: int) -> Card {
    if v <= 13 {
        spec_rank_card(v, Suit::Heart)
    } else if v <= 26 {
        spec_rank_card(v - 13, Suit::Club)
    } else if v <= 39 {
        spec_rank_card(40 - v, Suit::Diamond)
    } else if v <= 52 {
        spec_rank_card(53 - v, Suit::Spade)
    } else if v == 53 {
        Card::Joker(JokerId::A)
    } else {
        Card::Joker(JokerId::B)
    }
}

/// The card of rank `r` in suit `s`, executable twin of `spec_rank_card`.
pub(crate) fn rank_card(r: u8, s: Suit) -> (c: Card)
    requires
        1 <= r <= 13,
    ensures
        c == spec_rank_card(r as int, s),
{
    if r == 1 {
        Card::Ace(s)
    } else if r == 2 {
        Card::Two(s)
    } else if r == 3 {
        Card::Three(s)
    } else if r == 4 {
        Card::Four(s)
    } else if r == 5 {
        Card::Five(s)
    } else if r == 6 {
        Card::Six(s)
    } else if r == 7 {
        Card::Seven(s)
    } else if r == 8 {
        Card::Eight(s)
    } else if r == 9 {
        Card::Nine(s)
    } else if r == 10 {
        Card::Ten(s)
    } else if r == 11 {
        Card::Jack(s)
    } else if r == 12 {
        Card::Queen(s)
    } else {
        Card::King(s)
    }
}

/// The card at 1-based position `v` of a fresh two-joker deck, executable
/// twin of `spec_card_of_value`.
pub(crate) fn card_of_value(v: u8) -> (c: Card)
    requires
        1 <= v <= 54,
    ensures
        c == spec_card_of_value(v as int),
        spec_default_value(c) == v as int,
{
    if v <= 13 {
        rank_card(v, Suit::Heart)
    } else if v <= 26 {
        rank_card(v - 13, Suit::Club)
    } else if v <= 39 {
        rank_card(40 - v, Suit::Diamond)
    } else if v <= 52 {
        rank_card(53 - v, Suit::Spade)
    } else if v == 53 {
        Card::Joker(JokerId::A)
    } else {
        Card::Joker(JokerId::B)
    }
}

/// Suit of a non-joker card, executable twin of `spec_suit`.
fn spec_suit_exec(c: &Card) -> (r: Suit)
    ensures
        r == spec_suit(*c),
{
    match *c {
        Card::Ace(s) => s,
        Card::Two(s) => s,
        Card::Three(s) => s,
        Card::Four(s) => s,
        Card::Five(s) => s,
        Card::Six(s) => s,
        Card::Seven(s) => s,
        Card::Eight(s) => s,
        Card::Nine(s) => s,
        Card::Ten(s) => s,
        Card::Jack(s) => s,
        Card::Queen(s) => s,
        Card::King(s) => s,
        Card::Joker(_) => Suit::Heart,
    }
}

} // verus!
