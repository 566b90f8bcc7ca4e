//! The French deck: suits, colours, ranks and the two-character card token.

use vstd::prelude::*;

verus! {

/// Suit color.
#[derive(Debug, Clone, Copy, PartialEq, Eq, Structural, Hash)]
pub enum Color {
    Red,
    Black,
}

/// French suits.
#[derive(Debug, Clone, Copy, PartialEq, Eq, Structural, Hash, PartialOrd, Ord)]
pub enum Suit {
    Club,
    Diamond,
    Spade,
    Heart,
}

impl Suit {
    /// The colour of each suit.
    pub open spec fn spec_color(self) -> Color {
        match self {
            Suit::Diamond | Suit::Heart => Color::Red,
            Suit::Club | Suit::Spade => Color::Black,
        }
    }

    /// The other suit of the same colour.
    pub open spec fn spec_to_matching_color(self) -> Suit {
        match self {
            Suit::Club => Suit::Spade,
            Suit::Diamond => Suit::Heart,
            Suit::Heart => Suit::Diamond,
            Suit::Spade => Suit::Club,
        }
    }

    /// The position of the suit in the order that sorts a hand.
    pub open spec fn spec_index(self) -> int {
        match self {
            Suit::Club => 0,
            Suit::Diamond => 1,
            Suit::Spade => 2,
            Suit::Heart => 3,
        }
    }

    /// The place of the suit in the list of all suits.
    pub open spec fn spec_place(self) -> int {
        match self {
            Suit::Club => 0,
            Suit::Diamond => 1,
            Suit::Heart => 2,
            Suit::Spade => 3,
        }
    }

    /// The glyph that a suit is written with.
    pub open spec fn spec_to_char(self) -> char {
        match self {
            Suit::Club => '♣',
            Suit::Diamond => '♦',
            Suit::Heart => '♡',
            Suit::Spade => '♤',
        }
    }

    /// The suit that a character stands for: a glyph, filled or hollow, or
    /// the suit's initial in either case.
    pub open spec fn spec_from_char(c: char) -> Option<Suit> {
        if c == '♣' || c == '♧' || c == 'C' || c == 'c' {
            Some(Suit::Club)
        } else if c == '♥' || c == '♡' || c == 'H' || c == 'h' {
            Some(Suit::Heart)
        } else if c == '♦' || c == '♢' || c == 'D' || c == 'd' {
            Some(Suit::Diamond)
        } else if c == '♠' || c == '♤' || c == 'S' || c == 's' {
            Some(Suit::Spade)
        } else {
            None
        }
    }

    /// Returns all suits, in no particular order.
    pub fn all_suits() -> (suits: [Suit; 4])
        ensures
            suits@ == seq![Suit::Club, Suit::Diamond, Suit::Heart, Suit::Spade],
    {
        [Suit::Club, Suit::Diamond, Suit::Heart, Suit::Spade]
    }

    /// Returns the color of this suit.
    #[verifier::when_used_as_spec(spec_color)]
    pub fn color(self) -> (color: Color)
        ensures
            color == self.spec_color(),
    {
        match self {
            Suit::Diamond | Suit::Heart => Color::Red,
            Suit::Club | Suit::Spade => Color::Black,
        }
    }

    /// Returns the other suit of the same color.
    #[verifier::when_used_as_spec(spec_to_matching_color)]
    pub fn to_matching_color(self) -> (other: Suit)
        ensures
            other == self.spec_to_matching_color(),
            other != self,
            other.spec_color() == self.spec_color(),
    {
        match self {
            Suit::Club => Suit::Spade,
            Suit::Diamond => Suit::Heart,
            Suit::Heart => Suit::Diamond,
            Suit::Spade => Suit::Club,
        }
    }

    /// Returns the position of the suit in the order that sorts a hand.
    pub fn index(self) -> (i: u8)
        ensures
            i == self.spec_index(),
    {
        match self {
            Suit::Club => 0,
            Suit::Diamond => 1,
            Suit::Spade => 2,
            Suit::Heart => 3,
        }
    }

    /// Returns the glyph for the suit.
    #[verifier::when_used_as_spec(spec_to_char)]
    pub fn to_char(self) -> (c: char)
        ensures
            c == self.spec_to_char(),
    {
        match self {
            Suit::Club => '♣',
            Suit::Diamond => '♦',
            Suit::Heart => '♡',
            Suit::Spade => '♤',
        }
    }

    /// Reads a suit from one character.
    pub fn from_char(c: char) -> (suit: Option<Suit>)
        ensures
            suit == Suit::spec_from_char(c),
    {
        if c == '♣' || c == '♧' || c == 'C' || c == 'c' {
            Some(Suit::Club)
        } else if c == '♥' || c == '♡' || c == 'H' || c == 'h' {
            Some(Suit::Heart)
        } else if c == '♦' || c == '♢' || c == 'D' || c == 'd' {
            Some(Suit::Diamond)
        } else if c == '♠' || c == '♤' || c == 'S' || c == 's' {
            Some(Suit::Spade)
        } else {
            None
        }
    }

    /// Reads a suit from a string of exactly one character.
    pub fn from_str(s: &str) -> (suit: Result<Suit, ()>)
        ensures
            suit == (if s@.len() == 1 {
                match Suit::spec_from_char(s@[0]) {
                    Some(x) => Ok::<Suit, ()>(x),
                    None => Err(()),
                }
            } else {
                Err(())
            }),
    {
        if s.unicode_len() != 1 {
            return Err(());
        }
        match Suit::from_char(s.get_char(0)) {
            Some(x) => Ok(x),
            None => Err(()),
        }
    }

    /// Returns the suit's glyph as a string.
    pub fn to_str(self) -> (s: &'static str)
        ensures
            s@ == seq![self.spec_to_char()],
    {
        proof {
            reveal_strlit("♣");
            reveal_strlit("♦");
            reveal_strlit("♡");
            reveal_strlit("♤");
        }
        let s = match self {
            Suit::Club => "♣",
            Suit::Diamond => "♦",
            Suit::Heart => "♡",
            Suit::Spade => "♤",
        };
        assert(s@ =~= seq![self.spec_to_char()]);
        s
    }
}

/// French ranks.
#[derive(Debug, Clone, Copy, PartialEq, Eq, Structural, Hash, PartialOrd, Ord)]
pub enum Rank {
    Ace,
    Two,
    Three,
    Four,
    Five,
    Six,
    Seven,
    Eight,
    Nine,
    Ten,
    Jack,
    Queen,
    King,
}

impl Rank {
    /// The character that a rank is written with.
    pub open spec fn spec_to_char(self) -> char {
        match self {
            Rank::Two => '2',
            Rank::Three => '3',
            Rank::Four => '4',
            Rank::Five => '5',
            Rank::Six => '6',
            Rank::Seven => '7',
            Rank::Eight => '8',
            Rank::Nine => '9',
            Rank::Ten => 'T',
            Rank::Jack => 'J',
            Rank::Queen => 'Q',
            Rank::King => 'K',
            Rank::Ace => 'A',
        }
    }

    /// The rank that a character stands for; letters count in either case.
    pub open spec fn spec_from_char(c: char) -> Option<Rank> {
        if c == 'A' || c == 'a' {
            Some(Rank::Ace)
        } else if c == '2' {
            Some(Rank::Two)
        } else if c == '3' {
            Some(Rank::Three)
        } else if c == '4' {
            Some(Rank::Four)
        } else if c == '5' {
            Some(Rank::Five)
        } else if c == '6' {
            Some(Rank::Six)
        } else if c == '7' {
            Some(Rank::Seven)
        } else if c == '8' {
            Some(Rank::Eight)
        } else if c == '9' {
            Some(Rank::Nine)
        } else if c == 'T' || c == 't' {
            Some(Rank::Ten)
        } else if c == 'J' || c == 'j' {
            Some(Rank::Jack)
        } else if c == 'Q' || c == 'q' {
            Some(Rank::Queen)
        } else if c == 'K' || c == 'k' {
            Some(Rank::King)
        } else {
            None
        }
    }

    /// Returns the character for the rank.
    #[verifier::when_used_as_spec(spec_to_char)]
    pub fn to_char(self) -> (c: char)
        ensures
            c == self.spec_to_char(),
    {
        match self {
            Rank::Two => '2',
            Rank::Three => '3',
            Rank::Four => '4',
            Rank::Five => '5',
            Rank::Six => '6',
            Rank::Seven => '7',
            Rank::Eight => '8',
            Rank::Nine => '9',
            Rank::Ten => 'T',
            Rank::Jack => 'J',
            Rank::Queen => 'Q',
            Rank::King => 'K',
            Rank::Ace => 'A',
        }
    }

    /// Reads a rank from one character.
    pub fn from_char(c: char) -> (rank: Option<Rank>)
        ensures
            rank == Rank::spec_from_char(c),
    {
        if c == 'A' || c == 'a' {
            Some(Rank::Ace)
        } else if c == '2' {
            Some(Rank::Two)
        } else if c == '3' {
            Some(Rank::Three)
        } else if c == '4' {
            Some(Rank::Four)
        } else if c == '5' {
            Some(Rank::Five)
        } else if c == '6' {
            Some(Rank::Six)
        } else if c == '7' {
            Some(Rank::Seven)
        } else if c == '8' {
            Some(Rank::Eight)
        } else if c == '9' {
            Some(Rank::Nine)
        } else if c == 'T' || c == 't' {
            Some(Rank::Ten)
        } else if c == 'J' || c == 'j' {
            Some(Rank::Jack)
        } else if c == 'Q' || c == 'q' {
            Some(Rank::Queen)
        } else if c == 'K' || c == 'k' {
            Some(Rank::King)
        } else {
            None
        }
    }

    /// Reads a rank from a string of exactly one character.
    pub fn from_str(s: &str) -> (rank: Result<Rank, ()>)
        ensures
            rank == (if s@.len() == 1 {
                match Rank::spec_from_char(s@[0]) {
                    Some(x) => Ok::<Rank, ()>(x),
                    None => Err(()),
                }
            } else {
                Err(())
            }),
    {
        if s.unicode_len() != 1 {
            return Err(());
        }
        match Rank::from_char(s.get_char(0)) {
            Some(x) => Ok(x),
            None => Err(()),
        }
    }

    /// Returns the rank's character as a string.
    pub fn to_str(self) -> (s: &'static str)
        ensures
            s@ == seq![self.spec_to_char()],
    {
        proof {
            reveal_strlit("2");
            reveal_strlit("3");
            reveal_strlit("4");
            reveal_strlit("5");
            reveal_strlit("6");
            reveal_strlit("7");
            reveal_strlit("8");
            reveal_strlit("9");
            reveal_strlit("T");
            reveal_strlit("J");
            reveal_strlit("Q");
            reveal_strlit("K");
            reveal_strlit("A");
        }
        let s = match self {
            Rank::Two => "2",
            Rank::Three => "3",
            Rank::Four => "4",
            Rank::Five => "5",
            Rank::Six => "6",
            Rank::Seven => "7",
            Rank::Eight => "8",
            Rank::Nine => "9",
            Rank::Ten => "T",
            Rank::Jack => "J",
            Rank::Queen => "Q",
            Rank::King => "K",
            Rank::Ace => "A",
        };
        assert(s@ =~= seq![self.spec_to_char()]);
        s
    }
}

/// A card of the French deck.
#[derive(Debug, Clone, Copy, PartialEq, Eq, Structural, Hash)]
pub struct Card {
    pub rank: Rank,
    pub suit: Suit,
}

impl Card {
    /// The two characters that a card is written with: rank, then suit.
    pub open spec fn spec_token(self) -> Seq<char> {
        seq![self.rank.spec_to_char(), self.suit.spec_to_char()]
    }

    /// The card that a text stands for: exactly a rank character followed
    /// by a suit character.
    pub open spec fn spec_parse(s: Seq<char>) -> Option<Card> {
        if s.len() != 2 {
            None
        } else {
            match (Rank::spec_from_char(s[0]), Suit::spec_from_char(s[1])) {
                (Some(rank), Some(suit)) => Some(Card { rank, suit }),
                _ => None,
            }
        }
    }

    /// Writes the card as its two-character token.
    pub fn to_string(&self) -> (s: String)
        ensures
            s@ == self.spec_token(),
    {
        let s = String::from_str(self.rank.to_str()).concat(self.suit.to_str());
        assert(s@ =~= self.spec_token());
        s
    }

    /// Reads a card from its two-character token.
    pub fn from_str(s: &str) -> (card: Result<Card, ()>)
        ensures
            card == (match Card::spec_parse(s@) {
                Some(c) => Ok::<Card, ()>(c),
                None => Err(()),
            }),
    {
        if s.unicode_len() != 2 {
            return Err(());
        }
        let rank = match Rank::from_char(s.get_char(0)) {
            Some(r) => r,
            None => {
                return Err(());
            },
        };
        let suit = match Suit::from_char(s.get_char(1)) {
            Some(x) => x,
            None => {
                return Err(());
            },
        };
        Ok(Card { rank, suit })
    }
}

/// Every suit is read back from its own glyph.
pub proof fn lemma_suit_char_round_trip(suit: Suit)
    ensures
        Suit::spec_from_char(suit.spec_to_char()) == Some(suit),
{
}

/// Every rank is read back from its own character.
pub proof fn lemma_rank_char_round_trip(rank: Rank)
    ensures
        Rank::spec_from_char(rank.spec_to_char()) == Some(rank),
{
}

/// A card's token has exactly two characters and reads back as the card.
pub proof fn lemma_card_token_round_trip(card: Card)
    ensures
        card.spec_token().len() == 2,
        Card::spec_parse(card.spec_token()) == Some(card),
{
}

} // verus!
