//! The euchre deck, and how its cards rank under a trump suit.

use vstd::prelude::*;
use crate::deck;
use crate::french;
pub use crate::french::Suit;

verus! {

/// Euchre card rank.
#[derive(Debug, Clone, Copy, PartialEq, Eq, Structural, Hash, PartialOrd, Ord)]
pub enum Rank {
    Nine,
    Ten,
    Jack,
    Queen,
    King,
    Ace,
}

/// A euchre card. Cards compare by rank, then by suit; what a card is
/// worth in a trick depends on trump and lead, and is no part of that.
#[derive(Debug, Clone, Copy, PartialEq, Eq, Structural, Hash, PartialOrd, Ord)]
pub struct Card {
    /// Card rank.
    pub rank: Rank,
    /// Card suit.
    pub suit: Suit,
}

/// A euchre deck.
pub type Deck = deck::Deck<Card>;

/// The orders in which a hand of cards can be put.
#[derive(Debug, Clone, Copy, PartialEq, Eq, Structural)]
pub enum CardOrder {
    /// By suit, then by rank: the order of a hand before trump is known.
    Plain,
    /// By the suit that a card counts as under the given trump suit, then
    /// by what the card is worth when it leads.
    Trump(Suit),
    /// By what a card is worth when it leads under the given trump suit,
    /// whatever its suit.
    Worth(Suit),
}

impl Rank {
    /// The same rank in the French deck.
    pub open spec fn spec_to_french(self) -> french::Rank {
        match self {
            Rank::Nine => french::Rank::Nine,
            Rank::Ten => french::Rank::Ten,
            Rank::Jack => french::Rank::Jack,
            Rank::Queen => french::Rank::Queen,
            Rank::King => french::Rank::King,
            Rank::Ace => french::Rank::Ace,
        }
    }

    /// The euchre rank of a French rank, for the six ranks that euchre
    /// plays with.
    pub open spec fn spec_from_french(r: french::Rank) -> Option<Rank> {
        match r {
            french::Rank::Nine => Some(Rank::Nine),
            french::Rank::Ten => Some(Rank::Ten),
            french::Rank::Jack => Some(Rank::Jack),
            french::Rank::Queen => Some(Rank::Queen),
            french::Rank::King => Some(Rank::King),
            french::Rank::Ace => Some(Rank::Ace),
            _ => None,
        }
    }

    /// The euchre rank that a character stands for.
    pub open spec fn spec_from_char(c: char) -> Option<Rank> {
        match french::Rank::spec_from_char(c) {
            Some(r) => Rank::spec_from_french(r),
            None => None,
        }
    }

    /// The position of the rank, from the nine up to the ace.
    pub open spec fn spec_index(self) -> int {
        match self {
            Rank::Nine => 0,
            Rank::Ten => 1,
            Rank::Jack => 2,
            Rank::Queen => 3,
            Rank::King => 4,
            Rank::Ace => 5,
        }
    }

    /// Returns all ranks, in no particular order.
    pub fn all_ranks() -> (ranks: [Rank; 6])
        ensures
            ranks@ == seq![
                Rank::Nine,
                Rank::Ten,
                Rank::Jack,
                Rank::Queen,
                Rank::King,
                Rank::Ace,
            ],
    {
        [Rank::Nine, Rank::Ten, Rank::Jack, Rank::Queen, Rank::King, Rank::Ace]
    }

    /// The position of the rank, from the nine up to the ace.
    pub fn index(self) -> (i: u8)
        ensures
            i == self.spec_index(),
    {
        match self {
            Rank::Nine => 0,
            Rank::Ten => 1,
            Rank::Jack => 2,
            Rank::Queen => 3,
            Rank::King => 4,
            Rank::Ace => 5,
        }
    }

    /// Converts to the rank of the French deck.
    #[verifier::when_used_as_spec(spec_to_french)]
    pub fn to_french(self) -> (r: french::Rank)
        ensures
            r == self.spec_to_french(),
    {
        match self {
            Rank::Nine => french::Rank::Nine,
            Rank::Ten => french::Rank::Ten,
            Rank::Jack => french::Rank::Jack,
            Rank::Queen => french::Rank::Queen,
            Rank::King => french::Rank::King,
            Rank::Ace => french::Rank::Ace,
        }
    }

    /// Converts from a rank of the French deck; the ranks below nine have
    /// no place in euchre.
    pub fn from_french(r: french::Rank) -> (rank: Option<Rank>)
        ensures
            rank == Rank::spec_from_french(r),
    {
        match r {
            french::Rank::Nine => Some(Rank::Nine),
            french::Rank::Ten => Some(Rank::Ten),
            french::Rank::Jack => Some(Rank::Jack),
            french::Rank::Queen => Some(Rank::Queen),
            french::Rank::King => Some(Rank::King),
            french::Rank::Ace => Some(Rank::Ace),
            _ => None,
        }
    }

    /// Reads a rank from one character.
    pub fn from_char(s: char) -> (rank: Option<Rank>)
        ensures
            rank == Rank::spec_from_char(s),
    {
        match french::Rank::from_char(s) {
            Some(r) => Rank::from_french(r),
            None => None,
        }
    }

    /// Returns the character for the rank.
    pub fn to_char(self) -> (c: char)
        ensures
            c == self.spec_to_french().spec_to_char(),
    {
        self.to_french().to_char()
    }
}

impl Card {
    /// A card is trump if it is of the trump suit, or if it is the jack of
    /// the other suit of the same colour.
    pub open spec fn spec_is_trump(self, trump: Suit) -> bool {
        self.suit == trump || (self.rank == Rank::Jack && self.suit.spec_color()
            == trump.spec_color())
    }

    /// The suit that a card counts as: trump for every trump card, else
    /// the card's own.
    pub open spec fn spec_effective_suit(self, trump: Suit) -> Suit {
        if self.spec_is_trump(trump) {
            trump
        } else {
            self.suit
        }
    }

    /// A card follows a lead if both count as the same suit.
    pub open spec fn spec_is_following(self, trump: Suit, lead: Card) -> bool {
        self.spec_effective_suit(trump) == lead.spec_effective_suit(trump)
    }

    /// What a card is worth in a trick: trump cards 7 to 13, with the two
    /// jacks on top; cards of the suit led, where the lead is no trump, 1
    /// to 6; every other card 0.
    pub open spec fn spec_value(self, trump: Suit, lead: Card) -> int {
        if self.spec_is_trump(trump) {
            match self.rank {
                Rank::Nine => 7,
                Rank::Ten => 8,
                Rank::Queen => 9,
                Rank::King => 10,
                Rank::Ace => 11,
                Rank::Jack => if self.suit == trump {
                    13
                } else {
                    12
                },
            }
        } else if self.suit == lead.suit && !lead.spec_is_trump(trump) {
            self.rank.spec_index() + 1
        } else {
            0
        }
    }

    /// What a card is worth in a trick without trump: 1 to 6 in the suit
    /// led, else 0.
    pub open spec fn spec_trumpless_value(self, lead: Card) -> int {
        if self.suit == lead.suit {
            self.rank.spec_index() + 1
        } else {
            0
        }
    }

    /// The key that orders a hand before trump is known: by suit, then by
    /// rank.
    pub open spec fn spec_plain_key(self) -> int {
        self.suit.spec_index() * 6 + self.rank.spec_index()
    }

    /// The key that orders a hand under a trump suit: by the suit a card
    /// counts as, then by what it is worth when it leads.
    pub open spec fn spec_trump_key(self, trump: Suit) -> int {
        self.spec_effective_suit(trump).spec_index() * 14 + self.spec_value(trump, self)
    }

    /// The key by which a card takes its place in an order of cards.
    pub open spec fn spec_sort_key(self, order: CardOrder) -> int {
        match order {
            CardOrder::Plain => self.spec_plain_key(),
            CardOrder::Trump(t) => self.spec_trump_key(t),
            CardOrder::Worth(t) => self.spec_value(t, self),
        }
    }

    /// The same card in the French deck.
    pub open spec fn spec_to_french(self) -> french::Card {
        french::Card { rank: self.rank.spec_to_french(), suit: self.suit }
    }

    /// The euchre card of a French card, if euchre plays with its rank.
    pub open spec fn spec_from_french(card: french::Card) -> Option<Card> {
        match Rank::spec_from_french(card.rank) {
            Some(rank) => Some(Card { rank, suit: card.suit }),
            None => None,
        }
    }

    /// The two characters that a card is written with: rank, then suit.
    pub open spec fn spec_token(self) -> Seq<char> {
        self.spec_to_french().spec_token()
    }

    /// The card that a text stands for.
    pub open spec fn spec_parse(s: Seq<char>) -> Option<Card> {
        match french::Card::spec_parse(s) {
            Some(c) => Card::spec_from_french(c),
            None => None,
        }
    }

    /// Creates a new [`Card`].
    pub fn new(rank: Rank, suit: Suit) -> (card: Self)
        ensures
            card == (Card { rank, suit }),
    {
        Self { rank, suit }
    }

    /// Returns true if the card is consindered to be trump, given the suit declared in the
    /// contract.
    #[verifier::when_used_as_spec(spec_is_trump)]
    pub fn is_trump(self, trump: Suit) -> (b: bool)
        ensures
            b == self.spec_is_trump(trump),
    {
        self.suit == trump || (matches!(self.rank, Rank::Jack) && self.suit.color()
            == trump.color())
    }

    /// Returns the effective suit for this card, given the suit declared in the contract.
    #[verifier::when_used_as_spec(spec_effective_suit)]
    pub fn effective_suit(self, trump: Suit) -> (suit: Suit)
        ensures
            suit == self.spec_effective_suit(trump),
    {
        if self.is_trump(trump) {
            trump
        } else {
            self.suit
        }
    }

    /// Returns true if the played card is the same effective suit as the card that was lead.
    #[verifier::when_used_as_spec(spec_is_following)]
    pub fn is_following(self, trump: Suit, lead: Card) -> (b: bool)
        ensures
            b == self.spec_is_following(trump, lead),
    {
        self.effective_suit(trump) == lead.effective_suit(trump)
    }

    /// Returns the value of the card, for determining the winner of a trick.
    pub fn value(self, trump: Suit, lead: Card) -> (v: u8)
        ensures
            v == self.spec_value(trump, lead),
            v <= 13,
    {
        if self.is_trump(trump) {
            match self.rank {
                Rank::Nine => 7,
                Rank::Ten => 8,
                Rank::Queen => 9,
                Rank::King => 10,
                Rank::Ace => 11,
                Rank::Jack => {
                    if self.suit == trump {
                        13
                    } else {
                        12
                    }
                },
            }
        } else if self.suit == lead.suit && !lead.is_trump(trump) {
            match self.rank {
                Rank::Nine => 1,
                Rank::Ten => 2,
                Rank::Jack => 3,
                Rank::Queen => 4,
                Rank::King => 5,
                Rank::Ace => 6,
            }
        } else {
            0
        }
    }

    /// Returns the value of the card in a trick played without trump.
    pub fn trumpless_value(self, lead: Card) -> (v: u8)
        ensures
            v == self.spec_trumpless_value(lead),
    {
        if self.suit == lead.suit {
            match self.rank {
                Rank::Nine => 1,
                Rank::Ten => 2,
                Rank::Jack => 3,
                Rank::Queen => 4,
                Rank::King => 5,
                Rank::Ace => 6,
            }
        } else {
            0
        }
    }

    /// Returns the key that orders a hand by suit, then by rank.
    pub fn plain_key(self) -> (k: u8)
        ensures
            k == self.spec_plain_key(),
    {
        self.suit.index() * 6 + self.rank.index()
    }

    /// Returns the key that orders a hand under a trump suit.
    pub fn trump_key(self, trump: Suit) -> (k: u8)
        ensures
            k == self.spec_trump_key(trump),
    {
        self.effective_suit(trump).index() * 14 + self.value(trump, self)
    }

    /// Returns the key by which the card takes its place in an order of
    /// cards.
    pub fn sort_key(self, order: CardOrder) -> (k: u8)
        ensures
            k == self.spec_sort_key(order),
    {
        match order {
            CardOrder::Plain => self.plain_key(),
            CardOrder::Trump(t) => self.trump_key(t),
            CardOrder::Worth(t) => self.value(t, self),
        }
    }

    /// Converts to the card of the French deck.
    pub fn to_french(self) -> (card: french::Card)
        ensures
            card == self.spec_to_french(),
    {
        french::Card { rank: self.rank.to_french(), suit: self.suit }
    }

    /// Converts from a card of the French deck.
    pub fn from_french(card: french::Card) -> (r: Result<Card, ()>)
        ensures
            r == (match Card::spec_from_french(card) {
                Some(c) => Ok::<Card, ()>(c),
                None => Err(()),
            }),
    {
        match Rank::from_french(card.rank) {
            Some(rank) => Ok(Card { rank, suit: card.suit }),
            None => Err(()),
        }
    }

    /// Writes the card as its two-character token.
    pub fn to_string(&self) -> (s: String)
        ensures
            s@ == self.spec_token(),
    {
        self.to_french().to_string()
    }

    /// Reads a card from its two-character token.
    pub fn from_str(s: &str) -> (card: Result<Card, ()>)
        ensures
            card == (match Card::spec_parse(s@) {
                Some(c) => Ok::<Card, ()>(c),
                None => Err(()),
            }),
    {
        match french::Card::from_str(s) {
            Ok(c) => Card::from_french(c),
            Err(e) => Err(e),
        }
    }
}

/// The card at a place of the full deck: ranks from the nine up, and
/// within each rank the four suits.
pub open spec fn spec_deck_card(i: int) -> Card {
    Card {
        rank: if i / 4 == 0 {
            Rank::Nine
        } else if i / 4 == 1 {
            Rank::Ten
        } else if i / 4 == 2 {
            Rank::Jack
        } else if i / 4 == 3 {
            Rank::Queen
        } else if i / 4 == 4 {
            Rank::King
        } else {
            Rank::Ace
        },
        suit: if i % 4 == 0 {
            Suit::Club
        } else if i % 4 == 1 {
            Suit::Diamond
        } else if i % 4 == 2 {
            Suit::Heart
        } else {
            Suit::Spade
        },
    }
}

/// The full euchre deck: every rank in every suit, 24 cards.
pub open spec fn spec_full_deck() -> Seq<Card> {
    Seq::new(24, |i: int| spec_deck_card(i))
}

impl Default for deck::Deck<Card> {
    /// The full euchre deck, unshuffled.
    fn default() -> (deck: Self)
        ensures
            deck@ == spec_full_deck(),
    {
        full_deck()
    }
}

/// Builds the full euchre deck, unshuffled.
pub fn full_deck() -> (deck: Deck)
    ensures
        deck@ == spec_full_deck(),
{
    let ranks = Rank::all_ranks();
    let suits = Suit::all_suits();
    let mut cards: Vec<Card> = Vec::new();
    let mut r: usize = 0;
    while r < 6
        invariant
            r <= 6,
            ranks@ == seq![
                Rank::Nine,
                Rank::Ten,
                Rank::Jack,
                Rank::Queen,
                Rank::King,
                Rank::Ace,
            ],
            suits@ == seq![Suit::Club, Suit::Diamond, Suit::Heart, Suit::Spade],
            cards@.len() == 4 * r,
            forall|i: int| 0 <= i < cards@.len() ==> cards@[i] == spec_deck_card(i),
        decreases 6 - r,
    {
        let mut s: usize = 0;
        while s < 4
            invariant
                r < 6,
                s <= 4,
                ranks@ == seq![
                    Rank::Nine,
                    Rank::Ten,
                    Rank::Jack,
                    Rank::Queen,
                    Rank::King,
                    Rank::Ace,
                ],
                suits@ == seq![Suit::Club, Suit::Diamond, Suit::Heart, Suit::Spade],
                cards@.len() == 4 * r + s,
                forall|i: int| 0 <= i < cards@.len() ==> cards@[i] == spec_deck_card(i),
            decreases 4 - s,
        {
            cards.push(Card { rank: ranks[r], suit: suits[s] });
            s = s + 1;
        }
        r = r + 1;
    }
    assert(cards@ =~= spec_full_deck());
    deck::Deck::from_vec(cards)
}

/// Whether cards stand in the given order: by their keys, the least
/// first.
pub open spec fn spec_sorted(cards: Seq<Card>, order: CardOrder) -> bool {
    forall|i: int, j: int|
        0 <= i < j < cards.len() ==> (#[trigger] cards[i]).spec_sort_key(order) <= (
        #[trigger] cards[j]).spec_sort_key(order)
}

/// The place that a card takes among cards in order: after all cards
/// whose key is no greater than its own.
pub open spec fn spec_sorted_place(sorted: Seq<Card>, card: Card, order: CardOrder) -> int
    decreases sorted.len(),
{
    if sorted.len() == 0 {
        0
    } else if sorted.last().spec_sort_key(order) <= card.spec_sort_key(order) {
        sorted.len() as int
    } else {
        spec_sorted_place(sorted.drop_last(), card, order)
    }
}

/// The given cards in the given order. Cards with the same key stay in
/// the order in which they were given.
pub open spec fn spec_sort(cards: Seq<Card>, order: CardOrder) -> Seq<Card>
    decreases cards.len(),
{
    if cards.len() == 0 {
        Seq::empty()
    } else {
        let before = spec_sort(cards.drop_last(), order);
        before.insert(spec_sorted_place(before, cards.last(), order), cards.last())
    }
}

/// Where a card takes its place among cards in order, the cards before
/// it have keys no greater than its own, and the cards after it have
/// greater keys.
pub proof fn lemma_sorted_place(sorted: Seq<Card>, card: Card, order: CardOrder)
    requires
        spec_sorted(sorted, order),
    ensures
        0 <= spec_sorted_place(sorted, card, order) <= sorted.len(),
        forall|j: int|
            0 <= j < spec_sorted_place(sorted, card, order) ==> (#[trigger] sorted[j]).spec_sort_key(
                order,
            ) <= card.spec_sort_key(order),
        forall|j: int|
            spec_sorted_place(sorted, card, order) <= j < sorted.len() ==> (
            #[trigger] sorted[j]).spec_sort_key(order) > card.spec_sort_key(order),
    decreases sorted.len(),
{
    if sorted.len() > 0 {
        if sorted.last().spec_sort_key(order) <= card.spec_sort_key(order) {
            assert forall|j: int| 0 <= j < sorted.len() implies (#[trigger] sorted[j]).spec_sort_key(
                order,
            ) <= card.spec_sort_key(order) by {
                if j < sorted.len() - 1 {
                    assert(sorted[j].spec_sort_key(order) <= sorted[sorted.len() - 1].spec_sort_key(
                        order,
                    ));
                }
            }
        } else {
            assert forall|i: int, j: int| 0 <= i < j < sorted.drop_last().len() implies (
            #[trigger] sorted.drop_last()[i]).spec_sort_key(order) <= (
            #[trigger] sorted.drop_last()[j]).spec_sort_key(order) by {
                assert(sorted[i].spec_sort_key(order) <= sorted[j].spec_sort_key(order));
            }
            lemma_sorted_place(sorted.drop_last(), card, order);
            assert forall|j: int|
                spec_sorted_place(sorted, card, order) <= j < sorted.len() implies (
            #[trigger] sorted[j]).spec_sort_key(order) > card.spec_sort_key(order) by {
                if j < sorted.len() - 1 {
                    assert(sorted.drop_last()[j] == sorted[j]);
                }
            }
            assert forall|j: int| 0 <= j < spec_sorted_place(sorted, card, order) implies (
            #[trigger] sorted[j]).spec_sort_key(order) <= card.spec_sort_key(order) by {
                assert(sorted.drop_last()[j] == sorted[j]);
            }
        }
    }
}

/// Cards that are put in order are the same cards, and stand in order.
pub proof fn lemma_sort(cards: Seq<Card>, order: CardOrder)
    ensures
        spec_sort(cards, order).to_multiset() == cards.to_multiset(),
        spec_sort(cards, order).len() == cards.len(),
        spec_sorted(spec_sort(cards, order), order),
    decreases cards.len(),
{
    broadcast use vstd::seq_lib::group_to_multiset_ensures;

    if cards.len() > 0 {
        let card = cards.last();
        let before = spec_sort(cards.drop_last(), order);
        lemma_sort(cards.drop_last(), order);
        lemma_sorted_place(before, card, order);
        let place = spec_sorted_place(before, card, order);
        let after = spec_sort(cards, order);
        assert(cards =~= cards.drop_last().push(card));
        vstd::seq_lib::to_multiset_build(cards.drop_last(), card);
        vstd::seq_lib::to_multiset_insert(before, place, card);
        assert forall|a: int, b: int| 0 <= a < b < after.len() implies (
        #[trigger] after[a]).spec_sort_key(order) <= (#[trigger] after[b]).spec_sort_key(order) by {
            let pa = if a < place {
                a
            } else {
                a - 1
            };
            let pb = if b < place {
                b
            } else {
                b - 1
            };
            if a != place && b != place {
                assert(before[pa].spec_sort_key(order) <= before[pb].spec_sort_key(order));
            } else if b == place {
                assert(before[pa].spec_sort_key(order) <= card.spec_sort_key(order));
            } else {
                assert(before[pb].spec_sort_key(order) > card.spec_sort_key(order));
            }
        }
    }
}

/// Puts cards in the given order. Cards with the same key stay in the
/// order in which they were.
pub fn sort_cards(cards: &mut Vec<Card>, order: CardOrder)
    ensures
        final(cards)@ == spec_sort(old(cards)@, order),
        final(cards)@.to_multiset() == old(cards)@.to_multiset(),
        final(cards)@.len() == old(cards)@.len(),
        spec_sorted(final(cards)@, order),
{
    let mut sorted: Vec<Card> = Vec::new();
    let mut i: usize = 0;
    assert(cards@.take(0) =~= Seq::<Card>::empty());
    while i < cards.len()
        invariant
            i <= cards.len(),
            cards@ == old(cards)@,
            sorted@ == spec_sort(cards@.take(i as int), order),
        decreases cards.len() - i,
    {
        let card = cards[i];
        let key = card.sort_key(order);
        proof {
            lemma_sort(cards@.take(i as int), order);
            assert(cards@.take(i + 1).drop_last() =~= cards@.take(i as int));
            assert(cards@.take(i + 1).last() == card);
        }
        let mut place: usize = sorted.len();
        assert(sorted@.take(place as int) =~= sorted@);
        while place > 0 && sorted[place - 1].sort_key(order) > key
            invariant
                place <= sorted.len(),
                key == card.spec_sort_key(order),
                spec_sorted_place(sorted@, card, order) == spec_sorted_place(
                    sorted@.take(place as int),
                    card,
                    order,
                ),
            decreases place,
        {
            proof {
                assert(sorted@.take(place as int).drop_last() =~= sorted@.take(place - 1));
                assert(sorted@.take(place as int).last() == sorted@[place - 1]);
            }
            place = place - 1;
        }
        proof {
            if place > 0 {
                assert(sorted@.take(place as int).last() == sorted@[place - 1]);
            }
            assert(spec_sorted_place(sorted@.take(place as int), card, order) == place);
        }
        sorted.insert(place, card);
        i = i + 1;
    }
    proof {
        assert(cards@.take(i as int) =~= cards@);
        lemma_sort(cards@, order);
    }
    *cards = sorted;
}

/// Returns the given cards in the given order.
pub fn sorted_cards(cards: &Vec<Card>, order: CardOrder) -> (sorted: Vec<Card>)
    ensures
        sorted@ == spec_sort(cards@, order),
        sorted@.to_multiset() == cards@.to_multiset(),
        sorted@.len() == cards@.len(),
        spec_sorted(sorted@, order),
{
    let mut sorted: Vec<Card> = Vec::new();
    let mut i: usize = 0;
    while i < cards.len()
        invariant
            i <= cards.len(),
            sorted@ == cards@.take(i as int),
        decreases cards.len() - i,
    {
        sorted.push(cards[i]);
        assert(cards@.take(i + 1) =~= cards@.take(i as int).push(cards@[i as int]));
        i = i + 1;
    }
    assert(cards@.take(i as int) =~= cards@);
    sort_cards(&mut sorted, order);
    sorted
}

/// The two jacks of the trump colour outrank every other card, the jack
/// of the trump suit above the other; every trump card outranks every
/// card that is none; and a card that neither is trump nor follows a
/// plain lead is worth nothing.
pub proof fn lemma_value_order(card: Card, trump: Suit, lead: Card)
    ensures
        0 <= card.spec_value(trump, lead) <= 13,
        card.spec_value(trump, lead) == 13 <==> card == (Card { rank: Rank::Jack, suit: trump }),
        card.spec_value(trump, lead) == 12 <==> card == (Card {
            rank: Rank::Jack,
            suit: trump.spec_to_matching_color(),
        }),
        card.spec_is_trump(trump) <==> card.spec_value(trump, lead) >= 7,
        card.spec_value(trump, lead) == 0 <==> !card.spec_is_trump(trump) && !(card.suit
            == lead.suit && !lead.spec_is_trump(trump)),
{
}

/// Two cards that are worth the same in one trick, and are worth
/// something, are the same card.
pub proof fn lemma_value_injective(a: Card, b: Card, trump: Suit, lead: Card)
    requires
        a.spec_value(trump, lead) == b.spec_value(trump, lead),
        a.spec_value(trump, lead) > 0,
    ensures
        a == b,
{
}

/// Both keys that order a hand tell any two cards apart.
pub proof fn lemma_keys_injective(a: Card, b: Card, trump: Suit)
    ensures
        a.spec_plain_key() == b.spec_plain_key() ==> a == b,
        a.spec_trump_key(trump) == b.spec_trump_key(trump) ==> a == b,
        0 <= a.spec_plain_key() < 24,
        0 < a.spec_trump_key(trump) < 56,
{
}

/// A euchre card's token reads back as the card.
pub proof fn lemma_token_round_trip(card: Card)
    ensures
        card.spec_token().len() == 2,
        Card::spec_parse(card.spec_token()) == Some(card),
{
}

/// No card occurs twice in the full deck.
pub proof fn lemma_full_deck_distinct()
    ensures
        spec_full_deck().len() == 24,
        spec_full_deck().no_duplicates(),
{
    assert forall|i: int, j: int|
        0 <= i < 24 && 0 <= j < 24 && i != j implies spec_full_deck()[i] != spec_full_deck()[j] by {
        let a = spec_deck_card(i);
        let b = spec_deck_card(j);
        if a == b {
            assert(i / 4 == j / 4);
            assert(i % 4 == j % 4);
        }
    }
}

} // verus!
