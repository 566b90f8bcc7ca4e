//! Configuration & initial conditions for a round.

use vstd::prelude::*;
use vstd::seq_lib::lemma_multiset_commutative;
use crate::card::{lemma_sort, sort_cards, spec_sort, Card, CardOrder, Deck};
use crate::error::RoundError;
use crate::seat::Seat;

verus! {

/// The initial conditions of a round as plain values.
pub struct RoundConfigView {
    /// The dealer for this round.
    pub dealer: Seat,
    /// Each player's hand, as dealt, by the seat's place clockwise from
    /// North.
    pub hands: Seq<Seq<Card>>,
    /// The upturned card, as dealt.
    pub top: Card,
}

impl RoundConfigView {
    /// The hand of a seat.
    pub open spec fn hand(self, seat: Seat) -> Seq<Card> {
        self.hands[seat.spec_index()]
    }

    /// All cards in play: the top card, then the four hands.
    pub open spec fn cards(self) -> Seq<Card> {
        seq![self.top] + self.hands[0] + self.hands[1] + self.hands[2] + self.hands[3]
    }

    /// Whether each of the four hands has five cards.
    pub open spec fn hand_sizes_ok(self) -> bool {
        &&& self.hands.len() == 4
        &&& forall|i: int| 0 <= i < 4 ==> (#[trigger] self.hands[i]).len() == 5
    }

    /// Whether the cards can begin a round: four hands of five, and no
    /// card among the twenty-one in play occurs twice.
    pub open spec fn valid(self) -> bool {
        self.hand_sizes_ok() && self.cards().no_duplicates()
    }

    /// What validation answers: a hand of the wrong size comes first,
    /// then a card that occurs twice.
    pub open spec fn validation(self) -> Result<(), RoundError> {
        if !self.hand_sizes_ok() {
            Err(RoundError::InvalidHandSize)
        } else if !self.cards().no_duplicates() {
            Err(RoundError::DuplicateCard)
        } else {
            Ok(())
        }
    }

    /// Whether this is another configuration put in order: the same
    /// dealer and top card, and in each hand the same cards, sorted by
    /// suit and rank.
    pub open spec fn canonical_of(self, other: RoundConfigView) -> bool {
        &&& self.dealer == other.dealer
        &&& self.top == other.top
        &&& self.hands.len() == 4
        &&& other.hands.len() == 4
        &&& forall|i: int|
            0 <= i < 4 ==> (#[trigger] self.hands[i]) == spec_sort(other.hands[i], CardOrder::Plain)
    }
}

/// How a deck of at least 21 cards is dealt: cards leave the deck from its
/// end. The seat after the dealer gets the last five, each next seat the
/// five before those, the dealer last; the card before all of them is
/// turned up.
pub open spec fn spec_deal(dealer: Seat, deck: Seq<Card>) -> RoundConfigView {
    let n = deck.len() as int;
    RoundConfigView {
        dealer,
        hands: Seq::new(
            4,
            |i: int|
                {
                    let k = (i - dealer.spec_index() - 1) % 4;
                    deck.subrange(n - 5 * (k + 1), n - 5 * k)
                },
        ),
        top: deck[n - 21],
    }
}

/// Configuration & initial conditions for a round.
#[derive(Debug)]
pub struct RoundConfig {
    /// The dealer for this round.
    dealer: Seat,
    /// Each player's hand, as dealt.
    north: Vec<Card>,
    east: Vec<Card>,
    south: Vec<Card>,
    west: Vec<Card>,
    /// The upturned card, as dealt.
    top: Card,
}

impl View for RoundConfig {
    type V = RoundConfigView;

    closed spec fn view(&self) -> RoundConfigView {
        RoundConfigView {
            dealer: self.dealer,
            hands: seq![self.north@, self.east@, self.south@, self.west@],
            top: self.top,
        }
    }
}

impl Clone for RoundConfig {
    fn clone(&self) -> (config: Self)
        ensures
            config@ == self@,
    {
        let config = RoundConfig {
            dealer: self.dealer,
            north: copy_cards(&self.north),
            east: copy_cards(&self.east),
            south: copy_cards(&self.south),
            west: copy_cards(&self.west),
            top: self.top,
        };
        assert(config@.hands =~= self@.hands);
        config
    }
}

/// Copies a hand of cards.
pub fn copy_cards(cards: &Vec<Card>) -> (copy: Vec<Card>)
    ensures
        copy@ == cards@,
{
    let mut copy: Vec<Card> = Vec::new();
    let mut i: usize = 0;
    while i < cards.len()
        invariant
            i <= cards.len(),
            copy@ == cards@.take(i as int),
        decreases cards.len() - i,
    {
        copy.push(cards[i]);
        assert(cards@.take(i + 1) =~= cards@.take(i as int).push(cards@[i as int]));
        i = i + 1;
    }
    assert(cards@.take(i as int) =~= cards@);
    copy
}

/// Tells whether no card occurs twice among the given ones.
pub fn all_distinct(cards: &Vec<Card>) -> (distinct: bool)
    ensures
        distinct == cards@.no_duplicates(),
{
    let mut seen: Vec<bool> = Vec::new();
    let mut k: usize = 0;
    while k < 24
        invariant
            k <= 24,
            seen@.len() == k,
            forall|j: int| 0 <= j < k ==> !seen@[j],
        decreases 24 - k,
    {
        seen.push(false);
        k = k + 1;
    }
    let mut i: usize = 0;
    while i < cards.len()
        invariant
            i <= cards.len(),
            seen@.len() == 24,
            cards@.take(i as int).no_duplicates(),
            forall|k: int|
                0 <= k < 24 ==> (#[trigger] seen@[k] <==> exists|j: int|
                    0 <= j < i && (#[trigger] cards@[j]).spec_plain_key() == k),
        decreases cards.len() - i,
    {
        let card = cards[i];
        let key = card.plain_key() as usize;
        proof {
            crate::card::lemma_keys_injective(card, card, crate::french::Suit::Club);
        }
        if seen[key] {
            proof {
                let j = choose|j: int| 0 <= j < i && (#[trigger] cards@[j]).spec_plain_key() == key;
                crate::card::lemma_keys_injective(cards@[j], card, crate::french::Suit::Club);
                assert(cards@[j] == cards@[i as int]);
            }
            return false;
        }
        let ghost before = seen@;
        seen.set(key, true);
        proof {
            let next = cards@.take(i + 1);
            assert forall|a: int, b: int|
                0 <= a < i + 1 && 0 <= b < i + 1 && a != b implies #[trigger] next[a]
                != #[trigger] next[b] by {
                if a < i && b < i {
                    assert(cards@.take(i as int)[a] != cards@.take(i as int)[b]);
                } else {
                    let other = if a < i {
                        a
                    } else {
                        b
                    };
                    if cards@[other] == card {
                        assert(cards@[other].spec_plain_key() == key);
                        assert(before[key as int]);
                    }
                }
            }
            assert forall|k: int| 0 <= k < 24 implies (#[trigger] seen@[k] <==> exists|j: int|
                0 <= j < i + 1 && (#[trigger] cards@[j]).spec_plain_key() == k) by {
                if k == key {
                    assert(cards@[i as int].spec_plain_key() == k);
                } else {
                    assert(seen@[k] == before[k]);
                    if before[k] {
                        let j = choose|j: int|
                            0 <= j < i && (#[trigger] cards@[j]).spec_plain_key() == k;
                        assert(0 <= j < i + 1 && cards@[j].spec_plain_key() == k);
                    }
                    if exists|j: int| 0 <= j < i + 1 && (#[trigger] cards@[j]).spec_plain_key() == k {
                        let j = choose|j: int|
                            0 <= j < i + 1 && (#[trigger] cards@[j]).spec_plain_key() == k;
                        assert(j != i);
                        assert(0 <= j < i && cards@[j].spec_plain_key() == k);
                    }
                }
            }
        }
        i = i + 1;
    }
    assert(cards@.take(i as int) =~= cards@);
    true
}

impl RoundConfig {
    /// A configuration has four hands.
    pub proof fn lemma_four_hands(&self)
        ensures
            self@.hands.len() == 4,
    {
    }

    /// Puts together a configuration from its parts, as they are: the
    /// cards are neither checked nor put in order.
    pub fn from_hands(
        dealer: Seat,
        north: Vec<Card>,
        east: Vec<Card>,
        south: Vec<Card>,
        west: Vec<Card>,
        top: Card,
    ) -> (config: Self)
        ensures
            config@ == (RoundConfigView { dealer, hands: seq![north@, east@, south@, west@], top }),
    {
        RoundConfig { dealer, north, east, south, west, top }
    }

    /// Creates a new [`RoundConfig`], with the specified dealer & deck.
    pub fn new(dealer: Seat, deck: Deck) -> (config: Result<Self, RoundError>)
        ensures
            deck@.len() < 24 ==> config == Err::<Self, RoundError>(RoundError::IncompleteDeck),
            deck@.len() >= 24 && !spec_deal(dealer, deck@).cards().no_duplicates() ==> config
                == Err::<Self, RoundError>(RoundError::DuplicateCard),
            deck@.len() >= 24 && spec_deal(dealer, deck@).cards().no_duplicates() ==> {
                &&& config is Ok
                &&& config.unwrap()@.valid()
                &&& config.unwrap()@.canonical_of(spec_deal(dealer, deck@))
            },
    {
        let mut deck = deck;
        if deck.len() < 24 {
            return Err(RoundError::IncompleteDeck);
        }
        let ghost full = deck@;
        let seats = dealer.next_n(4);
        let first = deck.take(5);
        let second = deck.take(5);
        let third = deck.take(5);
        let fourth = deck.take(5);
        let last = deck.take(1);
        let top = last[0];
        let mut round = RoundConfig {
            dealer,
            north: Vec::new(),
            east: Vec::new(),
            south: Vec::new(),
            west: Vec::new(),
            top,
        };
        round.set_hand(seats[0], first);
        round.set_hand(seats[1], second);
        round.set_hand(seats[2], third);
        round.set_hand(seats[3], fourth);
        proof {
            let dealt = spec_deal(dealer, full);
            assert(round@.hands.len() == 4);
            assert forall|i: int| 0 <= i < 4 implies #[trigger] round@.hands[i] == dealt.hands[i] by {
                let k = (i - dealer.spec_index() - 1) % 4;
                assert(seats@[k] == dealer.spec_advance((k + 1) as nat));
                assert(seats@[k].spec_index() == i);
            }
            assert(round@.hands =~= dealt.hands);
            assert(round@ == dealt);
            assert(dealt.hand_sizes_ok());
        }
        match round.validate() {
            Ok(()) => {},
            Err(e) => {
                return Err(e);
            },
        }
        round.canonicalize();
        Ok(round)
    }

    /// Returns the dealer for this round.
    pub fn dealer(&self) -> (dealer: Seat)
        ensures
            dealer == self@.dealer,
    {
        self.dealer
    }

    /// Returns the upturned card.
    pub fn top(&self) -> (top: Card)
        ensures
            top == self@.top,
    {
        self.top
    }

    /// Returns the hand dealt to a seat.
    pub fn hand(&self, seat: Seat) -> (hand: &Vec<Card>)
        ensures
            hand@ == self@.hand(seat),
    {
        match seat {
            Seat::North => &self.north,
            Seat::East => &self.east,
            Seat::South => &self.south,
            Seat::West => &self.west,
        }
    }

    /// Takes the configuration apart: the four hands, by the seat's place
    /// clockwise from North.
    pub fn into_hands(self) -> (hands: Vec<Vec<Card>>)
        ensures
            hands@.len() == 4,
            self@.hands.len() == 4,
            forall|i: int| 0 <= i < 4 ==> (#[trigger] hands@[i])@ == self@.hands[i],
    {
        let mut hands: Vec<Vec<Card>> = Vec::new();
        hands.push(self.north);
        hands.push(self.east);
        hands.push(self.south);
        hands.push(self.west);
        hands
    }

    /// Gives a seat its hand.
    fn set_hand(&mut self, seat: Seat, hand: Vec<Card>)
        ensures
            final(self)@ == (RoundConfigView {
                hands: old(self)@.hands.update(seat.spec_index(), hand@),
                ..old(self)@
            }),
    {
        match seat {
            Seat::North => {
                self.north = hand;
            },
            Seat::East => {
                self.east = hand;
            },
            Seat::South => {
                self.south = hand;
            },
            Seat::West => {
                self.west = hand;
            },
        }
        assert(self@.hands =~= old(self)@.hands.update(seat.spec_index(), hand@));
    }

    /// Validates the configuration.
    pub fn validate(&self) -> (r: Result<(), RoundError>)
        ensures
            r == self@.validation(),
    {
        if self.north.len() != 5 || self.east.len() != 5 || self.south.len() != 5
            || self.west.len() != 5 {
            proof {
                let i = if self.north@.len() != 5 {
                    0int
                } else if self.east@.len() != 5 {
                    1int
                } else if self.south@.len() != 5 {
                    2int
                } else {
                    3int
                };
                assert(self@.hands[i].len() != 5);
            }
            return Err(RoundError::InvalidHandSize);
        }
        let mut seen: Vec<Card> = Vec::new();
        seen.push(self.top);
        let mut copy = copy_cards(&self.north);
        seen.append(&mut copy);
        let mut copy = copy_cards(&self.east);
        seen.append(&mut copy);
        let mut copy = copy_cards(&self.south);
        seen.append(&mut copy);
        let mut copy = copy_cards(&self.west);
        seen.append(&mut copy);
        assert(seen@ =~= self@.cards());
        if all_distinct(&seen) {
            Ok(())
        } else {
            Err(RoundError::DuplicateCard)
        }
    }

    /// Canonicalizes the configuration.
    pub fn canonicalize(&mut self)
        ensures
            final(self)@.canonical_of(old(self)@),
            old(self)@.valid() ==> final(self)@.valid(),
    {
        sort_cards(&mut self.north, CardOrder::Plain);
        sort_cards(&mut self.east, CardOrder::Plain);
        sort_cards(&mut self.south, CardOrder::Plain);
        sort_cards(&mut self.west, CardOrder::Plain);
        proof {
            lemma_canonical_valid(old(self)@, self@);
        }
    }
}

/// Putting the hands in order keeps a configuration valid: the same cards
/// are in play.
pub proof fn lemma_canonical_valid(before: RoundConfigView, after: RoundConfigView)
    requires
        after.canonical_of(before),
    ensures
        before.valid() ==> after.valid(),
        after.cards().to_multiset() == before.cards().to_multiset(),
{
    broadcast use vstd::seq_lib::group_to_multiset_ensures;

    assert forall|i: int| 0 <= i < 4 implies (#[trigger] after.hands[i]).to_multiset()
        == before.hands[i].to_multiset() by {
        lemma_sort(before.hands[i], CardOrder::Plain);
    }
    let t = seq![before.top];
    lemma_multiset_commutative(t, before.hands[0]);
    lemma_multiset_commutative(t + before.hands[0], before.hands[1]);
    lemma_multiset_commutative(t + before.hands[0] + before.hands[1], before.hands[2]);
    lemma_multiset_commutative(
        t + before.hands[0] + before.hands[1] + before.hands[2],
        before.hands[3],
    );
    lemma_multiset_commutative(t, after.hands[0]);
    lemma_multiset_commutative(t + after.hands[0], after.hands[1]);
    lemma_multiset_commutative(t + after.hands[0] + after.hands[1], after.hands[2]);
    lemma_multiset_commutative(t + after.hands[0] + after.hands[1] + after.hands[2], after.hands[3]);
    assert(after.cards().to_multiset() =~= before.cards().to_multiset());
    if before.valid() {
        before.cards().lemma_multiset_has_no_duplicates();
        after.cards().lemma_multiset_has_no_duplicates_conv();
        assert forall|i: int| 0 <= i < 4 implies (#[trigger] after.hands[i]).len() == 5 by {
            assert(after.hands[i].to_multiset().len() == before.hands[i].to_multiset().len());
        }
    }
}

/// Every card of a deal comes from the deck: the top card and each card
/// of each hand stand at some place of the deck.
pub proof fn lemma_deal_from_deck(dealer: Seat, deck: Seq<Card>)
    requires
        deck.len() >= 21,
    ensures
        spec_deal(dealer, deck).hand_sizes_ok(),
        deck.contains(spec_deal(dealer, deck).top),
        forall|i: int, j: int|
            0 <= i < 4 && 0 <= j < 5 ==> deck.contains(#[trigger] spec_deal(dealer, deck).hands[i][j]),
{
    let dealt = spec_deal(dealer, deck);
    let n = deck.len() as int;
    assert(deck[n - 21] == dealt.top);
    assert forall|i: int, j: int| 0 <= i < 4 && 0 <= j < 5 implies deck.contains(
        #[trigger] dealt.hands[i][j],
    ) by {
        let k = (i - dealer.spec_index() - 1) % 4;
        assert(dealt.hands[i][j] == deck[n - 5 * (k + 1) + j]);
    }
}

} // verus!
