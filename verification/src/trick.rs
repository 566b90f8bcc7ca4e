//! Trick

use vstd::prelude::*;
use crate::card::{Card, Suit};
use crate::seat::Seat;

verus! {

/// What a trick is, told as plain values: the trump suit and the plays in
/// the order they were made.
pub struct TrickView {
    pub trump: Suit,
    pub plays: Seq<(Seat, Card)>,
}

impl TrickView {
    /// What the play at a place is worth, against the card that led.
    pub open spec fn value_at(self, i: int) -> int {
        self.plays[i].1.spec_value(self.trump, self.plays[0].1)
    }

    /// The place of the play that wins the trick so far: each play takes
    /// the lead only if it is worth strictly more than the best before it.
    pub open spec fn winner(self) -> int
        decreases self.plays.len(),
    {
        if self.plays.len() <= 1 {
            0
        } else {
            let before = TrickView { trump: self.trump, plays: self.plays.drop_last() };
            let w = before.winner();
            if self.value_at(self.plays.len() - 1) > self.value_at(w) {
                self.plays.len() - 1
            } else {
                w
            }
        }
    }

    /// The seat that wins the trick so far.
    pub open spec fn winning_seat(self) -> Seat {
        self.plays[self.winner()].0
    }

    /// The card that a seat has played into the trick, if it has played;
    /// the first, should it have played more than one.
    pub open spec fn card_of(self, seat: Seat) -> Option<Card>
        decreases self.plays.len(),
    {
        if self.plays.len() == 0 {
            None
        } else {
            let before = TrickView { trump: self.trump, plays: self.plays.drop_last() };
            match before.card_of(seat) {
                Some(card) => Some(card),
                None => if self.plays.last().0 == seat {
                    Some(self.plays.last().1)
                } else {
                    None
                },
            }
        }
    }

    /// The trick after one more play.
    pub open spec fn push(self, seat: Seat, card: Card) -> TrickView {
        TrickView { trump: self.trump, plays: self.plays.push((seat, card)) }
    }

    /// Whether a card follows the card that led this trick.
    pub open spec fn follows(self, card: Card) -> bool {
        card.spec_is_following(self.trump, self.plays[0].1)
    }

    /// Whether a hand holds a card that follows the lead.
    pub open spec fn can_follow(self, hand: Seq<Card>) -> bool {
        exists|i: int| 0 <= i < hand.len() && self.follows(#[trigger] hand[i])
    }

    /// Whether a card may be played from a hand: it follows the lead, or
    /// nothing in the hand does.
    pub open spec fn may_play(self, hand: Seq<Card>, card: Card) -> bool {
        self.follows(card) || !self.can_follow(hand)
    }

    /// The cards of a hand that may be played: those that follow the lead,
    /// or the whole hand if none does.
    pub open spec fn playable(self, hand: Seq<Card>) -> Seq<Card> {
        let following = hand.filter(|c: Card| self.follows(c));
        if following.len() == 0 {
            hand
        } else {
            following
        }
    }
}

/// A trick played during a round.
#[derive(Debug)]
pub struct Trick {
    /// The trump suit for this trick.
    trump: Suit,
    /// The cards that have been played into this trick.
    cards: Vec<(Seat, Card)>,
    /// The index of the best card played.
    best: usize,
    /// The value of the best card played.
    best_value: u8,
}

impl View for Trick {
    type V = TrickView;

    closed spec fn view(&self) -> TrickView {
        TrickView { trump: self.trump, plays: self.cards@ }
    }
}

impl Clone for Trick {
    fn clone(&self) -> (t: Self)
        ensures
            t@ == self@,
            self.wf() ==> t.wf(),
    {
        let mut cards: Vec<(Seat, Card)> = Vec::new();
        let mut i: usize = 0;
        while i < self.cards.len()
            invariant
                i <= self.cards.len(),
                cards@ == self.cards@.take(i as int),
            decreases self.cards.len() - i,
        {
            cards.push(self.cards[i]);
            assert(self.cards@.take(i + 1) =~= self.cards@.take(i as int).push(self.cards@[i as int]));
            i = i + 1;
        }
        assert(self.cards@.take(i as int) =~= self.cards@);
        Trick { trump: self.trump, cards, best: self.best, best_value: self.best_value }
    }
}

impl Trick {
    /// A trick has a lead, and keeps track of the play that wins so far.
    pub closed spec fn wf(&self) -> bool {
        &&& self.cards@.len() >= 1
        &&& self.best == self@.winner()
        &&& self.best_value == self@.value_at(self.best as int)
    }

    /// A well-formed trick has at least the card that led.
    pub proof fn lemma_wf(&self)
        requires
            self.wf(),
        ensures
            self@.plays.len() >= 1,
    {
    }

    /// Creates a new trick.
    pub fn new(trump: Suit, leader: Seat, card: Card) -> (trick: Self)
        ensures
            trick.wf(),
            trick@ == (TrickView { trump, plays: seq![(leader, card)] }),
    {
        let mut cards: Vec<(Seat, Card)> = Vec::new();
        cards.push((leader, card));
        assert(cards@ =~= seq![(leader, card)]);
        Self { trump, cards, best: 0, best_value: card.value(trump, card) }
    }

    /// The trump suit for this trick.
    pub fn trump(&self) -> (trump: Suit)
        ensures
            trump == self@.trump,
    {
        self.trump
    }

    /// The cards that have been played into this trick, in order.
    pub fn cards(&self) -> (cards: &Vec<(Seat, Card)>)
        ensures
            cards@ == self@.plays,
    {
        &self.cards
    }

    /// The number of cards played into this trick.
    pub fn len(&self) -> (n: usize)
        ensures
            n == self@.plays.len(),
            self.wf() ==> n >= 1,
    {
        self.cards.len()
    }

    /// The lead card.
    pub fn lead(&self) -> (lead: (Seat, Card))
        requires
            self.wf(),
        ensures
            lead == self@.plays[0],
    {
        self.cards[0]
    }

    /// The best card.
    pub fn best(&self) -> (best: (Seat, Card))
        requires
            self.wf(),
        ensures
            best == self@.plays[self@.winner()],
            0 <= self@.winner() < self@.plays.len(),
    {
        proof {
            lemma_winner_is_earliest_best(self@);
        }
        self.cards[self.best]
    }

    /// The value of the best card.
    pub fn best_value(&self) -> (v: u8)
        requires
            self.wf(),
        ensures
            v == self@.value_at(self@.winner()),
    {
        self.best_value
    }

    /// Return the specified player's card in this trick.
    pub fn get_card(&self, seat: Seat) -> (card: Option<Card>)
        ensures
            card == self@.card_of(seat),
            match card {
                Some(c) => exists|i: int|
                    0 <= i < self@.plays.len() && #[trigger] self@.plays[i] == (seat, c) && forall|
                        j: int,
                    | 0 <= j < i ==> (#[trigger] self@.plays[j]).0 != seat,
                None => forall|i: int|
                    0 <= i < self@.plays.len() ==> (#[trigger] self@.plays[i]).0 != seat,
            },
    {
        let mut i: usize = 0;
        while i < self.cards.len()
            invariant
                i <= self.cards.len(),
                forall|j: int| 0 <= j < i ==> (#[trigger] self.cards@[j]).0 != seat,
            decreases self.cards.len() - i,
        {
            let (s, c) = self.cards[i];
            if s == seat {
                proof {
                    assert(self@.plays[i as int] == (seat, c));
                    lemma_card_of(self@, seat, i as int);
                }
                return Some(c);
            }
            i = i + 1;
        }
        proof {
            lemma_card_of_none(self@, seat);
        }
        None
    }

    /// Validate that the player is following the lead suit where possible.
    pub fn is_following_lead(&self, hand: &[Card], card: Card) -> (b: bool)
        requires
            self.wf(),
        ensures
            b == self@.may_play(hand@, card),
    {
        let lead_card = self.lead().1;
        if card.is_following(self.trump, lead_card) {
            return true;
        }
        let mut i: usize = 0;
        while i < hand.len()
            invariant
                i <= hand.len(),
                self.wf(),
                lead_card == self@.plays[0].1,
                !self@.follows(card),
                forall|j: int| 0 <= j < i ==> !self@.follows(#[trigger] hand@[j]),
            decreases hand.len() - i,
        {
            if hand[i].is_following(self.trump, lead_card) {
                assert(self@.follows(hand@[i as int]));
                return false;
            }
            i = i + 1;
        }
        true
    }

    /// Filters the hand down to the set of playable cards.
    pub fn filter(&self, hand: &[Card]) -> (playable: Vec<Card>)
        requires
            self.wf(),
        ensures
            playable@ == self@.playable(hand@),
    {
        let lead_card = self.lead().1;
        let ghost pred = |c: Card| self@.follows(c);
        let mut following: Vec<Card> = Vec::new();
        let mut all: Vec<Card> = Vec::new();
        let mut i: usize = 0;
        while i < hand.len()
            invariant
                i <= hand.len(),
                self.wf(),
                lead_card == self@.plays[0].1,
                pred == |c: Card| self@.follows(c),
                following@ == hand@.take(i as int).filter(pred),
                all@ == hand@.take(i as int),
            decreases hand.len() - i,
        {
            let c = hand[i];
            proof {
                assert(hand@.take(i + 1).drop_last() =~= hand@.take(i as int));
                assert(hand@.take(i + 1).last() == c);
                reveal(Seq::filter);
            }
            if c.is_following(self.trump, lead_card) {
                following.push(c);
            }
            all.push(c);
            assert(all@ =~= hand@.take(i + 1));
            i = i + 1;
        }
        assert(hand@.take(i as int) =~= hand@);
        if following.len() == 0 {
            all
        } else {
            following
        }
    }

    /// Plays a card into the trick.
    pub fn play(&mut self, seat: Seat, card: Card)
        requires
            old(self).wf(),
        ensures
            final(self).wf(),
            final(self)@ == old(self)@.push(seat, card),
    {
        let card_value = card.value(self.trump, self.lead().1);
        if card_value > self.best_value {
            self.best_value = card_value;
            self.best = self.cards.len();
        }
        self.cards.push((seat, card));
        proof {
            assert(self@.plays.drop_last() =~= old(self)@.plays);
            assert(self@.plays[0] == old(self)@.plays[0]);
            let before = TrickView { trump: self@.trump, plays: self@.plays.drop_last() };
            assert(before == old(self)@);
            lemma_winner_is_earliest_best(old(self)@);
            assert(self@.value_at(old(self)@.winner()) == old(self)@.value_at(old(self)@.winner()));
        }
    }
}

/// The card of a seat is the card of its first play.
pub proof fn lemma_card_of(t: TrickView, seat: Seat, i: int)
    requires
        0 <= i < t.plays.len(),
        t.plays[i].0 == seat,
        forall|j: int| 0 <= j < i ==> (#[trigger] t.plays[j]).0 != seat,
    ensures
        t.card_of(seat) == Some(t.plays[i].1),
    decreases t.plays.len(),
{
    let before = TrickView { trump: t.trump, plays: t.plays.drop_last() };
    if i < t.plays.len() - 1 {
        assert(before.plays[i] == t.plays[i]);
        assert forall|j: int| 0 <= j < i implies (#[trigger] before.plays[j]).0 != seat by {
            assert(before.plays[j] == t.plays[j]);
        }
        lemma_card_of(before, seat, i);
    } else {
        assert forall|j: int| 0 <= j < before.plays.len() implies (#[trigger] before.plays[j]).0
            != seat by {
            assert(before.plays[j] == t.plays[j]);
        }
        lemma_card_of_none(before, seat);
    }
}

/// A seat that has not played has no card in the trick.
pub proof fn lemma_card_of_none(t: TrickView, seat: Seat)
    requires
        forall|j: int| 0 <= j < t.plays.len() ==> (#[trigger] t.plays[j]).0 != seat,
    ensures
        t.card_of(seat) == None::<Card>,
    decreases t.plays.len(),
{
    if t.plays.len() > 0 {
        let before = TrickView { trump: t.trump, plays: t.plays.drop_last() };
        assert forall|j: int| 0 <= j < before.plays.len() implies (#[trigger] before.plays[j]).0
            != seat by {
            assert(before.plays[j] == t.plays[j]);
        }
        lemma_card_of_none(before, seat);
        assert(t.plays.last() == t.plays[t.plays.len() - 1]);
    }
}

/// The winning play is the earliest of those that are worth most: no play
/// is worth more, and every play before it is worth less.
pub proof fn lemma_winner_is_earliest_best(t: TrickView)
    requires
        t.plays.len() >= 1,
    ensures
        0 <= t.winner() < t.plays.len(),
        forall|j: int|
            0 <= j < t.plays.len() ==> #[trigger] t.value_at(j) <= t.value_at(t.winner()),
        forall|j: int| 0 <= j < t.winner() ==> #[trigger] t.value_at(j) < t.value_at(t.winner()),
    decreases t.plays.len(),
{
    if t.plays.len() > 1 {
        let before = TrickView { trump: t.trump, plays: t.plays.drop_last() };
        lemma_winner_is_earliest_best(before);
        assert forall|j: int| 0 <= j < before.plays.len() implies #[trigger] t.value_at(j)
            == before.value_at(j) by {}
        assert(t.value_at(before.winner()) == before.value_at(before.winner()));
    }
}

} // verus!
