//! A deck of cards.

use vstd::prelude::*;

verus! {

/// A deck of cards. Cards are taken from the end of the deck.
#[derive(Debug, Clone)]
pub struct Deck<C> {
    cards: Vec<C>,
}

impl<C> View for Deck<C> {
    type V = Seq<C>;

    /// The cards of the deck, the next to be taken last.
    closed spec fn view(&self) -> Seq<C> {
        self.cards@
    }
}

impl<C> Deck<C> {
    /// Makes a deck of the given cards, in their order.
    pub fn from_vec(cards: Vec<C>) -> (deck: Self)
        ensures
            deck@ == cards@,
    {
        Deck { cards }
    }

    /// Gives back the cards that are left.
    pub fn into_vec(self) -> (cards: Vec<C>)
        ensures
            cards@ == self@,
    {
        self.cards
    }

    /// The number of cards remaining in the deck.
    pub fn len(&self) -> (n: usize)
        ensures
            n == self@.len(),
    {
        self.cards.len()
    }

    /// Removes the last `n` cards from the deck, or all of them if it
    /// has fewer, and returns them in the order they had in the deck.
    pub fn take(&mut self, n: usize) -> (taken: Vec<C>)
        ensures
            n <= old(self)@.len() ==> {
                &&& taken@ == old(self)@.subrange(old(self)@.len() - n, old(self)@.len() as int)
                &&& final(self)@ == old(self)@.subrange(0, old(self)@.len() - n)
            },
            n > old(self)@.len() ==> {
                &&& taken@ == old(self)@
                &&& final(self)@ == Seq::<C>::empty()
            },
    {
        let idx = self.cards.len().saturating_sub(n);
        let taken = self.cards.split_off(idx);
        proof {
            if n > old(self)@.len() {
                assert(taken@ =~= old(self)@);
                assert(self.cards@ =~= Seq::<C>::empty());
            }
        }
        taken
    }
}

} // verus!
