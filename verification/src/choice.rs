//! Multiple choice list of actions.

use vstd::prelude::*;
use crate::action::{Action, ActionData, ExpectAction};
use crate::card::Suit;

verus! {

/// The bids that a seat can choose from.
#[derive(Debug)]
pub struct ActionChoice {
    choices: Vec<ActionData>,
}

impl View for ActionChoice {
    type V = Seq<ActionData>;

    /// The choices in the order they are listed.
    closed spec fn view(&self) -> Seq<ActionData> {
        self.choices@
    }
}

/// The suits that are left to call once a suit is turned down, in the
/// order in which the suits are listed.
pub open spec fn spec_other_suits(top_suit: Suit) -> Seq<Suit> {
    match top_suit {
        Suit::Club => seq![Suit::Diamond, Suit::Heart, Suit::Spade],
        Suit::Diamond => seq![Suit::Club, Suit::Heart, Suit::Spade],
        Suit::Heart => seq![Suit::Club, Suit::Diamond, Suit::Spade],
        Suit::Spade => seq![Suit::Club, Suit::Diamond, Suit::Heart],
    }
}

/// The choices for a bid once the top card is turned down.
pub open spec fn spec_bid_other(top_suit: Suit) -> Seq<ActionData> {
    let suits = spec_other_suits(top_suit);
    seq![
        ActionData::Pass,
        ActionData::Call { suit: suits[0], alone: false },
        ActionData::Call { suit: suits[1], alone: false },
        ActionData::Call { suit: suits[2], alone: false },
        ActionData::Call { suit: suits[0], alone: true },
        ActionData::Call { suit: suits[1], alone: true },
        ActionData::Call { suit: suits[2], alone: true },
    ]
}

impl ActionChoice {
    /// The choices for a bid on the top card: to pass, to call its suit,
    /// or to call it and play alone.
    pub fn bid_top(suit: Suit) -> (choice: Self)
        ensures
            choice@ == seq![
                ActionData::Pass,
                ActionData::Call { suit, alone: false },
                ActionData::Call { suit, alone: true },
            ],
    {
        let mut choices: Vec<ActionData> = Vec::new();
        choices.push(ActionData::Pass);
        choices.push(ActionData::Call { suit, alone: false });
        choices.push(ActionData::Call { suit, alone: true });
        assert(choices@ =~= seq![
            ActionData::Pass,
            ActionData::Call { suit, alone: false },
            ActionData::Call { suit, alone: true },
        ]);
        Self { choices }
    }

    /// The choices for a bid once the top card is turned down: to pass,
    /// or to call any suit but that of the top card, first with a partner
    /// and then alone.
    pub fn bid_other(top_suit: Suit) -> (choice: Self)
        ensures
            choice@ == spec_bid_other(top_suit),
    {
        let suits = Suit::all_suits();
        let mut choices: Vec<ActionData> = Vec::new();
        choices.push(ActionData::Pass);
        let ghost others = spec_other_suits(top_suit);
        let mut round: usize = 0;
        while round < 2
            invariant
                round <= 2,
                suits@ == seq![Suit::Club, Suit::Diamond, Suit::Heart, Suit::Spade],
                others == spec_other_suits(top_suit),
                choices@ == spec_bid_other(top_suit).take(1 + 3 * round),
            decreases 2 - round,
        {
            let alone = round == 1;
            let mut k: usize = 0;
            let ghost mut found: int = 0;
            while k < 4
                invariant
                    k <= 4,
                    round < 2,
                    alone == (round == 1),
                    suits@ == seq![Suit::Club, Suit::Diamond, Suit::Heart, Suit::Spade],
                    others == spec_other_suits(top_suit),
                    0 <= found <= 3,
                    found == (if k as int > top_suit.spec_place() {
                        k - 1
                    } else {
                        k as int
                    }),
                    choices@ == spec_bid_other(top_suit).take(1 + 3 * round + found),
                decreases 4 - k,
            {
                let suit = suits[k];
                if suit != top_suit {
                    choices.push(ActionData::Call { suit, alone });
                    proof {
                        assert(others[found] == suit);
                        assert(spec_bid_other(top_suit).take(1 + 3 * round + found + 1)
                            =~= spec_bid_other(top_suit).take(1 + 3 * round + found).push(
                            ActionData::Call { suit, alone },
                        ));
                        found = found + 1;
                    }
                }
                k = k + 1;
            }
            round = round + 1;
        }
        assert(spec_bid_other(top_suit).take(7) =~= spec_bid_other(top_suit));
        Self { choices }
    }

    /// Returns the number of choices.
    pub fn len(&self) -> (n: usize)
        ensures
            n == self@.len(),
    {
        self.choices.len()
    }

    /// Returns the choices in the order they are listed.
    pub fn choices(&self) -> (choices: &Vec<ActionData>)
        ensures
            choices@ == self@,
    {
        &self.choices
    }

    /// Returns the choice at the place that is selected, if any is.
    pub fn selected(&self, selected: Option<usize>) -> (data: Option<ActionData>)
        ensures
            data == (match selected {
                Some(index) => if index < self@.len() {
                    Some(self@[index as int])
                } else {
                    None
                },
                None => None,
            }),
    {
        match selected {
            Some(index) => if index < self.choices.len() {
                Some(self.choices[index])
            } else {
                None
            },
            None => None,
        }
    }

    /// Returns the action that the selected choice makes of what is
    /// expected, if a choice is selected and an action expected.
    pub fn action(&self, selected: Option<usize>, expect: Option<ExpectAction>) -> (action: Option<
        Action,
    >)
        ensures
            action == (match (expect, selected) {
                (Some(e), Some(index)) => if index < self@.len() {
                    Some(Action { seat: e.seat, action: e.action, data: self@[index as int] })
                } else {
                    None
                },
                _ => None,
            }),
    {
        match (expect, self.selected(selected)) {
            (Some(expect), Some(data)) => Some(expect.with_data(data)),
            _ => None,
        }
    }
}

} // verus!
