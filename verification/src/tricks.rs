//! Tricks played during a round.

use vstd::prelude::*;
use crate::card::Card;
use crate::seat::{Seat, Team};
use crate::trick::{Trick, TrickView};

verus! {

/// The tricks of a round as plain values: the tricks in the order they
/// were opened, and the number of cards that completes a trick.
pub struct TricksView {
    pub tricks: Seq<TrickView>,
    pub trick_size: int,
}

/// Whether a trick is complete at the given size and won by the given team.
pub open spec fn spec_is_won_by(trick: TrickView, trick_size: int, team: Team) -> bool {
    trick.plays.len() == trick_size && trick.winning_seat().spec_team() == team
}

/// The number of tricks among the given ones that are complete and won by
/// the given team.
pub open spec fn spec_count_won(tricks: Seq<TrickView>, trick_size: int, team: Team) -> nat
    decreases tricks.len(),
{
    if tricks.len() == 0 {
        0
    } else {
        spec_count_won(tricks.drop_last(), trick_size, team) + (if spec_is_won_by(
            tricks.last(),
            trick_size,
            team,
        ) {
            1nat
        } else {
            0nat
        })
    }
}

impl TricksView {
    /// The number of complete tricks that a team has won.
    pub open spec fn win_count(self, team: Team) -> nat {
        spec_count_won(self.tricks, self.trick_size, team)
    }
}

/// Tricks played this round.
#[derive(Debug)]
pub struct Tricks {
    tricks: Vec<Trick>,
    trick_size: usize,
}

impl View for Tricks {
    type V = TricksView;

    closed spec fn view(&self) -> TricksView {
        TricksView {
            tricks: Seq::new(self.tricks@.len(), |i: int| self.tricks@[i]@),
            trick_size: self.trick_size as int,
        }
    }
}

impl Clone for Tricks {
    fn clone(&self) -> (tricks: Self)
        ensures
            tricks@ == self@,
            self.wf() ==> tricks.wf(),
    {
        let mut tricks: Vec<Trick> = Vec::new();
        let mut i: usize = 0;
        while i < self.tricks.len()
            invariant
                i <= self.tricks@.len(),
                tricks@.len() == i,
                forall|j: int| 0 <= j < i ==> (#[trigger] tricks@[j])@ == self.tricks@[j]@,
                forall|j: int| 0 <= j < i && self.tricks@[j].wf() ==> (#[trigger] tricks@[j]).wf(),
            decreases self.tricks@.len() - i,
        {
            tricks.push(self.tricks[i].clone());
            i = i + 1;
        }
        let tricks = Tricks { tricks, trick_size: self.trick_size };
        assert(tricks@.tricks =~= self@.tricks);
        tricks
    }
}

impl Default for Tricks {
    fn default() -> (tricks: Self)
        ensures
            tricks.wf(),
            tricks@ == (TricksView { tricks: Seq::<TrickView>::empty(), trick_size: 4 }),
    {
        let tricks = Self { tricks: Vec::new(), trick_size: 4 };
        assert(tricks@.tricks =~= Seq::<TrickView>::empty());
        tricks
    }
}

impl Tricks {
    /// A round has at most five tricks, each with a lead, of three or four
    /// cards each.
    pub closed spec fn wf(&self) -> bool {
        &&& self.tricks@.len() <= 5
        &&& self.trick_size == 3 || self.trick_size == 4
        &&& forall|i: int| 0 <= i < self.tricks@.len() ==> (#[trigger] self.tricks@[i]).wf()
    }

    /// What well-formedness says of the view.
    pub proof fn lemma_wf(&self)
        requires
            self.wf(),
        ensures
            self@.tricks.len() <= 5,
            self@.trick_size == 3 || self@.trick_size == 4,
            forall|i: int| 0 <= i < self@.tricks.len() ==> (#[trigger] self@.tricks[i]).plays.len() >= 1,
    {
        assert forall|i: int| 0 <= i < self@.tricks.len() implies (#[trigger] self@.tricks[i]).plays.len()
            >= 1 by {
            assert(self.tricks@[i].wf());
            self.tricks@[i].lemma_wf();
        }
    }

    /// The number of tricks opened so far.
    pub fn len(&self) -> (n: usize)
        ensures
            n == self@.tricks.len(),
    {
        self.tricks.len()
    }

    /// The trick opened last, if any.
    pub fn last(&self) -> (trick: Option<&Trick>)
        ensures
            match trick {
                Some(t) => self@.tricks.len() > 0 && t@ == self@.tricks.last() && (self.wf()
                    ==> t.wf()),
                None => self@.tricks.len() == 0,
            },
    {
        let n = self.tricks.len();
        if n == 0 {
            None
        } else {
            Some(&self.tricks[n - 1])
        }
    }

    /// The trick at a place, counted from the first.
    pub fn get(&self, i: usize) -> (trick: Option<&Trick>)
        ensures
            match trick {
                Some(t) => i < self@.tricks.len() && t@ == self@.tricks[i as int] && (self.wf()
                    ==> t.wf()),
                None => i >= self@.tricks.len(),
            },
    {
        if i < self.tricks.len() {
            Some(&self.tricks[i])
        } else {
            None
        }
    }

    /// Creates a new trick.
    pub fn push(&mut self, trick: Trick)
        requires
            old(self).wf(),
            trick.wf(),
            old(self)@.tricks.len() < 5,
        ensures
            final(self).wf(),
            final(self)@ == (TricksView {
                tricks: old(self)@.tricks.push(trick@),
                trick_size: old(self)@.trick_size,
            }),
    {
        self.tricks.push(trick);
        assert(self@.tricks =~= old(self)@.tricks.push(trick@));
    }

    /// Plays a card into the trick opened last.
    pub fn play(&mut self, seat: Seat, card: Card)
        requires
            old(self).wf(),
            old(self)@.tricks.len() > 0,
        ensures
            final(self).wf(),
            final(self)@ == (TricksView {
                tricks: old(self)@.tricks.drop_last().push(
                    old(self)@.tricks.last().push(seat, card),
                ),
                trick_size: old(self)@.trick_size,
            }),
    {
        let mut trick = self.tricks.pop().unwrap();
        trick.play(seat, card);
        self.tricks.push(trick);
        assert(self@.tricks =~= old(self)@.tricks.drop_last().push(
            old(self)@.tricks.last().push(seat, card),
        ));
    }

    /// Returns the number of cards in each trick.
    pub fn trick_size(&self) -> (n: usize)
        ensures
            n == self@.trick_size,
    {
        self.trick_size
    }

    /// Sets the number of cards in each trick.
    pub fn set_trick_size(&mut self, trick_size: usize)
        requires
            old(self).wf(),
            trick_size == 3 || trick_size == 4,
        ensures
            final(self).wf(),
            final(self)@ == (TricksView { tricks: old(self)@.tricks, trick_size: trick_size as int }),
    {
        self.trick_size = trick_size;
        assert(self@.tricks =~= old(self)@.tricks);
    }

    /// Counts the number of completed tricks won by the specified team.
    pub fn win_count(&self, team: Team) -> (count: u8)
        requires
            self.wf(),
        ensures
            count == self@.win_count(team),
            count <= self@.tricks.len(),
    {
        let mut count: u8 = 0;
        let mut i: usize = 0;
        while i < self.tricks.len()
            invariant
                self.wf(),
                i <= self.tricks@.len(),
                count <= i,
                count == spec_count_won(self@.tricks.take(i as int), self@.trick_size, team),
            decreases self.tricks@.len() - i,
        {
            let t = &self.tricks[i];
            proof {
                assert(self@.tricks.take(i + 1).drop_last() =~= self@.tricks.take(i as int));
                assert(self@.tricks.take(i + 1).last() == t@);
            }
            if t.len() == self.trick_size && Team::from(t.best().0) == team {
                count = count + 1;
            }
            i = i + 1;
        }
        assert(self@.tricks.take(i as int) =~= self@.tricks);
        count
    }
}

} // verus!
