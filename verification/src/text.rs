//! Numbers, tricks and outcomes as text.

use vstd::prelude::*;
use crate::card::Card;
use crate::round::RoundOutcome;
use crate::seat::Seat;
use crate::trick::Trick;

verus! {

/// The character for a digit.
pub open spec fn spec_digit(d: int) -> char {
    if d == 0 {
        '0'
    } else if d == 1 {
        '1'
    } else if d == 2 {
        '2'
    } else if d == 3 {
        '3'
    } else if d == 4 {
        '4'
    } else if d == 5 {
        '5'
    } else if d == 6 {
        '6'
    } else if d == 7 {
        '7'
    } else if d == 8 {
        '8'
    } else {
        '9'
    }
}

/// A number in decimal digits, without leading zeros.
pub open spec fn spec_decimal(n: nat) -> Seq<char>
    decreases n,
{
    if n < 10 {
        seq![spec_digit(n as int)]
    } else {
        spec_decimal(n / 10).push(spec_digit((n % 10) as int))
    }
}

/// Writes a digit.
fn digit(d: u32) -> (s: &'static str)
    requires
        d < 10,
    ensures
        s@ == seq![spec_digit(d as int)],
{
    proof {
        reveal_strlit("0");
        reveal_strlit("1");
        reveal_strlit("2");
        reveal_strlit("3");
        reveal_strlit("4");
        reveal_strlit("5");
        reveal_strlit("6");
        reveal_strlit("7");
        reveal_strlit("8");
        reveal_strlit("9");
    }
    let s = if d == 0 {
        "0"
    } else if d == 1 {
        "1"
    } else if d == 2 {
        "2"
    } else if d == 3 {
        "3"
    } else if d == 4 {
        "4"
    } else if d == 5 {
        "5"
    } else if d == 6 {
        "6"
    } else if d == 7 {
        "7"
    } else if d == 8 {
        "8"
    } else {
        "9"
    };
    assert(s@ =~= seq![spec_digit(d as int)]);
    s
}

/// Writes a number in decimal digits.
pub fn decimal(n: u32) -> (s: String)
    ensures
        s@ == spec_decimal(n as nat),
    decreases n,
{
    if n < 10 {
        String::from_str(digit(n))
    } else {
        let s = decimal(n / 10).concat(digit(n % 10));
        assert(s@ =~= spec_decimal(n as nat));
        s
    }
}

/// A play as text: the name of the seat, a colon, and the card.
pub open spec fn spec_play_text(play: (Seat, Card)) -> Seq<char> {
    play.0.spec_name() + ":"@ + play.1.spec_token()
}

/// Plays as text, with a comma and a blank between one play and the
/// next.
pub open spec fn spec_plays_text(plays: Seq<(Seat, Card)>) -> Seq<char>
    decreases plays.len(),
{
    if plays.len() == 0 {
        Seq::empty()
    } else if plays.len() == 1 {
        spec_play_text(plays[0])
    } else {
        spec_plays_text(plays.drop_last()) + ", "@ + spec_play_text(plays.last())
    }
}

impl Trick {
    /// Writes the trick as the list of its plays, in square brackets.
    pub fn to_string(&self) -> (s: String)
        ensures
            s@ == "["@ + spec_plays_text(self@.plays) + "]"@,
    {
        let cards = self.cards();
        let mut s = String::from_str("[");
        let mut i: usize = 0;
        assert(cards@.take(0) =~= Seq::<(Seat, Card)>::empty());
        assert(s@ + Seq::<char>::empty() =~= s@);
        while i < cards.len()
            invariant
                i <= cards.len(),
                cards@ == self@.plays,
                s@ == "["@ + spec_plays_text(cards@.take(i as int)),
            decreases cards.len() - i,
        {
            let (seat, card) = cards[i];
            let ghost before = s@;
            if i != 0 {
                s.append(", ");
            }
            s.append(seat.name());
            s.append(":");
            s.append(card.to_string().as_str());
            proof {
                let shown = cards@.take(i + 1);
                assert(shown.drop_last() =~= cards@.take(i as int));
                assert(shown.last() == (seat, card));
                if i == 0 {
                    assert(s@ =~= "["@ + spec_play_text((seat, card)));
                } else {
                    assert(s@ =~= "["@ + (spec_plays_text(cards@.take(i as int)) + ", "@
                        + spec_play_text((seat, card))));
                }
            }
            i = i + 1;
        }
        assert(cards@.take(i as int) =~= cards@);
        s.append("]");
        s
    }
}

impl RoundOutcome {
    /// Writes the outcome: the team that wins, and its points.
    pub fn to_string(&self) -> (s: String)
        ensures
            s@ == self.team.spec_name() + " wins "@ + spec_decimal(self.points as nat) + " points"@,
    {
        let mut s = String::from_str(self.team.name());
        s.append(" wins ");
        s.append(decimal(self.points as u32).as_str());
        s.append(" points");
        s
    }
}

} // verus!
