//! The face values of the shuffled deck.

use vstd::prelude::*;

use crate::{DECK_LEN};

verus! {

/// Suit character of deck face `i`: spades, hearts, diamonds, clubs in turn.
pub open spec fn deck_suit(i: int) -> char {
    if i % 4 == 0 { 's' } else if i % 4 == 1 { 'h' } else if i % 4 == 2 { 'd' } else { 'c' }
}

/// Kind character of deck face `i`: aces first, sixes last.
pub open spec fn deck_kind(i: int) -> char {
    let k = i / 4;
    if k == 0 { 'a' } else if k == 1 { 'k' } else if k == 2 { 'q' } else if k == 3 { 'j' }
    else if k == 4 { 't' } else if k == 5 { '9' } else if k == 6 { '8' } else if k == 7 { '7' } else { '6' }
}

/// The face values of the deck, best cards first.
pub fn deck_options() -> (r: Vec<String>)
    ensures
        r@.len() == DECK_LEN,
        forall|i: int| 0 <= i < r@.len() ==> #[trigger] r@[i]@ == seq![deck_suit(i), deck_kind(i)],
{
    let suits: [char; 4] = ['s', 'h', 'd', 'c'];
    let kinds: [char; 9] = ['a', 'k', 'q', 'j', 't', '9', '8', '7', '6'];
    let mut r: Vec<String> = Vec::new();
    let mut k: usize = 0;
    while k < 9
        invariant
            k <= 9,
            r@.len() == 4 * k,
            suits@ == seq!['s', 'h', 'd', 'c'],
            kinds@ == seq!['a', 'k', 'q', 'j', 't', '9', '8', '7', '6'],
            forall|i: int| 0 <= i < r@.len() ==> #[trigger] r@[i]@ == seq![deck_suit(i), deck_kind(i)],
        decreases 9 - k,
    {
        let mut s: usize = 0;
        while s < 4
            invariant
                k < 9,
                s <= 4,
                r@.len() == 4 * k + s,
                suits@ == seq!['s', 'h', 'd', 'c'],
                kinds@ == seq!['a', 'k', 'q', 'j', 't', '9', '8', '7', '6'],
                forall|i: int| 0 <= i < r@.len() ==> #[trigger] r@[i]@ == seq![deck_suit(i), deck_kind(i)],
            decreases 4 - s,
        {
            let mut v = String::new();
            push_char(&mut v, suits[s]);
            push_char(&mut v, kinds[k]);
            proof {
                let i = 4 * k + s;
                assert(i % 4 == s as int) by (nonlinear_arith)
                    requires i == 4 * k + s, s < 4;
                assert(i / 4 == k as int) by (nonlinear_arith)
                    requires i == 4 * k + s, s < 4;
                assert(v@ =~= seq![deck_suit(i as int), deck_kind(i as int)]);
            }
            r.push(v);
            s = s + 1;
        }
        k = k + 1;
    }
    r
}

/// Relies on String::push: appends one character.
#[verifier::external_body]
fn push_char(s: &mut String, c: char)
    ensures
        final(s)@ == old(s)@.push(c),
{
    s.push(c)
}

} // verus!
