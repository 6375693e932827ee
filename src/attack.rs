//! The attack ledger's entries and the covering rule.

use vstd::prelude::*;

use crate::card::{covered_by, same_suit, suit_of, Card};
use crate::error::Error;

verus! {

/// One entry of the attack ledger. The confirm states hold a slot whose face
/// value is not yet revealed; the others hold revealed cards.
#[derive(Debug)]
pub enum Attack {
    ConfirmOpen { open_idx: usize },
    Open { open: Card },
    ConfirmClose { open: Card, close_idx: usize },
    Closed { open: Card, close: Card },
}

/// Whether `cand` may cover the open card `open` under the trump `trump`.
pub open spec fn closes(open: Seq<char>, cand: Seq<char>, trump: Seq<char>) -> bool {
    if same_suit(open, trump) {
        covered_by(open, cand)
    } else if same_suit(cand, trump) {
        true
    } else {
        covered_by(open, cand)
    }
}

/// Whether `card` may cover the open card `open` under the trump `trump`.
pub fn closes_card(open: &Card, card: &Card, trump: &Card) -> (r: bool)
    ensures
        r == closes(open.value@, card.value@, trump.value@),
{
    if open.is_same_suit(trump) {
        open.is_covered_by(card)
    } else if card.is_same_suit(trump) {
        true
    } else {
        open.is_covered_by(card)
    }
}

impl Attack {
    /// The deck slots this entry holds, revealed or not.
    pub open spec fn slots(&self) -> Seq<usize> {
        match self {
            Attack::ConfirmOpen { open_idx } => seq![*open_idx],
            Attack::Open { open } => seq![open.idx],
            Attack::ConfirmClose { open, close_idx } => seq![open.idx, *close_idx],
            Attack::Closed { open, close } => seq![open.idx, close.idx],
        }
    }

    /// The revealed cards this entry holds.
    pub open spec fn cards(&self) -> Seq<Card> {
        match self {
            Attack::ConfirmOpen { .. } => seq![],
            Attack::Open { open } => seq![*open],
            Attack::ConfirmClose { open, .. } => seq![*open],
            Attack::Closed { open, close } => seq![*open, *close],
        }
    }

    /// The entry holds revealed cards only: Open or Closed.
    pub open spec fn spec_is_confirmed(&self) -> bool {
        self is Open || self is Closed
    }

    pub fn new(card_idx: usize) -> (r: Attack)
        ensures
            r == (Attack::ConfirmOpen { open_idx: card_idx }),
    {
        Attack::ConfirmOpen { open_idx: card_idx }
    }

    pub fn is_open(&self) -> (r: bool)
        ensures
            r == self is Open,
    {
        match self {
            Attack::Open { .. } => true,
            _ => false,
        }
    }

    pub fn is_closed(&self) -> (r: bool)
        ensures
            r == self is Closed,
    {
        match self {
            Attack::Closed { .. } => true,
            _ => false,
        }
    }

    pub fn is_confirmed(&self) -> (r: bool)
        ensures
            r == self.spec_is_confirmed(),
    {
        match self {
            Attack::Open { .. } | Attack::Closed { .. } => true,
            _ => false,
        }
    }

    /// ConfirmOpen becomes Open with the revealed face value.
    pub fn confirm_open(&mut self, value: String) -> (r: Result<(), Error>)
        ensures
            r is Ok <==> (*old(self)) is ConfirmOpen,
            r is Ok ==> (*final(self) matches Attack::Open { open }
                && open.idx == (*old(self))->open_idx && open.value@ == value@),
            r is Err ==> r == Err::<(), Error>(Error::InvalidAttackStatus) && *final(self) == *old(self),
    {
        match self {
            Attack::ConfirmOpen { open_idx } => {
                let open = Card::new(*open_idx, value);
                *self = Attack::Open { open };
                Ok(())
            },
            _ => Err(Error::InvalidAttackStatus),
        }
    }

    /// ConfirmClose becomes Closed with the revealed face value of the closing card.
    pub fn confirm_close(&mut self, value: String) -> (r: Result<(), Error>)
        ensures
            r is Ok <==> (*old(self)) is ConfirmClose,
            r is Ok ==> (*final(self) matches Attack::Closed { open, close }
                && open.idx == (*old(self))->ConfirmClose_open.idx
                && open.value@ == (*old(self))->ConfirmClose_open.value@
                && close.idx == (*old(self))->close_idx && close.value@ == value@),
            r is Err ==> r == Err::<(), Error>(Error::InvalidAttackStatus) && *final(self) == *old(self),
    {
        match self {
            Attack::ConfirmClose { open, close_idx } => {
                let open = open.duplicate();
                let close = Card::new(*close_idx, value);
                *self = Attack::Closed { open, close };
                Ok(())
            },
            _ => Err(Error::InvalidAttackStatus),
        }
    }

    /// Open becomes ConfirmClose, recording the slot of the closing card.
    pub fn close(&mut self, card: &Card) -> (r: Result<(), Error>)
        ensures
            r is Ok <==> (*old(self)) is Open,
            r is Ok ==> (*final(self) matches Attack::ConfirmClose { open, close_idx }
                && open.idx == (*old(self))->Open_open.idx
                && open.value@ == (*old(self))->Open_open.value@
                && close_idx == card.idx),
            r is Err ==> r == Err::<(), Error>(Error::InvalidAttackStatus) && *final(self) == *old(self),
    {
        match self {
            Attack::Open { open } => {
                let open = open.duplicate();
                *self = Attack::ConfirmClose { open, close_idx: card.idx };
                Ok(())
            },
            _ => Err(Error::InvalidAttackStatus),
        }
    }

    /// Whether `card` may cover this open entry under `trump`.
    pub fn can_be_closed_by(&self, card: &Card, trump: &Card) -> (r: Result<bool, Error>)
        ensures
            r is Ok <==> self is Open,
            r is Ok ==> r->Ok_0 == closes(self->Open_open.value@, card.value@, trump.value@),
            r is Err ==> r == Err::<bool, Error>(Error::InvalidAttackStatus),
    {
        match self {
            Attack::Open { open } => Ok(closes_card(open, card, trump)),
            _ => Err(Error::InvalidAttackStatus),
        }
    }

    /// The deck slots this entry holds.
    pub fn slot_idxs(&self) -> (r: Vec<usize>)
        ensures
            r@ == self.slots(),
    {
        match self {
            Attack::ConfirmOpen { open_idx } => vec![*open_idx],
            Attack::Open { open } => vec![open.idx],
            Attack::ConfirmClose { open, close_idx } => vec![open.idx, *close_idx],
            Attack::Closed { open, close } => vec![open.idx, close.idx],
        }
    }

    /// Copies of the revealed cards of this entry.
    pub fn card_refs(&self) -> (r: Vec<Card>)
        ensures
            r@.len() == self.cards().len(),
            forall|i: int| 0 <= i < r@.len() ==> r@[i].idx == self.cards()[i].idx
                && r@[i].value@ == self.cards()[i].value@,
    {
        match self {
            Attack::ConfirmOpen { .. } => Vec::new(),
            Attack::Open { open } => vec![open.duplicate()],
            Attack::ConfirmClose { open, .. } => vec![open.duplicate()],
            Attack::Closed { open, close } => vec![open.duplicate(), close.duplicate()],
        }
    }

    /// The revealed cards of a confirmed entry.
    pub fn into_cards(self) -> (r: Result<Vec<Card>, Error>)
        ensures
            r is Ok <==> self.spec_is_confirmed(),
            r is Ok ==> r->Ok_0@ == self.cards(),
            r is Err ==> r == Err::<Vec<Card>, Error>(Error::InvalidAttackStatus),
    {
        match self {
            Attack::Open { open } => Ok(vec![open]),
            Attack::Closed { open, close } => Ok(vec![open, close]),
            _ => Err(Error::InvalidAttackStatus),
        }
    }
}

/// `6` is covered by `jack` of its suit and not by `5`; a trump `6` covers a
/// non-trump `ace`; two non-trump cards of different suits never cover each other.
pub proof fn lemma_covering_rules(suit: char, trump: char)
    requires
        suit != trump,
    ensures
        closes(seq![suit, '6'], seq![suit, 'j'], seq![trump, '6']),
        !closes(seq![suit, '6'], seq![suit, '5'], seq![trump, '6']),
        closes(seq![suit, 'a'], seq![trump, '6'], seq![trump, 'a']),
        forall|a: Seq<char>, b: Seq<char>, t: Seq<char>|
            suit_of(a) != suit_of(b) && !same_suit(a, t) && !same_suit(b, t)
                ==> !#[trigger] closes(a, b, t),
{
    assert(seq![suit, '6'][0] == suit);
    assert(seq![trump, '6'][0] == trump);
    assert(seq![suit, 'j'][0] == suit);
    assert(seq![suit, 'j'][1] == 'j');
    assert(seq![suit, '6'][1] == '6');
    assert(seq![suit, '5'][1] == '5');
    assert(seq![suit, '5'][0] == suit);
    assert(seq![suit, 'a'][0] == suit);
    assert(seq![trump, 'a'][0] == trump);
}

} // verus!
