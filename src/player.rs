//! Seats, hands, roles and finish ranks.

use vstd::prelude::*;

use crate::error::Error;

verus! {

/// A per-round role. `Escaped` is never assigned by the engine itself.
#[derive(Debug, Clone, Copy, PartialEq, Eq, Structural)]
pub enum Role {
    Attacker,
    Defender,
    CoAttacker,
    Escaped,
}

/// A seat at the table with the slots of the cards in hand.
#[derive(Debug)]
pub struct Player {
    pub addr: String,
    pub card_idxs: Vec<usize>,
    pub role: Option<Role>,
    pub position: u16,
    pub rank: Option<u8>,
}

impl Player {
    pub fn new(addr: String, position: u16) -> (r: Player)
        ensures
            r.addr@ == addr@,
            r.card_idxs@.len() == 0,
            r.role is None,
            r.position == position,
            r.rank is None,
    {
        Player { addr, card_idxs: Vec::new(), role: None, position, rank: None }
    }

    /// Removes the first occurrence of `card_idx` from the hand.
    pub fn take_card(&mut self, card_idx: usize) -> (r: Result<usize, Error>)
        ensures
            old(self).card_idxs@.contains(card_idx) <==> r is Ok,
            r is Ok ==> {
                let p = old(self).card_idxs@.index_of_first(card_idx);
                &&& r == Ok::<usize, Error>(card_idx)
                &&& p is Some
                &&& final(self).card_idxs@ == old(self).card_idxs@.remove(p->0)
            },
            r is Err ==> r == Err::<usize, Error>(Error::InvalidCardIndex(card_idx))
                && final(self).card_idxs@ == old(self).card_idxs@,
            final(self).addr == old(self).addr,
            final(self).role == old(self).role,
            final(self).position == old(self).position,
            final(self).rank == old(self).rank,
    {
        let mut i: usize = 0;
        while i < self.card_idxs.len()
            invariant
                i <= self.card_idxs@.len(),
                self.card_idxs == old(self).card_idxs,
                forall|j: int| 0 <= j < i ==> self.card_idxs@[j] != card_idx,
                self.addr == old(self).addr,
                self.role == old(self).role,
                self.position == old(self).position,
                self.rank == old(self).rank,
            decreases self.card_idxs@.len() - i,
        {
            if self.card_idxs[i] == card_idx {
                proof {
                    let s = self.card_idxs@;
                    let f = s.index_of_first(card_idx);
                    s.index_of_first_ensures(card_idx);
                    assert(s.contains(card_idx));
                    assert(f == Some(i as int)) by {
                        if f->0 < i as int {
                        } else if f->0 > i as int {
                        }
                    }
                }
                let v = self.card_idxs.remove(i);
                return Ok(v);
            }
            i = i + 1;
        }
        Err(Error::InvalidCardIndex(card_idx))
    }

    pub fn card_idxs(&self) -> (r: &Vec<usize>)
        ensures
            r == &self.card_idxs,
    {
        &self.card_idxs
    }

    pub fn addr(&self) -> (r: &String)
        ensures
            r == &self.addr,
    {
        &self.addr
    }

    pub fn position(&self) -> (r: u16)
        ensures
            r == self.position,
    {
        self.position
    }

    pub fn role(&self) -> (r: Option<Role>)
        ensures
            r == self.role,
    {
        self.role
    }

    pub fn is_attacker(&self) -> (r: bool)
        ensures
            r == (self.role == Some(Role::Attacker)),
    {
        match self.role {
            Some(Role::Attacker) => true,
            _ => false,
        }
    }

    pub fn set_role(&mut self, role: Option<Role>)
        ensures
            final(self).role == role,
            final(self).addr == old(self).addr,
            final(self).card_idxs == old(self).card_idxs,
            final(self).position == old(self).position,
            final(self).rank == old(self).rank,
    {
        self.role = role;
    }

    pub fn can_attack(&self) -> (r: bool)
        ensures
            r == (self.role == Some(Role::Attacker) || self.role == Some(Role::CoAttacker)),
    {
        match self.role {
            Some(Role::Attacker) | Some(Role::CoAttacker) => true,
            _ => false,
        }
    }

    pub fn can_defend(&self) -> (r: bool)
        ensures
            r == (self.role == Some(Role::Defender)),
    {
        match self.role {
            Some(Role::Defender) => true,
            _ => false,
        }
    }

    pub fn set_rank(&mut self, rank: u8)
        ensures
            final(self).rank == Some(rank),
            final(self).addr == old(self).addr,
            final(self).card_idxs == old(self).card_idxs,
            final(self).position == old(self).position,
            final(self).role == old(self).role,
    {
        self.rank = Some(rank);
    }

    pub fn rank(&self) -> (r: Option<u8>)
        ensures
            r == self.rank,
    {
        self.rank
    }
}

} // verus!
