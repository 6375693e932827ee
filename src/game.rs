//! The session aggregate and its event handling: roster and roles,
//! dealing, the attack ledger, round and game lifecycle, timers and
//! settlement. Requests to the host come back as `Command`s.

use vstd::prelude::*;

use std::collections::HashMap;

use crate::attack::{closes_card, Attack};
use crate::card::{kind_of, same_kind, same_suit, Card};
use crate::error::Error;
use crate::laws::{hands_ms, placed_ms, slot_range, unfinished};
use crate::player::{Player, Role};
use crate::rules::{
    action_check, action_pending, put_into, defended_into, forwarded_into, seats_ok, resume_ok, resumed, escaped, close_ok, closes_revealed, rotation_order, lemma_rotation_order, roles_unique, no_reveal_since, moves_without_discard, addrs_unique, timeout_succeed, action_ok, action_done, reveal_requested, acting_key, seated, cards_in_hand, round_can_end, fully_defended, timer_can_arm, lemma_same_roles_ranks, acting_keys, all_closed, all_confirmed, all_kinds_in_ledger, any_kind_in_ledger, attack_check, awaited_role, card_slots, collected, concede_check, confirmed_entry, deadline, deadline_spec, assigns_dealt, assigns_to, dealt, dealt_in_order, defend_check, distinct_indices, finishers_of, first_holder, forward_check, forwardable, fx_extends, hand_dealt, hand_gave, hands_extended, hands_full, has_role, holds_role, is_first_holder, is_key_order, kind_in_ledger, ledger_slots, lemma_fx_refl, lemma_key_order_distinct, lemma_push_extends, lemma_rotate_then_clear, open_entries, opened, order_by_keys, pending_of, pending_revealed, pending_slot, rank_key, rank_keys, ranks_assigned, role_at, roles_assigned, round_ended, same_but_roles, settle_commands, some_hand_short, unranked_of, unrevealed,
};
use crate::{
    ACT_TIMEOUT_MS, END_OF_ROUND_TIMEOUT_MS, MAX_ATTACK_COUNT, MAX_NUM_OF_PLAYERS,
    MIN_HAND_CARD_COUNT, RESET_TIMEOUT_MS, TRUMP_IDX,
};

verus! {

broadcast use vstd::std_specs::hash::group_hash_axioms;

/// Top-level phase of a session.
#[derive(Debug, Clone, Copy, PartialEq, Eq, Structural)]
pub enum Stage {
    Waiting,
    Shuffling,
    RevealingTrump,
    Dealing,
    Acting,
    EndOfRound,
    EndOfGame,
}

/// A request to the host: the randomness service, timers and settlement.
#[derive(Debug)]
pub enum Command {
    StartGame,
    AllowExit { allow: bool },
    Reveal { random_id: usize, idxs: Vec<usize> },
    Assign { random_id: usize, addr: String, idxs: Vec<usize> },
    ActionTimeout { addr: String, timeout: u64 },
    WaitTimeout { timeout: u64 },
    SettleAdd { addr: String, amount: u64 },
    SettleSub { addr: String, amount: u64 },
    SettleEject { addr: String },
    Checkpoint,
}

/// What the host hands in for one event, and the requests it gets back.
#[derive(Debug)]
pub struct Effects {
    /// Current time in milliseconds.
    pub timestamp: u64,
    /// Face values revealed so far in the current shuffle, by slot.
    pub revealed: HashMap<usize, String>,
    /// Requests issued while handling the event, in order.
    pub commands: Vec<Command>,
}

/// An action a player sends.
#[derive(Debug)]
pub enum Action {
    Attack { cards: Vec<Card> },
    CoAttack { cards: Vec<Card> },
    Defend { card: Card, target: u8 },
    Forward { card: Card },
    Take,
    Beated,
}

/// A player joining the session.
#[derive(Debug, Clone)]
pub struct NewPlayer {
    pub addr: String,
    pub position: u16,
}

/// An event delivered by the host.
#[derive(Debug)]
pub enum Event {
    Custom { sender: String, action: Action },
    Ready,
    Sync { new_players: Vec<NewPlayer> },
    GameStart { random_id: usize },
    RandomnessReady,
    SecretsReady,
    Leave { player_addr: String },
    ActionTimeout,
    WaitingTimeout,
    Other,
}

/// The session aggregate.
#[derive(Debug)]
pub struct Durak {
    pub random_id: usize,
    pub deck_offset: usize,
    pub num_of_players: usize,
    pub num_of_finished: usize,
    pub stage: Stage,
    pub players: Vec<Player>,
    pub attacks: Vec<Attack>,
    pub trump: Option<Card>,
    pub bet_amount: u64,
    pub timeout: u64,
    pub attack_space: usize,
    pub beated_addrs: Vec<String>,
}

impl Durak {

    /// Whether more cards may be put on the table: the stage is Acting or
    /// EndOfRound, the ledger has room and the Defender holds a card.
    pub fn can_attack(&self) -> (r: Result<bool, Error>)
        ensures
            r is Ok <==> has_role(self.players@, Role::Defender),
            r is Ok ==> exists|d: int| is_first_holder(self.players@, d, Role::Defender)
                && r->Ok_0 == ((self.stage == Stage::Acting || self.stage == Stage::EndOfRound)
                    && self.attacks@.len() < MAX_ATTACK_COUNT
                    && self.players@[d].card_idxs@.len() > 0),
            r is Err ==> r == Err::<bool, Error>(Error::NoPlayerFoundByRole(Role::Defender)),
    {
        let d = self.find_role(Role::Defender)?;
        Ok((self.stage == Stage::Acting || self.stage == Stage::EndOfRound)
            && self.attacks.len() < MAX_ATTACK_COUNT
            && self.players[d].card_idxs.len() > 0)
    }

    /// Whether a defense may be played: the stage is Acting.
    pub fn can_defend(&self) -> (r: Result<bool, Error>)
        ensures
            r == Ok::<bool, Error>(self.stage == Stage::Acting),
    {
        Ok(self.stage == Stage::Acting)
    }

    /// Whether some card on the table has the kind of `card`.
    pub fn is_valid_attack_card(&self, card: &Card) -> (r: bool)
        ensures
            r == kind_in_ledger(self.attacks@, card.value@),
    {
        let mut i: usize = 0;
        while i < self.attacks.len()
            invariant
                i <= self.attacks@.len(),
                forall|a: int, j: int| 0 <= a < i && 0 <= j < self.attacks@[a].cards().len()
                    ==> !same_kind(#[trigger] self.attacks@[a].cards()[j].value@, card.value@),
            decreases self.attacks@.len() - i,
        {
            let cards = self.attacks[i].card_refs();
            let mut j: usize = 0;
            while j < cards.len()
                invariant
                    i < self.attacks@.len(),
                    j <= cards@.len(),
                    cards@.len() == self.attacks@[i as int].cards().len(),
                    forall|b: int| 0 <= b < cards@.len() ==> cards@[b].idx == self.attacks@[i as int].cards()[b].idx
                        && cards@[b].value@ == self.attacks@[i as int].cards()[b].value@,
                    forall|b: int| 0 <= b < j ==> !same_kind(#[trigger] self.attacks@[i as int].cards()[b].value@, card.value@),
                decreases cards@.len() - j,
            {
                if cards[j].is_same_kind(card) {
                    assert(same_kind(self.attacks@[i as int].cards()[j as int].value@, card.value@));
                    return true;
                }
                j = j + 1;
            }
            i = i + 1;
        }
        false
    }

    /// The trump card, once revealed.
    pub fn get_trump(&self) -> (r: Result<&Card, Error>)
        ensures
            r is Ok <==> self.trump is Some,
            r is Ok ==> *r->Ok_0 == self.trump->0,
            r is Err ==> r == Err::<&Card, Error>(Error::NoTrump),
    {
        match &self.trump {
            Some(t) => Ok(t),
            None => Err(Error::NoTrump),
        }
    }

    /// Whether `card` has the trump's suit.
    pub fn is_trump_suit(&self, card: &Card) -> (r: Result<bool, Error>)
        ensures
            r is Ok <==> self.trump is Some,
            r is Ok ==> r->Ok_0 == same_suit(self.trump->0.value@, card.value@),
            r is Err ==> r == Err::<bool, Error>(Error::NoTrump),
    {
        let t = self.get_trump()?;
        Ok(t.is_same_suit(card))
    }

    /// The ledger entry at `idx`.
    pub fn get_attack(&self, idx: u8) -> (r: Result<&Attack, Error>)
        ensures
            r is Ok <==> (idx as int) < self.attacks@.len(),
            r is Ok ==> *r->Ok_0 == self.attacks@[idx as int],
            r is Err ==> r == Err::<&Attack, Error>(Error::InvalidAttackIndex(idx)),
    {
        if (idx as usize) < self.attacks.len() {
            Ok(&self.attacks[idx as usize])
        } else {
            Err(Error::InvalidAttackIndex(idx))
        }
    }

    /// Whether every ledger entry is Open or Closed.
    pub fn is_all_attacks_confirmed(&self) -> (r: bool)
        ensures
            r == all_confirmed(self.attacks@),
    {
        let mut i: usize = 0;
        while i < self.attacks.len()
            invariant
                i <= self.attacks@.len(),
                forall|j: int| 0 <= j < i ==> #[trigger] self.attacks@[j].spec_is_confirmed(),
            decreases self.attacks@.len() - i,
        {
            if !self.attacks[i].is_confirmed() {
                return false;
            }
            i = i + 1;
        }
        true
    }

    /// Whether every ledger entry is Closed.
    fn is_all_attacks_closed(&self) -> (r: bool)
        ensures
            r == all_closed(self.attacks@),
    {
        let mut i: usize = 0;
        while i < self.attacks.len()
            invariant
                i <= self.attacks@.len(),
                forall|j: int| 0 <= j < i ==> #[trigger] self.attacks@[j] is Closed,
            decreases self.attacks@.len() - i,
        {
            if !self.attacks[i].is_closed() {
                return false;
            }
            i = i + 1;
        }
        true
    }

    /// The Defender has no card left and every card on a non-empty table is covered.
    pub fn is_fully_defended(&self) -> (r: Result<bool, Error>)
        ensures
            r is Ok <==> has_role(self.players@, Role::Defender),
            r is Ok ==> exists|d: int| is_first_holder(self.players@, d, Role::Defender)
                && r->Ok_0 == (self.players@[d].card_idxs@.len() == 0 && self.attacks@.len() > 0
                    && all_closed(self.attacks@)),
            r is Err ==> r == Err::<bool, Error>(Error::NoPlayerFoundByRole(Role::Defender)),
    {
        let d = self.find_role(Role::Defender)?;
        Ok(self.players[d].card_idxs.len() == 0 && self.attacks.len() > 0 && self.is_all_attacks_closed())
    }

    /// Requests the reveal of the trump slot.
    pub fn reveal_trump(&mut self, effect: &mut Effects) -> (r: Result<(), Error>)
        ensures
            r is Ok,
            final(self).stage == Stage::RevealingTrump,
            final(effect).commands@ == old(effect).commands@.push(
                Command::Reveal { random_id: old(self).random_id, idxs: final(effect).commands@.last()->Reveal_idxs },
            ),
            final(effect).commands@.last()->Reveal_idxs@ == seq![TRUMP_IDX],
            final(effect).timestamp == old(effect).timestamp,
            final(effect).revealed@ == old(effect).revealed@,
            final(self).players == old(self).players,
            final(self).attacks == old(self).attacks,
            final(self).deck_offset == old(self).deck_offset,
            final(self).num_of_finished == old(self).num_of_finished,
            final(self).num_of_players == old(self).num_of_players,
            final(self).random_id == old(self).random_id,
            final(self).trump == old(self).trump,
    {
        let idxs: Vec<usize> = vec![TRUMP_IDX];
        effect.commands.push(Command::Reveal { random_id: self.random_id, idxs });
        self.stage = Stage::RevealingTrump;
        Ok(())
    }

    /// Stores the revealed face value of the trump slot.
    pub fn update_trump(&mut self, effect: &Effects) -> (r: Result<(), Error>)
        ensures
            r is Ok <==> effect.revealed@.contains_key(TRUMP_IDX),
            r is Ok ==> final(self).trump is Some && final(self).trump->0.idx == TRUMP_IDX
                && final(self).trump->0.value@ == effect.revealed@[TRUMP_IDX]@,
            r is Err ==> r == Err::<(), Error>(Error::TrumpNotRevealed) && final(self).trump == old(self).trump,
            final(self).stage == old(self).stage,
            final(self).players == old(self).players,
            final(self).attacks == old(self).attacks,
            final(self).deck_offset == old(self).deck_offset,
            final(self).num_of_finished == old(self).num_of_finished,
            final(self).num_of_players == old(self).num_of_players,
            final(self).random_id == old(self).random_id,
    {
        match effect.revealed.get(&TRUMP_IDX) {
            Some(v) => {
                self.trump = Some(Card::new(TRUMP_IDX, v.clone()));
                Ok(())
            },
            None => Err(Error::TrumpNotRevealed),
        }
    }


    /// Deals cards from the cursor, starting at the Attacker's seat and
    /// walking the table, until each hand holds the minimum or the deck is
    /// exhausted (the cursor reaches the trump slot).
    #[verifier::rlimit(100)]
    pub fn deal_cards(&mut self, effect: &mut Effects) -> (r: Result<(), Error>)
        requires
            old(self).inv(),
        ensures
            no_reveal_since(old(effect).commands@, final(effect).commands@),
            final(self).inv(),
            r is Ok <==> has_role(old(self).players@, Role::Attacker),
            r is Ok ==> {
                &&& final(self).stage == Stage::Dealing
                &&& old(self).deck_offset <= final(self).deck_offset
                &&& exists|starts: Seq<int>| dealt(old(self).players@, final(self).players@,
                    old(self).deck_offset as int, final(self).deck_offset as int, starts)
                &&& exists|h: int, o: Seq<usize>, starts: Seq<int>| {
                    &&& holds_role(old(self).players@, h, Role::Attacker)
                    &&& is_key_order(acting_keys(old(self).players@, h), o)
                    &&& dealt(old(self).players@, final(self).players@,
                        old(self).deck_offset as int, final(self).deck_offset as int, starts)
                    &&& dealt_in_order(old(self).players@, final(self).players@, o, starts)
                }
                &&& final(self).deck_offset < TRUMP_IDX ==> hands_full(final(self).players@)
                &&& hands_ms(final(self).players@) == hands_ms(old(self).players@).add(
                    slot_range(old(self).deck_offset as int, final(self).deck_offset as int).to_multiset())
                &&& forall|q: int| old(effect).commands@.len() <= q < final(effect).commands@.len()
                    ==> assigns_dealt(#[trigger] final(effect).commands@[q], old(self).players@, final(self).players@,
                        old(self).random_id)
                &&& forall|i: int| 0 <= i < old(self).players@.len()
                    && (#[trigger] final(self).players@[i]).card_idxs@.len() > old(self).players@[i].card_idxs@.len()
                    ==> exists|q: int| old(effect).commands@.len() <= q < final(effect).commands@.len()
                        && assigns_to(final(effect).commands@[q], old(self).players@, final(self).players@,
                            old(self).random_id, i)
            },
            r is Err ==> *final(self) == *old(self),
            fx_extends(*old(effect), *final(effect)),
            final(self).attacks == old(self).attacks,
            final(self).num_of_finished == old(self).num_of_finished,
            final(self).num_of_players == old(self).num_of_players,
            final(self).random_id == old(self).random_id,
            final(self).trump == old(self).trump,
            final(self).bet_amount == old(self).bet_amount,
    {
        proof { lemma_fx_refl(*effect); }
        let order = self.players_in_acting_order_mut(Role::Attacker)?;
        let ghost h = choose|h: int| holds_role(self.players@, h, Role::Attacker) && is_key_order(
            Seq::new(self.players@.len(), |i: int| acting_key(self.players@[i].position, self.players@[h].position)),
            order@,
        );
        proof { lemma_key_order_distinct(Seq::new(self.players@.len(), |i: int| acting_key(self.players@[i].position, self.players@[h].position)), order@); }
        let ghost old_players = self.players@;
        let ghost lo = self.deck_offset as int;
        let ghost mut starts: Seq<int> = Seq::new(self.players@.len(), |i: int| lo);
        let ghost mut owners: Seq<int> = Seq::empty();
        proof {
            crate::laws::lemma_empty_range(hands_ms(old_players), lo);
            assert forall|i: int| 0 <= i < old_players.len() implies
                (#[trigger] old_players[i]).card_idxs@.subrange(0, old_players[i].card_idxs@.len() as int)
                    == old_players[i].card_idxs@ by {
                assert(old_players[i].card_idxs@.subrange(0, old_players[i].card_idxs@.len() as int)
                    =~= old_players[i].card_idxs@);
            }
        }
        let mut deck_offset = self.deck_offset;
        let random_id = self.random_id;
        let mut t: usize = 0;
        let mut exhausted = false;
        while t < order.len() && !exhausted
            invariant
                t <= order@.len(),
                forall|m: int, k: int| 0 <= m < k < t
                    && (#[trigger] self.players@[order@[k] as int]).card_idxs@.len() > old_players[order@[k] as int].card_idxs@.len()
                    ==> (#[trigger] self.players@[order@[m] as int]).card_idxs@.len() >= MIN_HAND_CARD_COUNT
                        && starts[order@[m] as int] + (self.players@[order@[m] as int].card_idxs@.len()
                            - old_players[order@[m] as int].card_idxs@.len()) <= starts[order@[k] as int],
                forall|m: int| 0 <= m < t ==> (#[trigger] self.players@[order@[m] as int]).card_idxs@.len() >= MIN_HAND_CARD_COUNT
                    || (exhausted && m == t - 1),
                order@.len() == old_players.len(),
                distinct_indices(order@, old_players.len() as int),
                forall|j: usize| j < old_players.len() ==> #[trigger] order@.contains(j),
                lo <= deck_offset <= TRUMP_IDX,
                exhausted ==> deck_offset == TRUMP_IDX,
                self.deck_offset == old(self).deck_offset,
                self.attacks == old(self).attacks,
                self.stage == old(self).stage,
                self.num_of_finished == old(self).num_of_finished,
                self.num_of_players == old(self).num_of_players,
                self.random_id == random_id,
                random_id == old(self).random_id,
                self.trump == old(self).trump,
                self.bet_amount == old(self).bet_amount,
                old_players == old(self).players@,
                fx_extends(*old(effect), *effect),
                owners.len() == effect.commands@.len() - old(effect).commands@.len(),
                forall|i: int| 0 <= i < old_players.len()
                    && (#[trigger] self.players@[i]).card_idxs@.len() > old_players[i].card_idxs@.len()
                    ==> exists|k: int| 0 <= k < owners.len() && owners[k] == i,
                forall|q: int| 0 <= q < owners.len() ==> 0 <= #[trigger] owners[q] < old_players.len()
                    && (exists|m: int| 0 <= m < t && order@[m] == owners[q])
                    && assigns_to(effect.commands@[old(effect).commands@.len() + q], old_players, self.players@, random_id, owners[q]),
                dealt(old_players, self.players@, lo, deck_offset as int, starts),
                hands_ms(self.players@) == hands_ms(old_players).add(slot_range(lo, deck_offset as int).to_multiset()),
                forall|i: int| 0 <= i < old_players.len() && !(exists|m: int| 0 <= m < t && order@[m] == i)
                    ==> (#[trigger] self.players@[i]).card_idxs@.len() == old_players[i].card_idxs@.len()
                        && (deck_offset < TRUMP_IDX ==> old_players[i].card_idxs@.len() >= MIN_HAND_CARD_COUNT
                            || old_players[i].card_idxs@.len() < MIN_HAND_CARD_COUNT),
                deck_offset < TRUMP_IDX ==> forall|i: int| 0 <= i < old_players.len()
                    && (exists|m: int| 0 <= m < t && order@[m] == i)
                    ==> (#[trigger] self.players@[i]).card_idxs@.len() >= MIN_HAND_CARD_COUNT,
            decreases order@.len() - t,
        {
            let x = order[t];
            let l = self.players[x].card_idxs.len();
            if l < MIN_HAND_CARD_COUNT {
                let cnt = MIN_HAND_CARD_COUNT - l;
                let new_offset = if deck_offset + cnt < TRUMP_IDX {
                    deck_offset + cnt
                } else {
                    TRUMP_IDX
                };
                let mut assign_idxs: Vec<usize> = Vec::new();
                let mut k = deck_offset;
                while k < new_offset
                    invariant
                        deck_offset <= k <= new_offset,
                        assign_idxs@.len() == k - deck_offset,
                        forall|q: int| 0 <= q < assign_idxs@.len() ==> assign_idxs@[q] == deck_offset + q,
                    decreases new_offset - k,
                {
                    assign_idxs.push(k);
                    k = k + 1;
                }
                let ghost before = self.players@;
                let addr = self.players[x].addr.clone();
                let mut copy: Vec<usize> = Vec::new();
                let mut q: usize = 0;
                while q < assign_idxs.len()
                    invariant
                        q <= assign_idxs@.len(),
                        copy@ == assign_idxs@.take(q as int),
                    decreases assign_idxs@.len() - q,
                {
                    copy.push(assign_idxs[q]);
                    q = q + 1;
                }
                assert(assign_idxs@.take(assign_idxs@.len() as int) == assign_idxs@);
                let ghost cmds = effect.commands@;
                let ghost assign_idxs_copy_view = copy@;
                effect.commands.push(Command::Assign { random_id, addr, idxs: copy });
                proof { lemma_push_extends(cmds, effect.commands@.last(), old(effect).commands@); }
                let ghost added = assign_idxs@;
                self.players[x].card_idxs.append(&mut assign_idxs);
                proof {
                    let base = old(effect).commands@.len();
                    assert forall|q: int| 0 <= q < owners.len() implies
                        assigns_to(effect.commands@[base + q], old_players, self.players@, random_id, #[trigger] owners[q]) by {
                        let m = choose|m: int| 0 <= m < t && order@[m] == owners[q];
                        assert(order@[m] != order@[t as int]);
                        assert(effect.commands@[base + q] == cmds[base + q]);
                        assert(self.players@[owners[q]] == before[owners[q]]);
                    }
                    assert(self.players@[x as int].card_idxs@ == before[x as int].card_idxs@ + added);
                    assert(self.players@[x as int].card_idxs@.subrange(l as int, self.players@[x as int].card_idxs@.len() as int) =~= added);
                    assert(assign_idxs_copy_view == added);
                    assert(assigns_to(effect.commands@.last(), old_players, self.players@, random_id, x as int));
                    let ghost prev = owners;
                    owners = owners.push(x as int);
                    assert forall|i: int| 0 <= i < old_players.len()
                        && (#[trigger] self.players@[i]).card_idxs@.len() > old_players[i].card_idxs@.len()
                        implies exists|k: int| 0 <= k < owners.len() && owners[k] == i by {
                        if i == x as int {
                            assert(owners[owners.len() - 1] == i);
                        } else {
                            assert(self.players@[i] == before[i]);
                            let k = choose|k: int| 0 <= k < prev.len() && prev[k] == i;
                            assert(owners[k] == i);
                        }
                    }
                    assert forall|q: int| 0 <= q < owners.len() implies 0 <= #[trigger] owners[q] < old_players.len()
                        && (exists|m: int| 0 <= m < t + 1 && order@[m] == owners[q])
                        && assigns_to(effect.commands@[base + q], old_players, self.players@, random_id, owners[q]) by {
                        if q < owners.len() - 1 {
                            let m = choose|m: int| 0 <= m < t && order@[m] == owners[q];
                        } else {
                            assert(order@[t as int] == owners[q]);
                        }
                    }
                    assert(before[x as int].card_idxs@.len() == old_players[x as int].card_idxs@.len()) by {
                        if exists|m: int| 0 <= m < t && order@[m] == x as int {
                            let m = choose|m: int| 0 <= m < t && order@[m] == x as int;
                            assert(order@[m] != order@[t as int]);
                        }
                    }
                    assert(before[x as int].card_idxs@ =~= before[x as int].card_idxs@.subrange(0, l as int));
                    assert(self.players@[x as int].card_idxs@ == before[x as int].card_idxs@ + added);
                    assert(self.players@[x as int].card_idxs@.subrange(0, l as int) =~= before[x as int].card_idxs@);
                    assert(hand_dealt(old_players[x as int].card_idxs@, self.players@[x as int].card_idxs@,
                        deck_offset as int, new_offset as int));
                    assert(added =~= slot_range(deck_offset as int, new_offset as int));
                    crate::laws::lemma_deal_step(before, self.players@, x as int, hands_ms(old_players),
                        lo, deck_offset as int, new_offset as int);
                    assert forall|i: int| 0 <= i < old_players.len() && i != x as int implies
                        #[trigger] self.players@[i] == before[i] by {}
                    assert(!(exists|m: int| 0 <= m < t && order@[m] == x as int)) by {
                        if exists|m: int| 0 <= m < t && order@[m] == x as int {
                            let m = choose|m: int| 0 <= m < t && order@[m] == x as int;
                            assert(order@[m] != order@[t as int]);
                        }
                    }
                    assert(before[x as int].card_idxs@.len() == old_players[x as int].card_idxs@.len());
                    starts = starts.update(x as int, deck_offset as int);
                    assert(self.players@[x as int].card_idxs@.subrange(0, l as int) == before[x as int].card_idxs@);
                    assert forall|i: int| 0 <= i < old_players.len() implies
                        (#[trigger] self.players@[i]).card_idxs@.len() - old_players[i].card_idxs@.len() == 0
                            || self.players@[i].card_idxs@.len() <= MIN_HAND_CARD_COUNT by {
                        if i != x as int {
                            assert(self.players@[i] == before[i]);
                        }
                    }
                    assert forall|i: int, j: int| 0 <= i < j < old_players.len() implies {
                        let gi = self.players@[i].card_idxs@.len() - old_players[i].card_idxs@.len();
                        let gj = self.players@[j].card_idxs@.len() - old_players[j].card_idxs@.len();
                        gi == 0 || gj == 0 || starts[i] + gi <= #[trigger] starts[j] || starts[j] + gj <= #[trigger] starts[i]
                    } by {
                        if i != x as int {
                            assert(self.players@[i] == before[i]);
                        }
                        if j != x as int {
                            assert(self.players@[j] == before[j]);
                        }
                    }
                    assert forall|i: int| 0 <= i < old_players.len() && !(exists|m: int| 0 <= m < t + 1 && order@[m] == i)
                        implies (#[trigger] self.players@[i]).card_idxs@.len() == old_players[i].card_idxs@.len()
                        && (new_offset < TRUMP_IDX ==> old_players[i].card_idxs@.len() >= MIN_HAND_CARD_COUNT
                            || old_players[i].card_idxs@.len() < MIN_HAND_CARD_COUNT) by {
                        assert(order@[t as int] != i);
                        assert(self.players@[i] == before[i]);
                    }
                    assert forall|i: int| 0 <= i < old_players.len() && (exists|m: int| 0 <= m < t + 1 && order@[m] == i)
                        && new_offset < TRUMP_IDX implies (#[trigger] self.players@[i]).card_idxs@.len() >= MIN_HAND_CARD_COUNT by {
                        let m = choose|m: int| 0 <= m < t + 1 && order@[m] == i;
                        if m < t {
                            assert(self.players@[i] == before[i]);
                        }
                    }
                }
                deck_offset = new_offset;
                if deck_offset == TRUMP_IDX {
                    exhausted = true;
                }
            } else {
                proof {
                    assert forall|i: int| 0 <= i < old_players.len() && (exists|m: int| 0 <= m < t + 1 && order@[m] == i)
                        && deck_offset < TRUMP_IDX implies (#[trigger] self.players@[i]).card_idxs@.len() >= MIN_HAND_CARD_COUNT by {
                        let m = choose|m: int| 0 <= m < t + 1 && order@[m] == i;
                        if m == t {
                            assert(order@[m] == x);
                        }
                    }
                }
            }
            t = t + 1;
        }
        proof {
            assert(acting_keys(old_players, h) == Seq::new(old_players.len(), |i: int| acting_key(old_players[i].position, old_players[h].position)));
            assert forall|m: int, k: int| 0 <= m < k < order@.len()
                && (#[trigger] self.players@[order@[k] as int]).card_idxs@.len() > old_players[order@[k] as int].card_idxs@.len()
                implies (#[trigger] self.players@[order@[m] as int]).card_idxs@.len() >= MIN_HAND_CARD_COUNT
                    && starts[order@[m] as int] + (self.players@[order@[m] as int].card_idxs@.len()
                        - old_players[order@[m] as int].card_idxs@.len()) <= starts[order@[k] as int] by {
                if k >= t {
                    if exists|mm: int| 0 <= mm < t && order@[mm] == order@[k] {
                        let mm = choose|mm: int| 0 <= mm < t && order@[mm] == order@[k];
                        assert(order@[mm] != order@[k]);
                    }
                }
            }
            assert(dealt_in_order(old_players, self.players@, order@, starts));
            assert forall|i: int| 0 <= i < old_players.len()
                && (#[trigger] self.players@[i]).card_idxs@.len() > old_players[i].card_idxs@.len()
                implies exists|q: int| old(effect).commands@.len() <= q < effect.commands@.len()
                    && assigns_to(effect.commands@[q], old_players, self.players@, random_id, i) by {
                let k = choose|k: int| 0 <= k < owners.len() && owners[k] == i;
                assert(assigns_to(effect.commands@[old(effect).commands@.len() + k], old_players, self.players@, random_id, owners[k]));
            }
            assert forall|q: int| old(effect).commands@.len() <= q < effect.commands@.len()
                implies assigns_dealt(#[trigger] effect.commands@[q], old_players, self.players@, random_id) by {
                let k = q - old(effect).commands@.len();
                assert(assigns_to(effect.commands@[old(effect).commands@.len() + k], old_players, self.players@, random_id, owners[k]));
            }
            if deck_offset < TRUMP_IDX {
                assert forall|i: int| 0 <= i < self.players@.len() implies (#[trigger] self.players@[i]).card_idxs@.len() >= MIN_HAND_CARD_COUNT by {
                    assert(order@.contains(i as usize));
                    let m = choose|m: int| 0 <= m < order@.len() && order@[m] == i as usize;
                }
            }
        }
        self.deck_offset = deck_offset;
        self.stage = Stage::Dealing;
        Ok(())
    }


    /// Once the deck is exhausted, gives the next finish ranks to players with
    /// an empty hand and no rank yet, in acting order from the Attacker.
    pub fn update_escaped_players(&mut self) -> (r: Result<(), Error>)
        requires
            old(self).inv(),
        ensures
            final(self).inv(),
            old(self).deck_offset != TRUMP_IDX ==> r is Ok && *final(self) == *old(self),
            old(self).deck_offset == TRUMP_IDX && !has_role(old(self).players@, Role::Attacker)
                ==> r == Err::<(), Error>(Error::NoPlayerFoundByRole(Role::Attacker)),
            r is Ok && old(self).deck_offset == TRUMP_IDX ==> exists|h: int, o: Seq<usize>| {
                &&& holds_role(old(self).players@, h, Role::Attacker)
                &&& is_key_order(acting_keys(old(self).players@, h), o)
                &&& ranks_assigned(old(self).players@, final(self).players@,
                    finishers_of(old(self).players@, o), old(self).num_of_finished as int)
                &&& final(self).num_of_finished == old(self).num_of_finished + finishers_of(old(self).players@, o).len()
            },
            old(self).deck_offset == TRUMP_IDX && has_role(old(self).players@, Role::Attacker)
                ==> (r is Ok <==> old(self).num_of_finished + old(self).players@.len() <= 255),
            r is Err ==> *final(self) == *old(self) && (r == Err::<(), Error>(Error::NoPlayerFoundByRole(Role::Attacker))
                || r == Err::<(), Error>(Error::InvalidNumOfPlayers)),
            final(self).stage == old(self).stage,
            final(self).attacks == old(self).attacks,
            final(self).deck_offset == old(self).deck_offset,
            final(self).num_of_players == old(self).num_of_players,
            final(self).trump == old(self).trump,
            final(self).random_id == old(self).random_id,
            final(self).bet_amount == old(self).bet_amount,
    {
        if self.deck_offset != TRUMP_IDX {
            return Ok(());
        }
        let order = self.players_in_acting_order_mut(Role::Attacker)?;
        let ghost h = choose|h: int| holds_role(self.players@, h, Role::Attacker) && is_key_order(
            Seq::new(self.players@.len(), |i: int| acting_key(self.players@[i].position, self.players@[h].position)),
            order@,
        );
        proof {
            assert(acting_keys(self.players@, h) == Seq::new(self.players@.len(), |i: int| acting_key(self.players@[i].position, self.players@[h].position)));
            lemma_key_order_distinct(acting_keys(self.players@, h), order@);
        }
        if self.players.len() > 255 - self.num_of_finished {
            return Err(Error::InvalidNumOfPlayers);
        }
        let ghost old_players = self.players@;
        let ghost base = self.num_of_finished as int;
        let mut n = self.num_of_finished;
        let mut i: usize = 0;
        while i < order.len()
            invariant
                i <= order@.len(),
                order@.len() == old_players.len(),
                distinct_indices(order@, old_players.len() as int),
                n <= base + i,
                base + old_players.len() <= 255,
                old(self).inv(),
                self.deck_offset == TRUMP_IDX,
                holds_role(old_players, h, Role::Attacker),
                n == base + finishers_of(old_players, order@.take(i as int)).len(),
                ranks_assigned(old_players, self.players@, finishers_of(old_players, order@.take(i as int)), base),
                forall|a: int| 0 <= a < finishers_of(old_players, order@.take(i as int)).len() ==>
                    exists|b: int| 0 <= b < i && order@[b] == #[trigger] finishers_of(old_players, order@.take(i as int))[a],
                forall|b: int| i <= b < order@.len() ==> #[trigger] self.players@[order@[b] as int] == old_players[order@[b] as int],
                self.stage == old(self).stage,
                self.attacks == old(self).attacks,
                self.deck_offset == old(self).deck_offset,
                self.num_of_players == old(self).num_of_players,
                self.num_of_finished == old(self).num_of_finished,
                self.trump == old(self).trump,
                self.random_id == old(self).random_id,
                self.bet_amount == old(self).bet_amount,
                old_players == old(self).players@,
            decreases order@.len() - i,
        {
            let x = order[i];
            let ghost fin = finishers_of(old_players, order@.take(i as int));
            assert(order@.take(i + 1).drop_last() == order@.take(i as int));
            assert(self.players@[x as int] == old_players[x as int]);
            if self.players[x].card_idxs.len() == 0 && self.players[x].rank.is_none() {
                let ghost before = self.players@;
                self.players[x].set_rank(n as u8);
                proof {
                    let nf = fin.push(x);
                    assert(finishers_of(old_players, order@.take(i + 1)) == nf);
                    assert(!fin.contains(x)) by {
                        if fin.contains(x) {
                            let a = choose|a: int| 0 <= a < fin.len() && fin[a] == x;
                            let b = choose|b: int| 0 <= b < i && order@[b] == fin[a];
                            assert(order@[b] != order@[i as int]);
                        }
                    }
                    assert forall|k: int| 0 <= k < nf.len() implies self.players@[#[trigger] nf[k] as int].rank == Some((base + k) as u8) by {
                        if k < fin.len() {
                            assert(nf[k] == fin[k]);
                            assert(fin[k] != x);
                        }
                    }
                    assert forall|j: int| 0 <= j < self.players@.len() && !nf.contains(j as usize) implies (#[trigger] self.players@[j]).rank == old_players[j].rank by {
                        assert(nf[nf.len() - 1] == x);
                        if j != x as int {
                            if fin.contains(j as usize) {
                                let a = choose|a: int| 0 <= a < fin.len() && fin[a] == j as usize;
                                assert(nf[a] == j as usize);
                            }
                        }
                    }
                    assert forall|a: int| 0 <= a < nf.len() implies exists|b: int| 0 <= b < i + 1 && order@[b] == #[trigger] nf[a] by {
                        if a == nf.len() - 1 {
                            assert(order@[i as int] == nf[a]);
                        } else {
                            assert(nf[a] == fin[a]);
                            let b = choose|b: int| 0 <= b < i && order@[b] == fin[a];
                        }
                    }
                    assert forall|b: int| i + 1 <= b < order@.len() implies #[trigger] self.players@[order@[b] as int] == old_players[order@[b] as int] by {
                        assert(order@[b] != order@[i as int]);
                    }
                }
                n = n + 1;
            }
            i = i + 1;
        }
        assert(order@.take(order@.len() as int) == order@);
        self.num_of_finished = n;
        Ok(())
    }

    /// Settles a finished game: the best-ranked player receives the bet from
    /// the worst-ranked one, every player is ejected, a checkpoint is taken
    /// and the reset timer is armed.
    pub fn settle_game(&mut self, effect: &mut Effects) -> (r: Result<(), Error>)
        ensures
            no_reveal_since(old(effect).commands@, final(effect).commands@),
            r is Ok <==> old(self).players@.len() > 0,
            r is Ok ==> exists|o: Seq<usize>| is_key_order(rank_keys(old(self).players@), o)
                && final(effect).commands@ == old(effect).commands@
                    + settle_commands(old(self).players@, o, old(self).bet_amount)
                    + seq![Command::Checkpoint, Command::WaitTimeout { timeout: RESET_TIMEOUT_MS }],
            r is Err ==> r == Err::<(), Error>(Error::EmptyPlayers) && final(effect).commands == old(effect).commands,
            fx_extends(*old(effect), *final(effect)),
            *final(self) == *old(self),
    {
        let order = self.players_in_rank_order();
        proof {
            assert(rank_keys(self.players@) == Seq::new(self.players@.len(), |i: int| rank_key(self.players@[i].rank)));
        }
        proof { lemma_fx_refl(*effect); }
        if order.len() == 0 {
            return Err(Error::EmptyPlayers);
        }
        let ghost c0 = effect.commands@;
        let winner = self.players[order[0]].addr.clone();
        let loser = self.players[order[order.len() - 1]].addr.clone();
        effect.commands.push(Command::SettleAdd { addr: winner, amount: self.bet_amount });
        effect.commands.push(Command::SettleSub { addr: loser, amount: self.bet_amount });
        let ghost c1 = effect.commands@;
        let mut k: usize = 0;
        while k < order.len()
            invariant
                k <= order@.len(),
                forall|a: int| 0 <= a < order@.len() ==> order@[a] < self.players@.len(),
                effect.commands@ == c1 + Seq::new(k as nat, |q: int| Command::SettleEject { addr: self.players@[order@[q] as int].addr }),
                effect.timestamp == old(effect).timestamp,
                effect.revealed@ == old(effect).revealed@,
            decreases order@.len() - k,
        {
            let addr = self.players[order[k]].addr.clone();
            effect.commands.push(Command::SettleEject { addr });
            assert(effect.commands@ =~= c1 + Seq::new((k + 1) as nat, |q: int| Command::SettleEject { addr: self.players@[order@[q] as int].addr }));
            k = k + 1;
        }
        effect.commands.push(Command::Checkpoint);
        effect.commands.push(Command::WaitTimeout { timeout: RESET_TIMEOUT_MS });
        assert(effect.commands@ =~= c0 + settle_commands(self.players@, order@, self.bet_amount)
            + seq![Command::Checkpoint, Command::WaitTimeout { timeout: RESET_TIMEOUT_MS }]);
        assert(effect.commands@.subrange(0, c0.len() as int) =~= c0);
        Ok(())
    }

    /// Ends the game once all but one player hold a finish rank.
    pub fn maybe_end_game(&mut self, effect: &mut Effects) -> (r: Result<(), Error>)
        requires
            old(self).inv(),
        ensures
            no_reveal_since(old(effect).commands@, final(effect).commands@),
            final(self).inv(),
            old(self).num_of_finished + 1 >= old(self).num_of_players ==> {
                &&& final(self).stage == Stage::EndOfGame
                &&& (r is Ok <==> old(self).players@.len() > 0)
                &&& r is Ok ==> exists|o: Seq<usize>| is_key_order(rank_keys(old(self).players@), o)
                    && final(effect).commands@ == old(effect).commands@
                        + settle_commands(old(self).players@, o, old(self).bet_amount)
                        + seq![Command::Checkpoint, Command::WaitTimeout { timeout: RESET_TIMEOUT_MS }]
            },
            old(self).num_of_finished + 1 < old(self).num_of_players ==> r is Ok
                && final(self).stage == old(self).stage && final(effect).commands == old(effect).commands,
            r is Err ==> r == Err::<(), Error>(Error::EmptyPlayers),
            fx_extends(*old(effect), *final(effect)),
            final(self).players == old(self).players,
            final(self).attacks == old(self).attacks,
            final(self).deck_offset == old(self).deck_offset,
            final(self).num_of_finished == old(self).num_of_finished,
            final(self).num_of_players == old(self).num_of_players,
            final(self).trump == old(self).trump,
            final(self).random_id == old(self).random_id,
            final(self).bet_amount == old(self).bet_amount,
            final(self).timeout == old(self).timeout,
    {
        proof { lemma_fx_refl(*effect); }
        if self.num_of_finished + 1 >= self.num_of_players {
            self.stage = Stage::EndOfGame;
            return self.settle_game(effect);
        }
        Ok(())
    }

    /// Arms the timer of the awaited player once every entry is confirmed:
    /// the Attacker in EndOfRound (short window), else the Defender while an
    /// entry is open, else the Attacker.
    fn arm_timeout(&mut self, effect: &mut Effects) -> (r: Result<(), Error>)
        ensures
            no_reveal_since(old(effect).commands@, final(effect).commands@),
            !all_confirmed(old(self).attacks@) ==> r is Ok && *final(self) == *old(self)
                && final(effect).commands == old(effect).commands,
            all_confirmed(old(self).attacks@) ==> {
                let (role, ms) = awaited_role(old(self).stage, old(self).attacks@);
                &&& r is Ok <==> has_role(old(self).players@, role)
                &&& r is Ok ==> exists|p: int| is_first_holder(old(self).players@, p, role)
                    && final(effect).commands@ == old(effect).commands@.push(
                        Command::ActionTimeout { addr: old(self).players@[p].addr, timeout: ms })
                    && final(self).timeout == deadline_spec(old(effect).timestamp, ms)
                &&& r is Err ==> r == Err::<(), Error>(Error::NoPlayerFoundByRole(role))
                    && final(effect).commands == old(effect).commands && *final(self) == *old(self)
            },
            final(effect).timestamp == old(effect).timestamp,
            final(effect).revealed@ == old(effect).revealed@,
            final(self).stage == old(self).stage,
            final(self).players == old(self).players,
            final(self).attacks == old(self).attacks,
            final(self).deck_offset == old(self).deck_offset,
            final(self).num_of_finished == old(self).num_of_finished,
            final(self).num_of_players == old(self).num_of_players,
            final(self).trump == old(self).trump,
            final(self).random_id == old(self).random_id,
            final(self).bet_amount == old(self).bet_amount,
    {
        if !self.is_all_attacks_confirmed() {
            return Ok(());
        }
        let mut any_open = false;
        let mut i: usize = 0;
        while i < self.attacks.len()
            invariant
                i <= self.attacks@.len(),
                any_open == exists|j: int| 0 <= j < i && #[trigger] self.attacks@[j] is Open,
            decreases self.attacks@.len() - i,
        {
            if self.attacks[i].is_open() {
                any_open = true;
            }
            i = i + 1;
        }
        let (role, ms) = if self.stage == Stage::EndOfRound {
            (Role::Attacker, END_OF_ROUND_TIMEOUT_MS)
        } else if any_open {
            (Role::Defender, ACT_TIMEOUT_MS)
        } else {
            (Role::Attacker, ACT_TIMEOUT_MS)
        };
        let p = self.find_role(role)?;
        let addr = self.players[p].addr.clone();
        effect.commands.push(Command::ActionTimeout { addr, timeout: ms });
        self.timeout = deadline(effect.timestamp, ms);
        Ok(())
    }


    /// All slots held by the ledger.
    fn ledger_slot_idxs(&self) -> (r: Vec<usize>)
        ensures
            r@ == ledger_slots(self.attacks@),
    {
        let mut r: Vec<usize> = Vec::new();
        let mut i: usize = 0;
        while i < self.attacks.len()
            invariant
                i <= self.attacks@.len(),
                r@ == ledger_slots(self.attacks@.take(i as int)),
            decreases self.attacks@.len() - i,
        {
            let mut s = self.attacks[i].slot_idxs();
            assert(self.attacks@.take(i + 1).drop_last() == self.attacks@.take(i as int));
            r.append(&mut s);
            i = i + 1;
        }
        assert(self.attacks@.take(self.attacks@.len() as int) == self.attacks@);
        r
    }

    /// Whether some hand is below the minimum size.
    fn any_hand_short(&self) -> (r: bool)
        ensures
            r == some_hand_short(self.players@),
    {
        let mut i: usize = 0;
        while i < self.players.len()
            invariant
                i <= self.players@.len(),
                forall|j: int| 0 <= j < i ==> (#[trigger] self.players@[j]).card_idxs@.len() >= MIN_HAND_CARD_COUNT,
            decreases self.players@.len() - i,
        {
            if self.players[i].card_idxs.len() < MIN_HAND_CARD_COUNT {
                return true;
            }
            i = i + 1;
        }
        false
    }

    /// Ends the round. `attack_succeed` means the defense failed and the
    /// Defender collects the cards; otherwise the cards are discarded.
    /// A failed defense in Acting with room on the table first moves to
    /// EndOfRound, with a short timer on the Attacker, so that more cards
    /// can be added.
    #[verifier::rlimit(50)]
    pub fn end_round(&mut self, attack_succeed: bool, effect: &mut Effects) -> (r: Result<(), Error>)
        requires
            old(self).inv(),
        ensures
            final(self).attacks@.len() <= old(self).attacks@.len(),
            no_reveal_since(old(effect).commands@, final(effect).commands@),
            final(self).inv(),
            fx_extends(*old(effect), *final(effect)),
            old(self).stage == Stage::EndOfGame ==> r is Ok && *final(self) == *old(self)
                && final(effect).commands == old(effect).commands,
            old(self).stage == Stage::Acting && attack_succeed && old(self).attacks@.len() < MAX_ATTACK_COUNT ==> {
                &&& r is Ok <==> has_role(old(self).players@, Role::Attacker)
                &&& r is Ok ==> exists|a: int| is_first_holder(old(self).players@, a, Role::Attacker)
                    && final(effect).commands@ == old(effect).commands@.push(Command::ActionTimeout {
                        addr: old(self).players@[a].addr, timeout: END_OF_ROUND_TIMEOUT_MS })
                    && final(self).timeout == deadline_spec(old(effect).timestamp, END_OF_ROUND_TIMEOUT_MS)
                &&& r is Ok ==> final(self).stage == Stage::EndOfRound
                    && final(self).players == old(self).players && final(self).attacks == old(self).attacks
            },
            old(self).stage != Stage::EndOfGame && !(old(self).stage == Stage::Acting && attack_succeed
                && old(self).attacks@.len() < MAX_ATTACK_COUNT) ==> {
                &&& r is Ok <==> round_can_end(old(self).players@)
                &&& r is Err ==> *final(self) == *old(self) && final(effect).commands == old(effect).commands
            },
            old(self).stage != Stage::EndOfGame && !(old(self).stage == Stage::Acting && attack_succeed
                && old(self).attacks@.len() < MAX_ATTACK_COUNT) && r is Ok ==> {
                &&& final(self).attacks@.len() == 0
                &&& final(self).deck_offset >= old(self).deck_offset
                &&& exists|d: int, mid: Seq<Player>, dealt_p: Seq<Player>| round_ended(old(self).players@,
                    old(self).attacks@, old(self).deck_offset, final(self).deck_offset, final(self).stage, final(self).players@,
                    attack_succeed, d, mid, dealt_p)
                &&& final(self).stage == Stage::Acting ==> exists|a: int| is_first_holder(old(self).players@, a, Role::Attacker)
                    && final(effect).commands@ == old(effect).commands@.push(Command::ActionTimeout {
                        addr: old(self).players@[a].addr, timeout: ACT_TIMEOUT_MS })
                    && final(self).timeout == deadline_spec(old(effect).timestamp, ACT_TIMEOUT_MS)
            },
            final(self).num_of_players == old(self).num_of_players,
            final(self).num_of_finished == old(self).num_of_finished,
            final(self).trump == old(self).trump,
            final(self).random_id == old(self).random_id,
            final(self).bet_amount == old(self).bet_amount,
    {
        proof { lemma_fx_refl(*effect); }
        if self.stage == Stage::EndOfGame {
            return Ok(());
        }
        if self.stage == Stage::Acting && attack_succeed && self.attacks.len() < MAX_ATTACK_COUNT {
            let a = self.find_role(Role::Attacker)?;
            let addr = self.players[a].addr.clone();
            let ghost c0 = effect.commands@;
            effect.commands.push(Command::ActionTimeout { addr, timeout: END_OF_ROUND_TIMEOUT_MS });
            proof { lemma_push_extends(c0, effect.commands@.last(), c0); }
            self.timeout = deadline(effect.timestamp, END_OF_ROUND_TIMEOUT_MS);
            self.stage = Stage::EndOfRound;
            return Ok(());
        }
        let ghost old_players = self.players@;
        let ghost mut d: int = 0;
        let di = self.find_role(Role::Defender)?;
        let _ = self.find_role(Role::Attacker)?;
        if attack_succeed {
            let mut slots = self.ledger_slot_idxs();
            let ghost sl = slots@;
            self.players[di].card_idxs.append(&mut slots);
            proof {
                d = di as int;
                assert forall|i: int| 0 <= i < old_players.len() implies
                    (#[trigger] self.players@[i]).card_idxs@ == old_players[i].card_idxs@
                        + if i == d { sl } else { Seq::<usize>::empty() } by {
                    if i != d {
                        assert(old_players[i].card_idxs@ + Seq::<usize>::empty() =~= old_players[i].card_idxs@);
                    }
                }
            }
        } else {
            proof {
                assert forall|i: int| 0 <= i < old_players.len() implies
                    (#[trigger] self.players@[i]).card_idxs@ == old_players[i].card_idxs@
                        + if i == d { Seq::<usize>::empty() } else { Seq::<usize>::empty() } by {
                    assert(old_players[i].card_idxs@ + Seq::<usize>::empty() =~= old_players[i].card_idxs@);
                }
            }
        }
        let ghost mid = self.players@;
        assert(collected(old_players, mid, d,
            if attack_succeed { ledger_slots(old(self).attacks@) } else { Seq::empty() }));
        proof {
            lemma_same_roles_ranks(old_players, mid);
        }
        self.attacks.clear();
        let need_deal = self.deck_offset < TRUMP_IDX && self.any_hand_short();
        if need_deal {
            self.deal_cards(effect)?;
        } else {
            self.stage = Stage::Acting;
            let ghost c0 = *effect;
            assert(!(exists|i: int| 0 <= i < self.attacks@.len() && #[trigger] self.attacks@[i] is Open));
            self.arm_timeout(effect)?;
            proof {
                if effect.commands@.len() > c0.commands@.len() {
                    lemma_push_extends(c0.commands@, effect.commands@.last(), old(effect).commands@);
                }
            }
            proof {
                assert forall|i: int| 0 <= i < mid.len() implies
                    (#[trigger] mid[i]).card_idxs@.subrange(0, mid[i].card_idxs@.len() as int) == mid[i].card_idxs@ by {
                    assert(mid[i].card_idxs@.subrange(0, mid[i].card_idxs@.len() as int) =~= mid[i].card_idxs@);
                }
                crate::laws::lemma_empty_range(hands_ms(mid), self.deck_offset as int);
            }
        }
        let ghost dealt_p = self.players@;
        proof {
            lemma_same_roles_ranks(mid, dealt_p);
            if need_deal {
                let starts = choose|starts: Seq<int>| dealt(mid, dealt_p, old(self).deck_offset as int, self.deck_offset as int, starts);
                assert forall|i: int| 0 <= i < mid.len() implies
                    (#[trigger] dealt_p[i]).card_idxs@.subrange(0, mid[i].card_idxs@.len() as int) == mid[i].card_idxs@ by {
                    let got = dealt_p[i].card_idxs@.len() - mid[i].card_idxs@.len();
                    assert(hand_dealt(mid[i].card_idxs@, dealt_p[i].card_idxs@, starts[i], starts[i] + got));
                }
            }
            assert(hands_extended(mid, dealt_p));
        }
        self.rotate_roles(attack_succeed)?;
        let ghost rot = self.players@;
        self.remove_roles_for_escaped_players();
        proof {
            lemma_rotate_then_clear(dealt_p, rot, self.players@, attack_succeed);
            if !need_deal {
                let a = choose|a: int| is_first_holder(mid, a, Role::Attacker)
                    && effect.commands@ == old(effect).commands@.push(Command::ActionTimeout {
                        addr: mid[a].addr, timeout: ACT_TIMEOUT_MS });
                assert(is_first_holder(old_players, a, Role::Attacker));
                assert(mid[a].addr == old_players[a].addr);
            }
            assert(round_ended(old_players, old(self).attacks@, old(self).deck_offset, self.deck_offset, self.stage,
                self.players@, attack_succeed, d, mid, dealt_p));
        }
        Ok(())
    }

    /// Arms the next timer, or ends the round at once when the Defender has
    /// no card left and every card on the table is covered.
    pub fn set_timeout_or_end_round(&mut self, effect: &mut Effects) -> (r: Result<(), Error>)
        requires
            old(self).inv(),
        ensures
            final(self).attacks@.len() <= old(self).attacks@.len(),
            no_reveal_since(old(effect).commands@, final(effect).commands@),
            final(self).inv(),
            fx_extends(*old(effect), *final(effect)),
            old(self).stage == Stage::EndOfGame ==> r is Ok && *final(self) == *old(self)
                && final(effect).commands == old(effect).commands,
            old(self).stage != Stage::EndOfGame ==> (r is Ok <==> timer_can_arm(old(self).players@, old(self).attacks@, old(self).stage)),
            old(self).stage != Stage::EndOfGame && !has_role(old(self).players@, Role::Defender)
                ==> r == Err::<(), Error>(Error::NoPlayerFoundByRole(Role::Defender)),
            r is Err ==> *final(self) == *old(self) && final(effect).commands == old(effect).commands,
            old(self).stage != Stage::EndOfGame && fully_defended(old(self).players@, old(self).attacks@) && r is Ok
                ==> final(self).attacks@.len() == 0 && exists|d: int, mid: Seq<Player>, dealt_p: Seq<Player>| round_ended(
                    old(self).players@, old(self).attacks@, old(self).deck_offset, final(self).deck_offset, final(self).stage,
                    final(self).players@, false, d, mid, dealt_p),
            old(self).stage != Stage::EndOfGame && !all_confirmed(old(self).attacks@) && r is Ok
                ==> *final(self) == *old(self) && final(effect).commands == old(effect).commands,
            old(self).stage != Stage::EndOfGame && all_confirmed(old(self).attacks@) && r is Ok
                && !fully_defended(old(self).players@, old(self).attacks@)
                ==> exists|p: int| is_first_holder(old(self).players@, p, awaited_role(old(self).stage, old(self).attacks@).0)
                    && final(effect).commands@ == old(effect).commands@.push(Command::ActionTimeout {
                        addr: old(self).players@[p].addr, timeout: awaited_role(old(self).stage, old(self).attacks@).1 })
                    && final(self).timeout == deadline_spec(old(effect).timestamp, awaited_role(old(self).stage, old(self).attacks@).1)
                    && final(self).stage == old(self).stage && final(self).players == old(self).players
                    && final(self).attacks == old(self).attacks,
            all_confirmed(old(self).attacks@) && r is Ok ==> all_confirmed(final(self).attacks@),
            old(self).stage != Stage::EndOfGame && old(self).attacks@.len() == 0 && r is Ok
                ==> final(self).stage == old(self).stage && final(self).players == old(self).players
                    && final(self).attacks == old(self).attacks,
            final(self).num_of_players == old(self).num_of_players,
            final(self).num_of_finished == old(self).num_of_finished,
            final(self).trump == old(self).trump,
            final(self).random_id == old(self).random_id,
    {
        proof { lemma_fx_refl(*effect); }
        if self.stage == Stage::EndOfGame {
            return Ok(());
        }
        if self.is_fully_defended()? {
            self.end_round(false, effect)
        } else {
            let ghost c0 = *effect;
            let r = self.arm_timeout(effect);
            proof {
                if effect.commands@.len() > c0.commands@.len() {
                    lemma_push_extends(c0.commands@, effect.commands@.last(), old(effect).commands@);
                }
            }
            r
        }
    }

    /// Moves to Acting and arms the next timer.
    pub fn ask_to_act(&mut self, effect: &mut Effects) -> (r: Result<(), Error>)
        requires
            old(self).inv(),
        ensures
            final(self).inv(),
            fx_extends(*old(effect), *final(effect)),
            r is Ok <==> timer_can_arm(old(self).players@, old(self).attacks@, Stage::Acting),
            !has_role(old(self).players@, Role::Defender)
                ==> r == Err::<(), Error>(Error::NoPlayerFoundByRole(Role::Defender)),
            r is Err ==> final(effect).commands == old(effect).commands,
            r is Ok && old(self).attacks@.len() == 0 ==> final(self).stage == Stage::Acting
                && final(self).players == old(self).players,
            r is Ok && fully_defended(old(self).players@, old(self).attacks@) ==> final(self).attacks@.len() == 0
                && exists|d: int, mid: Seq<Player>, dealt_p: Seq<Player>| round_ended(
                    old(self).players@, old(self).attacks@, old(self).deck_offset, final(self).deck_offset, final(self).stage,
                    final(self).players@, false, d, mid, dealt_p),
            r is Ok && all_confirmed(old(self).attacks@) && !fully_defended(old(self).players@, old(self).attacks@)
                ==> exists|p: int| is_first_holder(old(self).players@, p, awaited_role(Stage::Acting, old(self).attacks@).0)
                    && final(effect).commands@ == old(effect).commands@.push(Command::ActionTimeout {
                        addr: old(self).players@[p].addr, timeout: awaited_role(Stage::Acting, old(self).attacks@).1 })
                    && final(self).timeout == deadline_spec(old(effect).timestamp, awaited_role(Stage::Acting, old(self).attacks@).1)
                    && final(self).stage == Stage::Acting && final(self).players == old(self).players
                    && final(self).attacks == old(self).attacks,
            final(self).num_of_players == old(self).num_of_players,
            final(self).num_of_finished == old(self).num_of_finished,
            final(self).trump == old(self).trump,
            final(self).random_id == old(self).random_id,
    {
        self.stage = Stage::Acting;
        self.set_timeout_or_end_round(effect)
    }


    /// Confirms every entry whose slot has been revealed: ConfirmOpen becomes
    /// Open, ConfirmClose becomes Closed. Fails, changing nothing, when a
    /// pending slot is not revealed.
    pub fn confirm_attacks(&mut self, effect: &Effects) -> (r: Result<(), Error>)
        ensures
            r is Ok <==> pending_revealed(old(self).attacks@, effect.revealed@)
                && closes_revealed(old(self).attacks@, effect.revealed@, old(self).trump),
            r is Ok ==> final(self).attacks@.len() == old(self).attacks@.len()
                && forall|i: int| 0 <= i < old(self).attacks@.len() ==> confirmed_entry(
                    old(self).attacks@[i], #[trigger] final(self).attacks@[i], effect.revealed@),
            r is Ok ==> all_confirmed(final(self).attacks@),
            r is Err ==> *final(self) == *old(self),
            !pending_revealed(old(self).attacks@, effect.revealed@) ==> exists|i: int| 0 <= i < old(self).attacks@.len()
                && (#[trigger] pending_slot(old(self).attacks@[i])) is Some
                && r == Err::<(), Error>(Error::UnexpectedUnrevealedCard(pending_slot(old(self).attacks@[i])->0 as u8)),
            pending_revealed(old(self).attacks@, effect.revealed@)
                && !closes_revealed(old(self).attacks@, effect.revealed@, old(self).trump)
                ==> r == Err::<(), Error>(Error::NoTrump) || r == Err::<(), Error>(Error::InvalidDefendCard),
            final(self).stage == old(self).stage,
            final(self).players == old(self).players,
            final(self).deck_offset == old(self).deck_offset,
            final(self).num_of_finished == old(self).num_of_finished,
            final(self).num_of_players == old(self).num_of_players,
            final(self).trump == old(self).trump,
            final(self).random_id == old(self).random_id,
            final(self).bet_amount == old(self).bet_amount,
            final(self).timeout == old(self).timeout,
    {
        let mut i: usize = 0;
        while i < self.attacks.len()
            invariant
                i <= self.attacks@.len(),
                self.attacks == old(self).attacks,
                forall|j: int| 0 <= j < i && (#[trigger] pending_slot(self.attacks@[j])) is Some
                    ==> effect.revealed@.contains_key(pending_slot(self.attacks@[j])->0),
            decreases self.attacks@.len() - i,
        {
            match pending_of(&self.attacks[i]) {
                Some(s) => {
                    if !effect.revealed.contains_key(&s) {
                        return Err(Error::UnexpectedUnrevealedCard(s as u8));
                    }
                },
                None => {},
            }
            i = i + 1;
        }
        let mut i: usize = 0;
        while i < self.attacks.len()
            invariant
                i <= self.attacks@.len(),
                self.attacks == old(self).attacks,
                self.trump == old(self).trump,
                pending_revealed(old(self).attacks@, effect.revealed@),
                forall|j: int| 0 <= j < i ==> close_ok(#[trigger] self.attacks@[j], effect.revealed@, self.trump),
            decreases self.attacks@.len() - i,
        {
            if let Attack::ConfirmClose { open, close_idx } = &self.attacks[i] {
                assert(pending_slot(self.attacks@[i as int]) is Some);
                match &self.trump {
                    None => {
                        return Err(Error::NoTrump);
                    },
                    Some(t) => {
                        if let Some(v) = effect.revealed.get(close_idx) {
                            let c = Card::new(*close_idx, v.clone());
                            if !closes_card(open, &c, t) {
                                return Err(Error::InvalidDefendCard);
                            }
                        }
                    },
                }
            }
            i = i + 1;
        }
        let mut i: usize = 0;
        while i < self.attacks.len()
            invariant
                i <= self.attacks@.len(),
                self.attacks@.len() == old(self).attacks@.len(),
                pending_revealed(old(self).attacks@, effect.revealed@),
                forall|j: int| 0 <= j < i ==> confirmed_entry(old(self).attacks@[j], #[trigger] self.attacks@[j], effect.revealed@),
                forall|j: int| 0 <= j < i ==> (#[trigger] self.attacks@[j]).spec_is_confirmed(),
                forall|j: int| i <= j < self.attacks@.len() ==> #[trigger] self.attacks@[j] == old(self).attacks@[j],
                self.stage == old(self).stage,
                self.players == old(self).players,
                self.deck_offset == old(self).deck_offset,
                self.num_of_finished == old(self).num_of_finished,
                self.num_of_players == old(self).num_of_players,
                self.trump == old(self).trump,
                self.random_id == old(self).random_id,
                self.bet_amount == old(self).bet_amount,
                self.timeout == old(self).timeout,
            decreases self.attacks@.len() - i,
        {
            assert(self.attacks@[i as int] == old(self).attacks@[i as int]);
            if let Some(s) = pending_of(&self.attacks[i]) {
                assert(pending_slot(old(self).attacks@[i as int]) is Some);
                let v = match effect.revealed.get(&s) {
                    Some(v) => v.clone(),
                    None => String::new(),
                };
                if matches!(self.attacks[i], Attack::ConfirmOpen { .. }) {
                    let _ = self.attacks[i].confirm_open(v);
                } else {
                    let _ = self.attacks[i].confirm_close(v);
                }
            }
            i = i + 1;
        }
        Ok(())
    }


    /// Resumes after a reveal: confirms the pending entries, records finish
    /// ranks, ends the game when due, and arms the next timer.
    pub fn update_attacks(&mut self, effect: &mut Effects) -> (r: Result<(), Error>)
        requires
            old(self).inv(),
        ensures
            final(self).attacks@.len() <= old(self).attacks@.len(),
            no_reveal_since(old(effect).commands@, final(effect).commands@),
            final(self).inv(),
            fx_extends(*old(effect), *final(effect)),
            !pending_revealed(old(self).attacks@, old(effect).revealed@) ==> r is Err && *final(self) == *old(self)
                && final(effect).commands == old(effect).commands,
            r is Ok ==> all_confirmed(final(self).attacks@),
            resume_ok(*old(self), old(effect).revealed@) ==> r is Ok,
            r is Ok ==> exists|a1: Seq<Attack>, p2: Seq<Player>, n2: usize| resumed(*old(self), *final(self),
                old(effect).commands@, final(effect).commands@, old(effect).timestamp, old(effect).revealed@, a1, p2, n2),
            r is Ok && final(self).attacks@.len() > 0 ==> final(self).attacks@.len() == old(self).attacks@.len()
                && forall|i: int| 0 <= i < old(self).attacks@.len() ==> confirmed_entry(
                    old(self).attacks@[i], #[trigger] final(self).attacks@[i], old(effect).revealed@),
            final(self).num_of_players == old(self).num_of_players,
            final(self).trump == old(self).trump,
            final(self).random_id == old(self).random_id,
    {
        proof { lemma_fx_refl(*effect); }
        self.confirm_attacks(effect)?;
        let ghost p0 = self.players@;
        let ghost a1 = self.attacks@;
        self.update_escaped_players()?;
        let ghost p2 = self.players@;
        let ghost n2 = self.num_of_finished;
        proof {
            assert forall|r: Role| has_role(p0, r) implies has_role(self.players@, r) by {
                let i = choose|i: int| holds_role(p0, i, r);
                assert(self.players@[i] == self.players@[i]);
                assert(holds_role(self.players@, i, r));
            }
        }
        let ghost e1 = *effect;
        self.maybe_end_game(effect)?;
        proof {
            assert(effect.commands@.subrange(0, e1.commands@.len() as int) =~= e1.commands@);
            assert(effect.commands@.subrange(0, old(effect).commands@.len() as int)
                =~= e1.commands@.subrange(0, old(effect).commands@.len() as int));
        }
        let ghost e2 = *effect;
        let ghost s2 = *self;
        let r = self.set_timeout_or_end_round(effect);
        proof {
            assert(effect.commands@.subrange(0, old(effect).commands@.len() as int)
                =~= e2.commands@.subrange(0, old(effect).commands@.len() as int));
            if s2.stage != Stage::EndOfGame && fully_defended(s2.players@, s2.attacks@) {
            }
            if s2.stage != Stage::EndOfGame && all_confirmed(s2.attacks@) && !fully_defended(s2.players@, s2.attacks@) {
                let role = awaited_role(s2.stage, s2.attacks@).0;
                assert(role == Role::Attacker || role == Role::Defender);
            }
            if r is Ok {
                assert(effect.commands@ =~= e2.commands@ || n2 + 1 < old(self).num_of_players);
                assert(resumed(*old(self), *self, old(effect).commands@, effect.commands@, old(effect).timestamp,
                    old(effect).revealed@, a1, p2, n2));
            }
        }
        r
    }

    /// Requests the reveal of the slots of `idxs` not revealed yet; when all
    /// are revealed already, resumes at once.
    pub fn reveal_cards_or_update_attacks(&mut self, idxs: Vec<usize>, effect: &mut Effects) -> (r: Result<(), Error>)
        requires
            old(self).inv(),
        ensures
            final(self).attacks@.len() <= old(self).attacks@.len(),
            final(self).inv(),
            fx_extends(*old(effect), *final(effect)),
            unrevealed(idxs@, old(effect).revealed@).len() > 0 ==> r is Ok && *final(self) == *old(self)
                && final(effect).commands@.len() == old(effect).commands@.len() + 1
                && (final(effect).commands@.last() matches Command::Reveal { random_id, idxs: req }
                    && random_id == old(self).random_id && req@ == unrevealed(idxs@, old(effect).revealed@)),
            unrevealed(idxs@, old(effect).revealed@).len() == 0 && r is Ok ==> all_confirmed(final(self).attacks@),
            unrevealed(idxs@, old(effect).revealed@).len() == 0 ==> no_reveal_since(old(effect).commands@, final(effect).commands@),
            unrevealed(idxs@, old(effect).revealed@).len() == 0 && !pending_revealed(old(self).attacks@, old(effect).revealed@)
                ==> r is Err,
            unrevealed(idxs@, old(effect).revealed@).len() == 0 && resume_ok(*old(self), old(effect).revealed@) ==> r is Ok,
            unrevealed(idxs@, old(effect).revealed@).len() == 0 && r is Ok ==> exists|a1: Seq<Attack>, p2: Seq<Player>, n2: usize|
                resumed(*old(self), *final(self), old(effect).commands@, final(effect).commands@, old(effect).timestamp,
                    old(effect).revealed@, a1, p2, n2),
            final(self).num_of_players == old(self).num_of_players,
            final(self).trump == old(self).trump,
            final(self).random_id == old(self).random_id,
    {
        let mut rest: Vec<usize> = Vec::new();
        let mut i: usize = 0;
        while i < idxs.len()
            invariant
                i <= idxs@.len(),
                rest@ == unrevealed(idxs@.take(i as int), effect.revealed@),
            decreases idxs@.len() - i,
        {
            let x = idxs[i];
            assert(idxs@.take(i + 1).drop_last() == idxs@.take(i as int));
            if !effect.revealed.contains_key(&x) {
                rest.push(x);
            }
            i = i + 1;
        }
        assert(idxs@.take(idxs@.len() as int) == idxs@);
        if rest.len() == 0 {
            self.update_attacks(effect)
        } else {
            let ghost c0 = effect.commands@;
            effect.commands.push(Command::Reveal { random_id: self.random_id, idxs: rest });
            proof {
                assert(c0.subrange(0, c0.len() as int) =~= c0);
                lemma_push_extends(c0, effect.commands@.last(), c0);
            }
            Ok(())
        }
    }


    /// Takes the cards `cards` out of the hand of player `a`, all or none.
    fn take_cards(&mut self, a: usize, cards: &Vec<Card>) -> (r: Result<Vec<usize>, Error>)
        requires
            a < old(self).players@.len(),
        ensures
            r is Ok ==> r->Ok_0@ == card_slots(cards@)
                && hand_gave(old(self).players@, final(self).players@, a as int, card_slots(cards@)),
            r is Err ==> *final(self) == *old(self)
                && exists|i: int| 0 <= i < cards@.len()
                    && r == Err::<Vec<usize>, Error>(Error::InvalidCardIndex(#[trigger] cards@[i].idx)),
            cards_in_hand(old(self).players@[a as int].card_idxs@, cards@) ==> r is Ok,
            final(self).stage == old(self).stage,
            final(self).attacks == old(self).attacks,
            final(self).deck_offset == old(self).deck_offset,
            final(self).num_of_finished == old(self).num_of_finished,
            final(self).num_of_players == old(self).num_of_players,
            final(self).trump == old(self).trump,
            final(self).random_id == old(self).random_id,
            final(self).bet_amount == old(self).bet_amount,
            final(self).timeout == old(self).timeout,
    {
        let mut saved: Vec<usize> = Vec::new();
        let mut k: usize = 0;
        while k < self.players[a].card_idxs.len()
            invariant
                a < self.players@.len(),
                k <= self.players@[a as int].card_idxs@.len(),
                saved@ == self.players@[a as int].card_idxs@.take(k as int),
            decreases self.players@[a as int].card_idxs@.len() - k,
        {
            saved.push(self.players[a].card_idxs[k]);
            k = k + 1;
        }
        assert(saved@ =~= old(self).players@[a as int].card_idxs@);
        let mut hand = Player::new(String::new(), 0);
        hand.card_idxs = saved;
        let mut taken: Vec<usize> = Vec::new();
        proof {
            assert(taken@.to_multiset() =~= vstd::multiset::Multiset::empty()) by {
                broadcast use vstd::seq_lib::group_seq_properties;
            }
            assert(hand.card_idxs@.to_multiset().add(taken@.to_multiset())
                =~= old(self).players@[a as int].card_idxs@.to_multiset());
        }
        let mut i: usize = 0;
        while i < cards.len()
            invariant
                a < self.players@.len(),
                i <= cards@.len(),
                *self == *old(self),
                taken@ == card_slots(cards@).take(i as int),
                hand.card_idxs@.to_multiset().add(taken@.to_multiset())
                    == old(self).players@[a as int].card_idxs@.to_multiset(),
                cards_in_hand(old(self).players@[a as int].card_idxs@, cards@) ==> forall|j: int| i <= j < cards@.len()
                    ==> hand.card_idxs@.contains(#[trigger] cards@[j].idx),
            decreases cards@.len() - i,
        {
            let ghost before = hand.card_idxs@;
            let c = cards[i].idx;
            let x = hand.take_card(c)?;
            proof {
                if cards_in_hand(old(self).players@[a as int].card_idxs@, cards@) {
                    let p = before.index_of_first(c)->0;
                    before.index_of_first_ensures(c);
                    assert forall|j: int| i + 1 <= j < cards@.len() implies hand.card_idxs@.contains(#[trigger] cards@[j].idx) by {
                        let y = cards@[j].idx;
                        assert(before.contains(y));
                        assert(y != c);
                        let w = choose|w: int| 0 <= w < before.len() && before[w] == y;
                        if w < p {
                            assert(hand.card_idxs@[w] == y);
                        } else {
                            assert(w != p);
                            assert(hand.card_idxs@[w - 1] == y);
                        }
                    }
                }
                let p = before.index_of_first(c)->0;
                before.index_of_first_ensures(c);
                vstd::seq_lib::to_multiset_remove(before, p);
                vstd::seq_lib::to_multiset_build(taken@, x);
                assert(before.to_multiset().count(c) > 0) by {
                    broadcast use vstd::seq_lib::group_seq_properties;
                }
                assert(hand.card_idxs@.to_multiset().add(taken@.push(x).to_multiset())
                    =~= before.to_multiset().add(taken@.to_multiset()));
                assert(card_slots(cards@).take(i + 1) =~= card_slots(cards@).take(i as int).push(c));
            }
            taken.push(x);
            i = i + 1;
        }
        self.players[a].card_idxs = hand.card_idxs;
        assert(card_slots(cards@).take(cards@.len() as int) =~= card_slots(cards@));
        Ok(taken)
    }


    /// Index of the first holder of `role`, which must exist.
    proof fn lemma_first_holder(&self, i: int, role: Role)
        requires
            is_first_holder(self.players@, i, role),
        ensures
            first_holder(self.players@, role) == i,
    {
        let j = first_holder(self.players@, role);
        assert(is_first_holder(self.players@, j, role));
        if j < i {
            assert(!holds_role(self.players@, j, role));
        } else if j > i {
            assert(!holds_role(self.players@, i, role));
        }
    }

    /// Whether player `p` holds slot `idx`.
    fn hand_has(&self, p: usize, idx: usize) -> (r: bool)
        requires
            p < self.players@.len(),
        ensures
            r == self.players@[p as int].card_idxs@.contains(idx),
    {
        let mut k: usize = 0;
        while k < self.players[p].card_idxs.len()
            invariant
                p < self.players@.len(),
                k <= self.players@[p as int].card_idxs@.len(),
                forall|j: int| 0 <= j < k ==> self.players@[p as int].card_idxs@[j] != idx,
            decreases self.players@[p as int].card_idxs@.len() - k,
        {
            if self.players[p].card_idxs[k] == idx {
                return true;
            }
            k = k + 1;
        }
        false
    }

    /// Whether every card of `cards` matches a kind on the table.
    fn all_valid_attack_cards(&self, cards: &Vec<Card>) -> (r: bool)
        ensures
            r == all_kinds_in_ledger(self.attacks@, cards@),
    {
        let mut i: usize = 0;
        while i < cards.len()
            invariant
                i <= cards@.len(),
                forall|j: int| 0 <= j < i ==> kind_in_ledger(self.attacks@, #[trigger] cards@[j].value@),
            decreases cards@.len() - i,
        {
            if !self.is_valid_attack_card(&cards[i]) {
                return false;
            }
            i = i + 1;
        }
        true
    }

    /// Whether some card of `cards` matches a kind on the table.
    fn any_valid_attack_card(&self, cards: &Vec<Card>) -> (r: bool)
        ensures
            r == any_kind_in_ledger(self.attacks@, cards@),
    {
        let mut i: usize = 0;
        while i < cards.len()
            invariant
                i <= cards@.len(),
                forall|j: int| 0 <= j < i ==> !kind_in_ledger(self.attacks@, #[trigger] cards@[j].value@),
            decreases cards@.len() - i,
        {
            if self.is_valid_attack_card(&cards[i]) {
                return true;
            }
            i = i + 1;
        }
        false
    }

    /// Whether every entry is Open and all of one kind.
    fn is_forwardable(&self) -> (r: bool)
        ensures
            r == forwardable(self.attacks@),
    {
        let mut first: Option<char> = None;
        let mut i: usize = 0;
        while i < self.attacks.len()
            invariant
                i <= self.attacks@.len(),
                forall|j: int| 0 <= j < i ==> #[trigger] self.attacks@[j] is Open,
                forall|j: int| 0 <= j < i ==> kind_of(#[trigger] self.attacks@[j]->Open_open.value@) == first,
                i > 0 ==> first == kind_of(self.attacks@[0]->Open_open.value@),
            decreases self.attacks@.len() - i,
        {
            match &self.attacks[i] {
                Attack::Open { open } => {
                    let k = open.kind();
                    if i == 0 {
                        first = k;
                    } else if k != first {
                        assert(!(kind_of(self.attacks@[i as int]->Open_open.value@)
                            == kind_of(self.attacks@[0]->Open_open.value@)));
                        return false;
                    }
                },
                _ => {
                    return false;
                },
            }
            i = i + 1;
        }
        true
    }

    /// Puts `cards` of the Attacker (or the CoAttacker when `co`) on the
    /// table as new entries and requests their reveal.
    fn put_cards(&mut self, effect: &mut Effects, sender: &String, cards: Vec<Card>, co: bool) -> (r: Result<(), Error>)
        requires
            old(self).inv(),
        ensures
            old(self).attacks@.len() <= MAX_ATTACK_COUNT ==> final(self).attacks@.len() <= MAX_ATTACK_COUNT,
            r is Err && unrevealed(card_slots(cards@), old(effect).revealed@).len() > 0 ==> *final(self) == *old(self) && final(effect).commands == old(effect).commands,
            final(self).inv(),
            fx_extends(*old(effect), *final(effect)),
            attack_check(*old(self), sender@, cards@, co) is Some ==> r == Err::<(), Error>(
                attack_check(*old(self), sender@, cards@, co)->0) && *final(self) == *old(self)
                && final(effect).commands == old(effect).commands,
            r is Ok ==> attack_check(*old(self), sender@, cards@, co) is None,
            attack_check(*old(self), sender@, cards@, co) is None
                && cards_in_hand(old(self).players@[first_holder(old(self).players@,
                    if co { Role::CoAttacker } else { Role::Attacker })].card_idxs@, cards@)
                && unrevealed(card_slots(cards@), old(effect).revealed@).len() > 0 ==> r is Ok,
            attack_check(*old(self), sender@, cards@, co) is None
                && cards_in_hand(old(self).players@[first_holder(old(self).players@,
                    if co { Role::CoAttacker } else { Role::Attacker })].card_idxs@, cards@)
                && unrevealed(card_slots(cards@), old(effect).revealed@).len() == 0
                && resume_ok(*old(self), old(effect).revealed@) ==> r is Ok,
            r is Ok && unrevealed(card_slots(cards@), old(effect).revealed@).len() == 0 ==> exists|m: Durak, a1: Seq<Attack>,
                p2: Seq<Player>, n2: usize| put_into(*old(self), m, if co { Role::CoAttacker } else { Role::Attacker },
                    card_slots(cards@)) && resumed(m, *final(self), old(effect).commands@, final(effect).commands@,
                    old(effect).timestamp, old(effect).revealed@, a1, p2, n2),
            r is Ok && unrevealed(card_slots(cards@), old(effect).revealed@).len() > 0 ==> {
                &&& hand_gave(old(self).players@, final(self).players@,
                    first_holder(old(self).players@, if co { Role::CoAttacker } else { Role::Attacker }), card_slots(cards@))
                &&& opened(old(self).attacks@, final(self).attacks@, card_slots(cards@))
                &&& final(self).stage == old(self).stage
                &&& final(self).deck_offset == old(self).deck_offset
                &&& reveal_requested(old(effect).commands@, final(effect).commands@, old(self).random_id,
                    card_slots(cards@), old(effect).revealed@)
            },
            final(self).num_of_players == old(self).num_of_players,
            final(self).trump == old(self).trump,
            final(self).random_id == old(self).random_id,
    {
        proof { lemma_fx_refl(*effect); }
        let role = if co { Role::CoAttacker } else { Role::Attacker };
        let d = self.find_role(Role::Defender)?;
        proof { self.lemma_first_holder(d as int, Role::Defender); }
        if !((self.stage == Stage::Acting || self.stage == Stage::EndOfRound)
            && self.attacks.len() < MAX_ATTACK_COUNT && self.players[d].card_idxs.len() > 0) {
            return Err(Error::CantAttack);
        }
        if cards.len() > MAX_ATTACK_COUNT - self.attacks.len() {
            return Err(Error::NoAttackSpace(MAX_ATTACK_COUNT - self.attacks.len(), cards.len()));
        }
        if !co && !(self.attacks.len() == 0 || self.all_valid_attack_cards(&cards)) {
            return Err(Error::NotValidAttackCard);
        }
        if co && self.any_valid_attack_card(&cards) {
            return Err(Error::NotValidAttackCard);
        }
        let a = self.find_role(role)?;
        proof { self.lemma_first_holder(a as int, role); }
        if self.players[a].addr != *sender {
            return Err(if co { Error::PlayerIsNotCoAttacker } else { Error::PlayerIsNotAttacker });
        }
        let idxs = self.take_cards(a, &cards)?;
        let ghost old_attacks = self.attacks@;
        let ghost taken_players = self.players;
        let mut i: usize = 0;
        while i < idxs.len()
            invariant
                i <= idxs@.len(),
                self.attacks@ == old_attacks + Seq::new(i as nat, |q: int| Attack::ConfirmOpen { open_idx: idxs@[q] }),
                self.players == taken_players,
                self.stage == old(self).stage,
                self.deck_offset == old(self).deck_offset,
                self.num_of_finished == old(self).num_of_finished,
                self.num_of_players == old(self).num_of_players,
                self.trump == old(self).trump,
                self.random_id == old(self).random_id,
                self.bet_amount == old(self).bet_amount,
                old(self).inv(),
            decreases idxs@.len() - i,
        {
            self.attacks.push(Attack::new(idxs[i]));
            assert(self.attacks@ =~= old_attacks + Seq::new((i + 1) as nat, |q: int| Attack::ConfirmOpen { open_idx: idxs@[q] }));
            i = i + 1;
        }
        assert(self.attacks@ =~= old_attacks + open_entries(idxs@));
        let ghost m = *self;
        proof {
            assert(put_into(*old(self), m, role, card_slots(cards@)));
            if unrevealed(card_slots(cards@), old(effect).revealed@).len() == 0 && resume_ok(*old(self), old(effect).revealed@) {
                crate::rules::lemma_put_resume_ok(*old(self), m, role, card_slots(cards@), old(effect).revealed@);
            }
        }
        self.reveal_cards_or_update_attacks(idxs, effect)
    }


    /// The Defender covers entry `target` with `card`.
    fn defend(&mut self, effect: &mut Effects, sender: &String, card: Card, target: u8) -> (r: Result<(), Error>)
        requires
            old(self).inv(),
        ensures
            old(self).attacks@.len() <= MAX_ATTACK_COUNT ==> final(self).attacks@.len() <= MAX_ATTACK_COUNT,
            r is Err && !old(effect).revealed@.contains_key(card.idx) ==> *final(self) == *old(self) && final(effect).commands == old(effect).commands,
            final(self).inv(),
            fx_extends(*old(effect), *final(effect)),
            defend_check(*old(self), sender@, card, target) is Some ==> r == Err::<(), Error>(
                defend_check(*old(self), sender@, card, target)->0) && *final(self) == *old(self)
                && final(effect).commands == old(effect).commands,
            r is Ok ==> defend_check(*old(self), sender@, card, target) is None,
            defend_check(*old(self), sender@, card, target) is None && !old(effect).revealed@.contains_key(card.idx)
                ==> r is Ok,
            defend_check(*old(self), sender@, card, target) is None && old(effect).revealed@.contains_key(card.idx)
                && old(effect).revealed@[card.idx]@ == card.value@ && resume_ok(*old(self), old(effect).revealed@)
                ==> r is Ok,
            r is Ok && old(effect).revealed@.contains_key(card.idx) ==> exists|m: Durak, a1: Seq<Attack>,
                p2: Seq<Player>, n2: usize| defended_into(*old(self), m, card.idx, target as int)
                && resumed(m, *final(self), old(effect).commands@, final(effect).commands@, old(effect).timestamp,
                    old(effect).revealed@, a1, p2, n2),
            r is Ok && !old(effect).revealed@.contains_key(card.idx) ==> {
                &&& reveal_requested(old(effect).commands@, final(effect).commands@, old(self).random_id,
                    seq![card.idx], old(effect).revealed@)
                &&& hand_gave(old(self).players@, final(self).players@,
                    first_holder(old(self).players@, Role::Defender), seq![card.idx])
                &&& final(self).deck_offset == old(self).deck_offset
                &&& final(self).attacks@.len() == old(self).attacks@.len()
                &&& forall|i: int| 0 <= i < old(self).attacks@.len() && i != target as int
                    ==> #[trigger] final(self).attacks@[i] == old(self).attacks@[i]
                &&& (final(self).attacks@[target as int] matches Attack::ConfirmClose { open, close_idx }
                    && open.idx == old(self).attacks@[target as int]->Open_open.idx
                    && open.value@ == old(self).attacks@[target as int]->Open_open.value@
                    && close_idx == card.idx)
            },
            final(self).num_of_players == old(self).num_of_players,
            final(self).trump == old(self).trump,
            final(self).random_id == old(self).random_id,
    {
        proof { lemma_fx_refl(*effect); }
        if !self.can_defend()? {
            return Err(Error::CantDefend);
        }
        let d = self.find_role(Role::Defender)?;
        proof { self.lemma_first_holder(d as int, Role::Defender); }
        if self.players[d].addr != *sender {
            return Err(Error::PlayerIsNotDefender);
        }
        if !self.hand_has(d, card.idx) {
            return Err(Error::InvalidCardIndex(card.idx));
        }
        let a = self.get_attack(target)?;
        let trump = self.get_trump()?;
        if !a.can_be_closed_by(&card, trump)? {
            return Err(Error::InvalidDefendCard);
        }
        let cards: Vec<Card> = vec![card.duplicate()];
        let idxs = self.take_cards(d, &cards)?;
        assert(card_slots(cards@) =~= seq![card.idx]);
        let ghost before = self.attacks@;
        let ti = target as usize;
        let _ = self.attacks[ti].close(&card);
        let reveal: Vec<usize> = vec![card.idx];
        assert(reveal@ =~= seq![card.idx]);
        assert(reveal@.drop_last().len() == 0);
        let ghost m = *self;
        proof {
            assert(unrevealed(reveal@.drop_last(), old(effect).revealed@) =~= Seq::<usize>::empty());
            assert(defended_into(*old(self), m, card.idx, target as int));
            if old(effect).revealed@.contains_key(card.idx) && old(effect).revealed@[card.idx]@ == card.value@
                && resume_ok(*old(self), old(effect).revealed@) {
                crate::rules::lemma_defend_resume_ok(*old(self), m, card, target as int, old(effect).revealed@);
            }
        }
        self.reveal_cards_or_update_attacks(reveal, effect)
    }

    /// The Defender passes the attack on with a card of the kind on the
    /// table; the roles rotate as after a failed defense.
    fn forward(&mut self, effect: &mut Effects, sender: &String, card: Card) -> (r: Result<(), Error>)
        requires
            old(self).inv(),
        ensures
            old(self).attacks@.len() <= MAX_ATTACK_COUNT ==> final(self).attacks@.len() <= MAX_ATTACK_COUNT,
            r is Err && !old(effect).revealed@.contains_key(card.idx) ==> *final(self) == *old(self) && final(effect).commands == old(effect).commands,
            final(self).inv(),
            fx_extends(*old(effect), *final(effect)),
            forward_check(*old(self), sender@, card) is Some ==> r == Err::<(), Error>(
                forward_check(*old(self), sender@, card)->0) && *final(self) == *old(self)
                && final(effect).commands == old(effect).commands,
            r is Ok ==> forward_check(*old(self), sender@, card) is None,
            forward_check(*old(self), sender@, card) is None && !old(effect).revealed@.contains_key(card.idx)
                ==> r is Ok,
            forward_check(*old(self), sender@, card) is None && old(effect).revealed@.contains_key(card.idx)
                && resume_ok(*old(self), old(effect).revealed@)
                && (exists|i: int, j: int| i != j && unfinished(old(self).players@, i) && unfinished(old(self).players@, j))
                ==> r is Ok,
            r is Ok && old(effect).revealed@.contains_key(card.idx) ==> exists|m: Durak, a1: Seq<Attack>,
                p2: Seq<Player>, n2: usize| forwarded_into(*old(self), m, card.idx)
                && resumed(m, *final(self), old(effect).commands@, final(effect).commands@, old(effect).timestamp,
                    old(effect).revealed@, a1, p2, n2),
            r is Ok && !old(effect).revealed@.contains_key(card.idx) ==> {
                &&& final(self).attacks@ == old(self).attacks@.push(Attack::ConfirmOpen { open_idx: card.idx })
                &&& final(self).deck_offset == old(self).deck_offset
                &&& exists|mid: Seq<Player>, h: int, o: Seq<usize>| {
                    &&& hand_gave(old(self).players@, mid, first_holder(old(self).players@, Role::Defender), seq![card.idx])
                    &&& holds_role(mid, h, Role::Defender)
                    &&& is_key_order(acting_keys(mid, h), o)
                    &&& roles_assigned(mid, final(self).players@, unranked_of(mid, o))
                }
                &&& reveal_requested(old(effect).commands@, final(effect).commands@, old(self).random_id,
                    seq![card.idx], old(effect).revealed@)
            },
            final(self).num_of_players == old(self).num_of_players,
            final(self).trump == old(self).trump,
            final(self).random_id == old(self).random_id,
    {
        proof { lemma_fx_refl(*effect); }
        if !self.is_forwardable() || self.attacks.len() >= MAX_ATTACK_COUNT {
            return Err(Error::CantForward);
        }
        if !self.is_valid_attack_card(&card) {
            return Err(Error::InvalidForwardCard);
        }
        let d = self.find_role(Role::Defender)?;
        proof { self.lemma_first_holder(d as int, Role::Defender); }
        if self.players[d].addr != *sender {
            return Err(Error::PlayerIsNotDefender);
        }
        if !self.hand_has(d, card.idx) {
            return Err(Error::InvalidCardIndex(card.idx));
        }
        let cards: Vec<Card> = vec![card.duplicate()];
        let idxs = self.take_cards(d, &cards)?;
        assert(card_slots(cards@) =~= seq![card.idx]);
        let ghost mid = self.players@;
        self.attacks.push(Attack::new(card.idx));
        assert(holds_role(mid, d as int, Role::Defender));
        self.rotate_roles(false)?;
        proof {
            let (h, o) = choose|h: int, o: Seq<usize>|
                holds_role(mid, h, Role::Defender)
                && is_key_order(acting_keys(mid, h), o)
                && roles_assigned(mid, self.players@, unranked_of(mid, o));
            assert(holds_role(mid, h, Role::Defender));
        }
        let reveal: Vec<usize> = vec![card.idx];
        assert(reveal@ =~= seq![card.idx]);
        assert(reveal@.drop_last().len() == 0);
        let ghost m = *self;
        assert(unrevealed(reveal@.drop_last(), old(effect).revealed@) =~= Seq::<usize>::empty());
        assert(forwarded_into(*old(self), m, card.idx));
        proof {
            if old(effect).revealed@.contains_key(card.idx) && resume_ok(*old(self), old(effect).revealed@)
                && (exists|i: int, j: int| i != j && unfinished(old(self).players@, i) && unfinished(old(self).players@, j)) {
                crate::laws::lemma_forward_resume_ok(*old(self), m, card.idx, old(effect).revealed@);
            }
        }
        self.reveal_cards_or_update_attacks(reveal, effect)
    }

    /// The Defender gives up: with room on the table the attackers get a
    /// short window to add cards, else the round ends and the Defender
    /// collects the cards.
    fn take(&mut self, effect: &mut Effects, sender: &String) -> (r: Result<(), Error>)
        requires
            old(self).inv(),
        ensures
            final(self).attacks@.len() <= old(self).attacks@.len(),
            r is Err ==> *final(self) == *old(self) && final(effect).commands == old(effect).commands,
            final(self).inv(),
            fx_extends(*old(effect), *final(effect)),
            concede_check(*old(self), sender@, Role::Defender) is Some ==> r == Err::<(), Error>(
                concede_check(*old(self), sender@, Role::Defender)->0) && *final(self) == *old(self)
                && final(effect).commands == old(effect).commands,
            concede_check(*old(self), sender@, Role::Defender) is None && old(self).attacks@.len() < MAX_ATTACK_COUNT
                ==> r is Ok && final(self).stage == Stage::EndOfRound
                    && final(self).players == old(self).players && final(self).attacks == old(self).attacks
                    && final(self).deck_offset == old(self).deck_offset
                    && final(effect).commands@ == old(effect).commands@.push(Command::ActionTimeout {
                        addr: old(self).players@[first_holder(old(self).players@, Role::Defender)].addr,
                        timeout: END_OF_ROUND_TIMEOUT_MS })
                    && final(self).timeout == deadline_spec(old(effect).timestamp, END_OF_ROUND_TIMEOUT_MS),
            concede_check(*old(self), sender@, Role::Defender) is None && old(self).attacks@.len() >= MAX_ATTACK_COUNT ==> {
                &&& r is Ok <==> old(self).stage == Stage::EndOfGame || round_can_end(old(self).players@)
                &&& r is Ok && old(self).stage != Stage::EndOfGame ==> final(self).attacks@.len() == 0
                    && exists|d: int, mid: Seq<Player>, dealt_p: Seq<Player>| round_ended(old(self).players@,
                        old(self).attacks@, old(self).deck_offset, final(self).deck_offset, final(self).stage,
                        final(self).players@, true, d, mid, dealt_p)
            },
            final(self).num_of_players == old(self).num_of_players,
            final(self).trump == old(self).trump,
            final(self).random_id == old(self).random_id,
    {
        proof { lemma_fx_refl(*effect); }
        let d = self.find_role(Role::Defender)?;
        proof { self.lemma_first_holder(d as int, Role::Defender); }
        if self.players[d].addr != *sender {
            return Err(Error::PlayerIsNotDefender);
        }
        if !self.is_all_attacks_confirmed() {
            return Err(Error::UnconfirmedCard);
        }
        if self.attacks.len() < MAX_ATTACK_COUNT {
            let addr = self.players[d].addr.clone();
            let ghost c0 = effect.commands@;
            effect.commands.push(Command::ActionTimeout { addr, timeout: END_OF_ROUND_TIMEOUT_MS });
            proof { lemma_push_extends(c0, effect.commands@.last(), c0); }
            self.timeout = deadline(effect.timestamp, END_OF_ROUND_TIMEOUT_MS);
            self.stage = Stage::EndOfRound;
            Ok(())
        } else {
            self.end_round(true, effect)
        }
    }

    /// The Attacker declares the table beaten: the round ends and the cards
    /// are discarded.
    fn beated(&mut self, effect: &mut Effects, sender: &String) -> (r: Result<(), Error>)
        requires
            old(self).inv(),
        ensures
            final(self).attacks@.len() <= old(self).attacks@.len(),
            r is Err ==> *final(self) == *old(self) && final(effect).commands == old(effect).commands,
            final(self).inv(),
            fx_extends(*old(effect), *final(effect)),
            concede_check(*old(self), sender@, Role::Attacker) is Some ==> r == Err::<(), Error>(
                concede_check(*old(self), sender@, Role::Attacker)->0) && *final(self) == *old(self)
                && final(effect).commands == old(effect).commands,
            concede_check(*old(self), sender@, Role::Attacker) is None ==> {
                &&& r is Ok <==> old(self).stage == Stage::EndOfGame || round_can_end(old(self).players@)
                &&& r is Ok && old(self).stage != Stage::EndOfGame ==> final(self).attacks@.len() == 0
                    && exists|d: int, mid: Seq<Player>, dealt_p: Seq<Player>| round_ended(old(self).players@,
                        old(self).attacks@, old(self).deck_offset, final(self).deck_offset, final(self).stage,
                        final(self).players@, false, d, mid, dealt_p)
            },
            final(self).num_of_players == old(self).num_of_players,
            final(self).trump == old(self).trump,
            final(self).random_id == old(self).random_id,
    {
        proof { lemma_fx_refl(*effect); }
        let a = self.find_role(Role::Attacker)?;
        proof { self.lemma_first_holder(a as int, Role::Attacker); }
        if self.players[a].addr != *sender {
            return Err(Error::PlayerIsNotAttacker);
        }
        if !self.is_all_attacks_confirmed() {
            return Err(Error::UnconfirmedCard);
        }
        self.end_round(false, effect)
    }

    /// Validates and applies a player's action. A rejected action changes nothing.
    pub fn handle_action(&mut self, effect: &mut Effects, sender: String, action: Action) -> (r: Result<(), Error>)
        requires
            old(self).inv(),
        ensures
            old(self).attacks@.len() <= MAX_ATTACK_COUNT ==> final(self).attacks@.len() <= MAX_ATTACK_COUNT,
            r is Err && action_pending(action, old(effect).revealed@) ==> *final(self) == *old(self) && final(effect).commands == old(effect).commands,
            final(self).inv(),
            fx_extends(*old(effect), *final(effect)),
            action_check(*old(self), sender@, action) is Some ==> r == Err::<(), Error>(
                action_check(*old(self), sender@, action)->0) && *final(self) == *old(self)
                && final(effect).commands == old(effect).commands,
            action_ok(*old(self), sender@, action, old(effect).revealed@) ==> r is Ok,
            r is Ok ==> action_check(*old(self), sender@, action) is None && action_done(*old(self), *final(self),
                old(effect).commands@, final(effect).commands@, old(effect).timestamp, old(effect).revealed@, action),
            r is Ok && moves_without_discard(*old(self), action, old(effect).revealed@) ==> placed_ms(final(self).players@,
                final(self).attacks@, final(self).deck_offset as int)
                == placed_ms(old(self).players@, old(self).attacks@, old(self).deck_offset as int),
            final(self).num_of_players == old(self).num_of_players,
            final(self).trump == old(self).trump,
            final(self).random_id == old(self).random_id,
    {
        let ghost s0 = *self;
        let ghost rev = effect.revealed@;
        let ghost a0 = action;
        let r = match action {
            Action::Attack { cards } => self.put_cards(effect, &sender, cards, false),
            Action::CoAttack { cards } => self.put_cards(effect, &sender, cards, true),
            Action::Defend { card, target } => self.defend(effect, &sender, card, target),
            Action::Forward { card } => self.forward(effect, &sender, card),
            Action::Take => self.take(effect, &sender),
            Action::Beated => self.beated(effect, &sender),
        };
        proof {
            if r is Ok && moves_without_discard(s0, a0, rev) {
                let off = s0.deck_offset as int;
                match a0 {
                    Action::Attack { cards } => {
                        crate::laws::lemma_put_cards_placement(s0.players@, self.players@,
                            first_holder(s0.players@, Role::Attacker), card_slots(cards@), s0.attacks@, self.attacks@, off);
                    },
                    Action::CoAttack { cards } => {
                        crate::laws::lemma_put_cards_placement(s0.players@, self.players@,
                            first_holder(s0.players@, Role::CoAttacker), card_slots(cards@), s0.attacks@, self.attacks@, off);
                    },
                    Action::Defend { card, target } => {
                        crate::laws::lemma_defend_placement(s0.players@, self.players@,
                            first_holder(s0.players@, Role::Defender), card.idx, s0.attacks@, self.attacks@, target as int, off);
                    },
                    Action::Forward { card } => {
                        let (mid, h, o) = choose|mid: Seq<Player>, h: int, o: Seq<usize>| {
                            &&& hand_gave(s0.players@, mid, first_holder(s0.players@, Role::Defender), seq![card.idx])
                            &&& holds_role(mid, h, Role::Defender)
                            &&& is_key_order(acting_keys(mid, h), o)
                            &&& roles_assigned(mid, self.players@, unranked_of(mid, o))
                        };
                        crate::laws::lemma_forward_placement(s0.players@, mid, self.players@,
                            first_holder(s0.players@, Role::Defender), card.idx, s0.attacks@, self.attacks@, off);
                    },
                    Action::Take => {
                        if s0.attacks@.len() < MAX_ATTACK_COUNT {
                            assert(self.players == s0.players && self.attacks == s0.attacks);
                        } else {
                            let (d, mid, dealt_p) = choose|d: int, mid: Seq<Player>, dealt_p: Seq<Player>| round_ended(
                                s0.players@, s0.attacks@, s0.deck_offset, self.deck_offset, self.stage, self.players@,
                                true, d, mid, dealt_p);
                            crate::laws::lemma_round_end_placement(s0.players@, s0.attacks@, s0.deck_offset,
                                self.deck_offset, self.stage, self.players@, d, mid, dealt_p);
                            assert(self.attacks@ =~= Seq::<Attack>::empty());
                        }
                    },
                    Action::Beated => {},
                }
            }
        }
        r
    }


    /// Index of the player with address `addr`, if any.
    pub fn find_player(&self, addr: &String) -> (r: Option<usize>)
        ensures
            r is Some ==> r->0 < self.players@.len() && self.players@[r->0 as int].addr@ == addr@
                && forall|j: int| 0 <= j < r->0 ==> self.players@[j].addr@ != addr@,
            r is None ==> forall|j: int| 0 <= j < self.players@.len() ==> self.players@[j].addr@ != addr@,
    {
        let mut i: usize = 0;
        while i < self.players.len()
            invariant
                i <= self.players@.len(),
                forall|j: int| 0 <= j < i ==> self.players@[j].addr@ != addr@,
            decreases self.players@.len() - i,
        {
            if self.players[i].addr == *addr {
                return Some(i);
            }
            i = i + 1;
        }
        None
    }

    /// Seats a joining player; a known address is seated afresh.
    pub fn add_player(&mut self, addr: String, position: u16)
        requires
            old(self).inv(),
        ensures
            final(self).inv(),
            exists|i: int| 0 <= i < final(self).players@.len() && final(self).players@[i].addr@ == addr@
                && final(self).players@[i].position == position && final(self).players@[i].card_idxs@.len() == 0
                && final(self).players@[i].role is None && final(self).players@[i].rank is None
                && (i < old(self).players@.len() ==> old(self).players@[i].addr@ == addr@)
                && forall|j: int| 0 <= j < final(self).players@.len() && j != i ==> #[trigger] final(self).players@[j]
                    == old(self).players@[if j < old(self).players@.len() { j } else { 0 }],
            final(self).players@.len() == old(self).players@.len()
                || final(self).players@.len() == old(self).players@.len() + 1,
            final(self).stage == old(self).stage,
            final(self).attacks == old(self).attacks,
            final(self).deck_offset == old(self).deck_offset,
            final(self).num_of_finished == old(self).num_of_finished,
            final(self).num_of_players == old(self).num_of_players,
            final(self).trump == old(self).trump,
            final(self).random_id == old(self).random_id,
    {
        match self.find_player(&addr) {
            Some(i) => {
                self.players.set(i, Player::new(addr, position));
                assert(self.players@[i as int].addr@ == addr@);
            },
            None => {
                self.players.push(Player::new(addr, position));
                assert(self.players@[old(self).players@.len() as int].addr@ == addr@);
            },
        }
    }

    /// Seats each joining player in turn.
    pub fn add_players(&mut self, new_players: &Vec<NewPlayer>)
        requires
            old(self).inv(),
        ensures
            final(self).inv(),
            final(self).stage == old(self).stage,
            final(self).num_of_players == old(self).num_of_players,
            final(self).trump == old(self).trump,
            forall|q: int| 0 <= q < new_players@.len() ==> #[trigger] seated(final(self).players@, new_players@[q].addr@),
    {
        let mut i: usize = 0;
        while i < new_players.len()
            invariant
                i <= new_players@.len(),
                self.inv(),
                self.stage == old(self).stage,
                self.num_of_players == old(self).num_of_players,
                self.trump == old(self).trump,
                forall|q: int| 0 <= q < i ==> #[trigger] seated(self.players@, new_players@[q].addr@),
            decreases new_players@.len() - i,
        {
            let addr = new_players[i].addr.clone();
            let ghost before = self.players@;
            self.add_player(addr, new_players[i].position);
            proof {
                let k = choose|k: int| 0 <= k < self.players@.len() && self.players@[k].addr@ == addr@
                    && (k < before.len() ==> before[k].addr@ == addr@)
                    && forall|j: int| 0 <= j < self.players@.len() && j != k ==> #[trigger] self.players@[j]
                        == before[if j < before.len() { j } else { 0 }];
                assert forall|q: int| 0 <= q < i + 1 implies #[trigger] seated(self.players@, new_players@[q].addr@) by {
                    if q < i {
                        assert(seated(before, new_players@[q].addr@));
                        let j = choose|j: int| 0 <= j < before.len() && before[j].addr@ == new_players@[q].addr@;
                        if j != k {
                            assert(self.players@[j] == before[j]);
                        } else {
                            assert(self.players@[k].addr@ == new_players@[q].addr@);
                        }
                    } else {
                        assert(self.players@[k].addr@ == new_players@[q].addr@);
                    }
                }
            }
            i = i + 1;
        }
    }

    /// At most four players, each in seats 0 to 3.
    fn seats_in_range(&self) -> (r: bool)
        ensures
            r == seats_ok(self.players@),
    {
        if self.players.len() > MAX_NUM_OF_PLAYERS {
            return false;
        }
        let mut i: usize = 0;
        while i < self.players.len()
            invariant
                i <= self.players@.len(),
                forall|j: int| 0 <= j < i ==> (#[trigger] self.players@[j]).position < MAX_NUM_OF_PLAYERS,
            decreases self.players@.len() - i,
        {
            if self.players[i].position as usize >= MAX_NUM_OF_PLAYERS {
                return false;
            }
            i = i + 1;
        }
        true
    }

    /// Starts the game once the roster is full, while waiting for players,
    /// if the roster fits the table: at most four seats, numbered 0 to 3.
    pub fn try_start_game(&mut self, effect: &mut Effects)
        ensures
            old(self).stage == Stage::Waiting && old(self).players@.len() == old(self).num_of_players
                && seats_ok(old(self).players@) ==> final(self).stage == Stage::Shuffling
                    && final(effect).commands@ == old(effect).commands@.push(Command::StartGame),
            !(old(self).stage == Stage::Waiting && old(self).players@.len() == old(self).num_of_players
                && seats_ok(old(self).players@))
                ==> final(self).stage == old(self).stage && final(effect).commands == old(effect).commands,
            fx_extends(*old(effect), *final(effect)),
            final(self).players == old(self).players,
            final(self).attacks == old(self).attacks,
            final(self).deck_offset == old(self).deck_offset,
            final(self).num_of_finished == old(self).num_of_finished,
            final(self).num_of_players == old(self).num_of_players,
            final(self).trump == old(self).trump,
            final(self).random_id == old(self).random_id,
    {
        proof { lemma_fx_refl(*effect); }
        if self.stage == Stage::Waiting && self.players.len() == self.num_of_players && self.seats_in_range() {
            let ghost c0 = effect.commands@;
            effect.commands.push(Command::StartGame);
            proof { lemma_push_extends(c0, Command::StartGame, c0); }
            self.stage = Stage::Shuffling;
        }
    }

    /// Clears the session back to Waiting and reopens it for joining.
    pub fn reset(&mut self, effect: &mut Effects)
        ensures
            final(self).inv(),
            final(self).stage == Stage::Waiting,
            final(self).random_id == 0,
            final(self).deck_offset == 0,
            final(self).players@.len() == 0,
            final(self).attacks@.len() == 0,
            final(self).trump is None,
            final(self).num_of_finished == 0,
            final(self).timeout == 0,
            final(self).num_of_players == old(self).num_of_players,
            final(self).bet_amount == old(self).bet_amount,
            final(effect).commands@ == old(effect).commands@.push(Command::AllowExit { allow: true }),
            fx_extends(*old(effect), *final(effect)),
    {
        self.random_id = 0;
        self.deck_offset = 0;
        self.stage = Stage::Waiting;
        self.players.clear();
        self.attacks.clear();
        self.trump = None;
        self.num_of_finished = 0;
        self.timeout = 0;
        let ghost c0 = effect.commands@;
        effect.commands.push(Command::AllowExit { allow: true });
        proof {
            assert(c0.subrange(0, c0.len() as int) =~= c0);
            lemma_push_extends(c0, Command::AllowExit { allow: true }, c0);
        }
    }

    /// Handles one event from the host.
    #[verifier::rlimit(50)]
    pub fn handle_event(&mut self, effect: &mut Effects, event: Event) -> (r: Result<(), Error>)
        requires
            old(self).inv(),
        ensures
            final(self).inv(),
            fx_extends(*old(effect), *final(effect)),
            match event {
                Event::Custom { sender, action } => {
                    &&& action_check(*old(self), sender@, action) is Some
                        ==> r == Err::<(), Error>(action_check(*old(self), sender@, action)->0) && *final(self) == *old(self)
                            && final(effect).commands == old(effect).commands
                    &&& action_ok(*old(self), sender@, action, old(effect).revealed@) ==> r is Ok
                    &&& r is Ok ==> action_done(*old(self), *final(self), old(effect).commands@, final(effect).commands@,
                        old(effect).timestamp, old(effect).revealed@, action)
                    &&& r is Err && action_pending(action, old(effect).revealed@) ==> *final(self) == *old(self)
                        && final(effect).commands == old(effect).commands
                    &&& old(self).attacks@.len() <= MAX_ATTACK_COUNT ==> final(self).attacks@.len() <= MAX_ATTACK_COUNT
                    &&& r is Ok && moves_without_discard(*old(self), action, old(effect).revealed@) ==> placed_ms(
                        final(self).players@, final(self).attacks@, final(self).deck_offset as int)
                        == placed_ms(old(self).players@, old(self).attacks@, old(self).deck_offset as int)
                },
                Event::GameStart { random_id } => {
                    &&& old(self).stage != Stage::Shuffling ==> r == Err::<(), Error>(Error::InvalidStage(old(self).stage))
                        && *final(self) == *old(self) && final(effect).commands == old(effect).commands
                    &&& old(self).stage == Stage::Shuffling ==> r is Ok && final(self).random_id == random_id
                        && final(self).stage == old(self).stage
                        && final(effect).commands@ == old(effect).commands@.push(Command::AllowExit { allow: false })
                },
                Event::RandomnessReady => (old(self).stage != Stage::Shuffling ==> r == Err::<(), Error>(
                    Error::InvalidStage(old(self).stage)) && *final(self) == *old(self)
                    && final(effect).commands == old(effect).commands) && (old(self).stage == Stage::Shuffling ==> {
                    &&& r is Ok && final(self).stage == Stage::RevealingTrump
                    &&& exists|o: Seq<usize>| is_key_order(
                        Seq::new(old(self).players@.len(), |i: int| old(self).players@[i].position as u32), o)
                        && roles_assigned(old(self).players@, final(self).players@, o)
                    &&& final(effect).commands@.len() == old(effect).commands@.len() + 1
                    &&& (final(effect).commands@.last() matches Command::Reveal { random_id, idxs }
                        && random_id == old(self).random_id && idxs@ == seq![TRUMP_IDX])
                    &&& old(self).players@.len() <= MAX_NUM_OF_PLAYERS ==> roles_unique(final(self).players@)
                }),
                Event::SecretsReady => {
                    &&& old(self).stage == Stage::RevealingTrump && old(self).trump is None
                        && !old(effect).revealed@.contains_key(TRUMP_IDX) ==> r == Err::<(), Error>(Error::TrumpNotRevealed)
                    &&& old(self).stage == Stage::RevealingTrump && old(self).trump is Some
                        ==> r == Err::<(), Error>(Error::InvalidStage(old(self).stage)) && *final(self) == *old(self)
                            && final(effect).commands == old(effect).commands
                    &&& old(self).stage == Stage::RevealingTrump && old(self).trump is None
                        && old(effect).revealed@.contains_key(TRUMP_IDX)
                        && has_role(old(self).players@, Role::Attacker) ==> r is Ok
                    &&& old(self).stage == Stage::RevealingTrump && r is Ok ==> final(self).stage == Stage::Dealing
                        && final(self).trump is Some && final(self).trump->0.value@ == old(effect).revealed@[TRUMP_IDX]@
                        && final(self).trump->0.idx == TRUMP_IDX
                        && old(self).deck_offset <= final(self).deck_offset
                        && (exists|starts: Seq<int>| dealt(old(self).players@, final(self).players@,
                            old(self).deck_offset as int, final(self).deck_offset as int, starts))
                        && (final(self).deck_offset < TRUMP_IDX ==> hands_full(final(self).players@))
                        && hands_ms(final(self).players@) == hands_ms(old(self).players@).add(
                            slot_range(old(self).deck_offset as int, final(self).deck_offset as int).to_multiset())
                    &&& old(self).stage == Stage::Dealing ==> (r is Ok <==> timer_can_arm(old(self).players@,
                        old(self).attacks@, Stage::Acting))
                    &&& old(self).stage == Stage::Dealing && r is Ok && old(self).attacks@.len() == 0
                        ==> final(self).stage == Stage::Acting && final(self).players == old(self).players
                            && exists|p: int| is_first_holder(old(self).players@, p, awaited_role(Stage::Acting, old(self).attacks@).0)
                                && final(effect).commands@ == old(effect).commands@.push(Command::ActionTimeout {
                                    addr: old(self).players@[p].addr, timeout: awaited_role(Stage::Acting, old(self).attacks@).1 })
                    &&& (old(self).stage == Stage::Acting || old(self).stage == Stage::EndOfRound) && r is Ok
                        ==> all_confirmed(final(self).attacks@)
                    &&& (old(self).stage == Stage::Acting || old(self).stage == Stage::EndOfRound)
                        && resume_ok(*old(self), old(effect).revealed@) ==> r is Ok
                    &&& (old(self).stage == Stage::Acting || old(self).stage == Stage::EndOfRound) && r is Ok
                        ==> exists|a1: Seq<Attack>, p2: Seq<Player>, n2: usize| resumed(*old(self), *final(self),
                            old(effect).commands@, final(effect).commands@, old(effect).timestamp, old(effect).revealed@, a1, p2, n2)
                    &&& !(old(self).stage == Stage::RevealingTrump || old(self).stage == Stage::Dealing
                        || old(self).stage == Stage::Acting || old(self).stage == Stage::EndOfRound)
                        ==> r == Err::<(), Error>(Error::InvalidStage(old(self).stage)) && *final(self) == *old(self)
                            && final(effect).commands == old(effect).commands
                },
                Event::ActionTimeout => {
                    let succeed = timeout_succeed(*old(self));
                    &&& !(old(self).stage == Stage::Acting || old(self).stage == Stage::EndOfRound)
                        ==> r == Err::<(), Error>(Error::InvalidStage(old(self).stage)) && *final(self) == *old(self)
                            && final(effect).commands == old(effect).commands
                    &&& old(self).stage == Stage::Acting && succeed && old(self).attacks@.len() < MAX_ATTACK_COUNT ==> {
                        &&& r is Ok <==> has_role(old(self).players@, Role::Attacker)
                        &&& r is Ok ==> final(self).stage == Stage::EndOfRound
                            && final(self).players == old(self).players && final(self).attacks == old(self).attacks
                            && exists|a: int| is_first_holder(old(self).players@, a, Role::Attacker)
                                && final(effect).commands@ == old(effect).commands@.push(Command::ActionTimeout {
                                    addr: old(self).players@[a].addr, timeout: END_OF_ROUND_TIMEOUT_MS })
                    }
                    &&& old(self).stage == Stage::EndOfRound || (old(self).stage == Stage::Acting
                        && !(succeed && old(self).attacks@.len() < MAX_ATTACK_COUNT)) ==> {
                        &&& r is Ok <==> round_can_end(old(self).players@)
                        &&& r is Err ==> *final(self) == *old(self) && final(effect).commands == old(effect).commands
                        &&& r is Ok ==> final(self).attacks@.len() == 0
                            && exists|d: int, mid: Seq<Player>, dealt_p: Seq<Player>| round_ended(old(self).players@,
                                old(self).attacks@, old(self).deck_offset, final(self).deck_offset, final(self).stage,
                                final(self).players@, succeed, d, mid, dealt_p)
                        &&& r is Ok && old(self).players@.len() <= MAX_NUM_OF_PLAYERS ==> roles_unique(final(self).players@)
                    }
                },
                Event::WaitingTimeout => r is Ok && final(self).stage == Stage::Waiting && final(self).players@.len() == 0,
                Event::Other => r is Ok && *final(self) == *old(self) && final(effect).commands == old(effect).commands,
                Event::Ready => r is Ok && (old(self).stage == Stage::Waiting
                    && old(self).players@.len() == old(self).num_of_players && seats_ok(old(self).players@)
                    ==> final(self).stage == Stage::Shuffling
                        && final(effect).commands@ == old(effect).commands@.push(Command::StartGame)),
                Event::Leave { player_addr } => (old(self).stage != Stage::Waiting ==> r == Err::<(), Error>(
                    Error::InvalidStage(old(self).stage)) && *final(self) == *old(self)
                    && final(effect).commands == old(effect).commands) && (old(self).stage == Stage::Waiting ==> r is Ok
                    && (forall|j: int| 0 <= j < final(self).players@.len() ==> (#[trigger] final(self).players@[j]).addr@ != player_addr@
                        || exists|k: int| 0 <= k < old(self).players@.len() && k != j && old(self).players@[k].addr@ == player_addr@)
                    && final(effect).commands@ == old(effect).commands@
                        + seq![Command::SettleEject { addr: player_addr }, Command::Checkpoint]),
                Event::Sync { new_players } => (old(self).stage != Stage::Waiting ==> r == Err::<(), Error>(
                    Error::InvalidStage(old(self).stage)) && *final(self) == *old(self)
                    && final(effect).commands == old(effect).commands) && (old(self).stage == Stage::Waiting ==> r is Ok
                    && forall|q: int| 0 <= q < new_players@.len()
                    ==> #[trigger] seated(final(self).players@, new_players@[q].addr@)),
            },
            final(self).num_of_players == old(self).num_of_players,
            event is WaitingTimeout || (event is SecretsReady && old(self).stage == Stage::RevealingTrump
                && old(self).trump is None) || final(self).trump == old(self).trump,
    {
        proof { lemma_fx_refl(*effect); }
        match event {
            Event::Custom { sender, action } => self.handle_action(effect, sender, action),
            Event::Ready => {
                self.try_start_game(effect);
                Ok(())
            },
            Event::Sync { new_players } => {
                if self.stage != Stage::Waiting {
                    return Err(Error::InvalidStage(self.stage));
                }
                self.add_players(&new_players);
                let ghost e0 = *effect;
                self.try_start_game(effect);
                proof {
                    assert(effect.commands@.subrange(0, old(effect).commands@.len() as int)
                        =~= e0.commands@.subrange(0, old(effect).commands@.len() as int));
                }
                Ok(())
            },
            Event::GameStart { random_id } => {
                if self.stage != Stage::Shuffling {
                    return Err(Error::InvalidStage(self.stage));
                }
                let ghost c0 = effect.commands@;
                effect.commands.push(Command::AllowExit { allow: false });
                proof { lemma_push_extends(c0, Command::AllowExit { allow: false }, c0); }
                self.random_id = random_id;
                Ok(())
            },
            Event::RandomnessReady => {
                if self.stage != Stage::Shuffling {
                    return Err(Error::InvalidStage(self.stage));
                }
                let ghost c0 = effect.commands@;
                let _ = self.reveal_trump(effect);
                proof { lemma_push_extends(c0, effect.commands@.last(), c0); }
                let ghost p0 = self.players@;
                self.init_roles();
                proof {
                    if p0.len() <= MAX_NUM_OF_PLAYERS {
                        let o = choose|o: Seq<usize>| is_key_order(Seq::new(p0.len(), |i: int| p0[i].position as u32), o)
                            && roles_assigned(p0, self.players@, o);
                        crate::laws::lemma_initial_roles_unique(p0, self.players@, o);
                    }
                }
                Ok(())
            },
            Event::SecretsReady => {
                if self.stage == Stage::RevealingTrump {
                    if self.trump.is_some() {
                        return Err(Error::InvalidStage(self.stage));
                    }
                    self.update_trump(effect)?;
                    self.deal_cards(effect)
                } else if self.stage == Stage::Dealing {
                    self.ask_to_act(effect)
                } else if self.stage == Stage::Acting || self.stage == Stage::EndOfRound {
                    self.update_attacks(effect)
                } else {
                    Err(Error::InvalidStage(self.stage))
                }
            },
            Event::Leave { player_addr } => {
                if self.stage != Stage::Waiting {
                    return Err(Error::InvalidStage(self.stage));
                }
                let ghost before = self.players@;
                if let Some(i) = self.find_player(&player_addr) {
                    self.players.remove(i);
                    proof {
                        assert forall|j: int| 0 <= j < self.players@.len() implies (#[trigger] self.players@[j]).addr@ != player_addr@
                            || exists|k: int| 0 <= k < before.len() && k != j && before[k].addr@ == player_addr@ by {
                            if j >= i {
                                assert(self.players@[j] == before[j + 1]);
                                if self.players@[j].addr@ == player_addr@ {
                                    assert(before[j + 1].addr@ == player_addr@ && j + 1 != j);
                                }
                            } else {
                                assert(self.players@[j] == before[j]);
                            }
                        }
                    }
                }
                let ghost c0 = effect.commands@;
                effect.commands.push(Command::SettleEject { addr: player_addr });
                effect.commands.push(Command::Checkpoint);
                proof {
                    assert(effect.commands@.subrange(0, c0.len() as int) =~= c0);
                    assert(effect.commands@ =~= c0 + seq![Command::SettleEject { addr: player_addr }, Command::Checkpoint]);
                }
                Ok(())
            },
            Event::ActionTimeout => {
                let ghost s0 = *self;
                let r = if self.stage == Stage::Acting {
                    if self.attacks.len() == 0 || self.is_all_attacks_closed() {
                        self.end_round(false, effect)
                    } else {
                        self.end_round(true, effect)
                    }
                } else if self.stage == Stage::EndOfRound {
                    self.end_round(true, effect)
                } else {
                    Err(Error::InvalidStage(self.stage))
                };
                proof {
                    let succeed = timeout_succeed(s0);
                    if r is Ok && s0.players@.len() <= MAX_NUM_OF_PLAYERS && (s0.stage == Stage::EndOfRound
                        || (s0.stage == Stage::Acting && !(succeed && s0.attacks@.len() < MAX_ATTACK_COUNT))) {
                        let (d, mid, dealt_p) = choose|d: int, mid: Seq<Player>, dealt_p: Seq<Player>| round_ended(
                            s0.players@, s0.attacks@, s0.deck_offset, self.deck_offset, self.stage, self.players@,
                            succeed, d, mid, dealt_p);
                        crate::laws::lemma_round_end_roles_unique(s0.players@, s0.attacks@, s0.deck_offset,
                            self.deck_offset, self.stage, self.players@, succeed, d, mid, dealt_p);
                    }
                }
                r
            },
            Event::WaitingTimeout => {
                self.reset(effect);
                Ok(())
            },
            Event::Other => Ok(()),
        }
    }


    /// The player that holds `role`, for update.
    pub fn get_player_by_role_mut(&mut self, role: Role) -> (r: Result<&mut Player, Error>)
        ensures
            r is Ok <==> has_role(old(self).players@, role),
            r is Ok ==> exists|i: int| is_first_holder(old(self).players@, i, role)
                && *r->Ok_0 == old(self).players@[i]
                && final(self).players@ == old(self).players@.update(i, *final(r->Ok_0)),
            r is Err ==> r == Err::<&mut Player, Error>(Error::NoPlayerFoundByRole(role)) && *final(self) == *old(self),
    {
        let i = self.find_role(role)?;
        Ok(&mut self.players[i])
    }

    /// The ledger entry at `idx`, for update.
    pub fn get_attack_mut(&mut self, idx: u8) -> (r: Result<&mut Attack, Error>)
        ensures
            r is Ok <==> (idx as int) < old(self).attacks@.len(),
            r is Ok ==> *r->Ok_0 == old(self).attacks@[idx as int]
                && final(self).attacks@ == old(self).attacks@.update(idx as int, *final(r->Ok_0)),
            r is Err ==> r == Err::<&mut Attack, Error>(Error::InvalidAttackIndex(idx)) && *final(self) == *old(self),
    {
        if (idx as usize) < self.attacks.len() {
            Ok(&mut self.attacks[idx as usize])
        } else {
            Err(Error::InvalidAttackIndex(idx))
        }
    }

    /// Deck cursor within the deck, finish count within a rank's range, and
    /// one seat per address.
    pub open spec fn inv(&self) -> bool {
        &&& self.deck_offset <= TRUMP_IDX
        &&& self.num_of_finished <= 255
        &&& addrs_unique(self.players@)
    }

    /// A fresh session waiting for `num_of_players` players.
    pub fn new(num_of_players: usize, bet_amount: u64) -> (r: Durak)
        ensures
            r.inv(),
            r.stage == Stage::Waiting,
            r.num_of_players == num_of_players,
            r.bet_amount == bet_amount,
            r.players@.len() == 0,
            r.attacks@.len() == 0,
            r.trump is None,
            r.deck_offset == 0,
            r.num_of_finished == 0,
    {
        Durak {
            random_id: 0,
            deck_offset: 0,
            num_of_players,
            num_of_finished: 0,
            stage: Stage::Waiting,
            players: Vec::new(),
            attacks: Vec::new(),
            trump: None,
            bet_amount,
            timeout: 0,
            attack_space: 0,
            beated_addrs: Vec::new(),
        }
    }

    /// Initializes the roles by seat: Attacker, Defender, CoAttacker, none.
    pub fn init_roles(&mut self)
        ensures
            exists|o: Seq<usize>|
                is_key_order(Seq::new(old(self).players@.len(), |i: int| old(self).players@[i].position as u32), o)
                && roles_assigned(old(self).players@, final(self).players@, o),
            final(self).stage == old(self).stage,
            final(self).attacks == old(self).attacks,
            final(self).deck_offset == old(self).deck_offset,
            final(self).num_of_finished == old(self).num_of_finished,
            final(self).num_of_players == old(self).num_of_players,
            final(self).trump == old(self).trump,
            final(self).random_id == old(self).random_id,
            final(self).bet_amount == old(self).bet_amount,
    {
        let order = self.players_in_position_order_mut();
        proof { lemma_key_order_distinct(Seq::new(self.players@.len(), |i: int| self.players@[i].position as u32), order@); }
        self.assign_roles(&order);
    }

    /// Rotates the roles after a round, walking the seats from the Defender.
    /// After a successful defense (`attack_succeed` false) the Defender
    /// attacks next; after a failed one, the first unfinished player after
    /// the Defender. The roles then follow seat order among unfinished players.
    pub fn rotate_roles(&mut self, attack_succeed: bool) -> (r: Result<(), Error>)
        ensures
            r is Ok <==> has_role(old(self).players@, Role::Defender),
            r is Ok ==> exists|h: int, o: Seq<usize>|
                holds_role(old(self).players@, h, Role::Defender)
                && is_key_order(acting_keys(old(self).players@, h), o)
                && roles_assigned(old(self).players@, final(self).players@,
                    unranked_of(old(self).players@, rotation_order(o, attack_succeed))),
            r is Err ==> final(self).players == old(self).players,
            final(self).stage == old(self).stage,
            final(self).attacks == old(self).attacks,
            final(self).deck_offset == old(self).deck_offset,
            final(self).num_of_players == old(self).num_of_players,
            final(self).num_of_finished == old(self).num_of_finished,
            final(self).trump == old(self).trump,
            final(self).random_id == old(self).random_id,
            final(self).bet_amount == old(self).bet_amount,
            final(self).timeout == old(self).timeout,
    {
        let from_defender = self.players_in_acting_order_mut(Role::Defender)?;
        let ghost h = choose|h: int| holds_role(self.players@, h, Role::Defender) && is_key_order(
            Seq::new(self.players@.len(), |i: int| acting_key(self.players@[i].position, self.players@[h].position)),
            from_defender@,
        );
        proof {
            assert(acting_keys(self.players@, h) == Seq::new(self.players@.len(), |i: int| acting_key(self.players@[i].position, self.players@[h].position)));
            lemma_key_order_distinct(acting_keys(self.players@, h), from_defender@);
            lemma_rotation_order(from_defender@, self.players@.len() as int, attack_succeed);
        }
        let mut order: Vec<usize> = Vec::new();
        if attack_succeed && from_defender.len() > 0 {
            let mut k: usize = 1;
            while k < from_defender.len()
                invariant
                    1 <= k <= from_defender@.len(),
                    order@ == from_defender@.subrange(1, k as int),
                decreases from_defender@.len() - k,
            {
                order.push(from_defender[k]);
                k = k + 1;
            }
            order.push(from_defender[0]);
            assert(order@ =~= from_defender@.drop_first().push(from_defender@[0]));
        } else {
            let mut k: usize = 0;
            while k < from_defender.len()
                invariant
                    k <= from_defender@.len(),
                    order@ == from_defender@.subrange(0, k as int),
                decreases from_defender@.len() - k,
            {
                order.push(from_defender[k]);
                k = k + 1;
            }
            assert(order@ =~= from_defender@);
        }
        assert(order@ == rotation_order(from_defender@, attack_succeed));
        let mut unranked: Vec<usize> = Vec::new();
        let mut i: usize = 0;
        while i < order.len()
            invariant
                i <= order@.len(),
                distinct_indices(order@, self.players@.len() as int),
                unranked@ == unranked_of(self.players@, order@.take(i as int)),
                forall|a: int| 0 <= a < unranked@.len() ==> exists|b: int| 0 <= b < i && order@[b] == #[trigger] unranked@[a],
                distinct_indices(unranked@, self.players@.len() as int),
            decreases order@.len() - i,
        {
            let x = order[i];
            assert(order@.take(i + 1).drop_last() == order@.take(i as int));
            if self.players[x].rank.is_none() {
                proof {
                    assert forall|a: int| 0 <= a < unranked@.len() implies unranked@[a] != x by {
                        let b = choose|b: int| 0 <= b < i && order@[b] == unranked@[a];
                    }
                }
                unranked.push(x);
                proof {
                    assert forall|a: int| 0 <= a < unranked@.len() implies exists|b: int| 0 <= b < i + 1 && order@[b] == #[trigger] unranked@[a] by {
                        if a == unranked@.len() - 1 {
                            assert(order@[i as int] == unranked@[a]);
                        } else {
                            let b = choose|b: int| 0 <= b < i && order@[b] == unranked@[a];
                        }
                    }
                }
            }
            i = i + 1;
        }
        assert(order@.take(order@.len() as int) == order@);
        self.assign_roles(&unranked);
        Ok(())
    }

    /// Clears the roles of players that already finished.
    pub fn remove_roles_for_escaped_players(&mut self)
        ensures
            same_but_roles(old(self).players@, final(self).players@),
            forall|i: int| 0 <= i < final(self).players@.len() ==> #[trigger] final(self).players@[i].role
                == if old(self).players@[i].rank is Some { None } else { old(self).players@[i].role },
            final(self).stage == old(self).stage,
            final(self).attacks == old(self).attacks,
            final(self).deck_offset == old(self).deck_offset,
            final(self).num_of_players == old(self).num_of_players,
            final(self).num_of_finished == old(self).num_of_finished,
            final(self).trump == old(self).trump,
            final(self).random_id == old(self).random_id,
            final(self).bet_amount == old(self).bet_amount,
            final(self).timeout == old(self).timeout,
    {
        let mut i: usize = 0;
        while i < self.players.len()
            invariant
                i <= self.players@.len(),
                same_but_roles(old(self).players@, self.players@),
                forall|j: int| 0 <= j < i ==> #[trigger] self.players@[j].role
                    == if old(self).players@[j].rank is Some { None } else { old(self).players@[j].role },
                forall|j: int| i <= j < self.players@.len() ==> #[trigger] self.players@[j].role == old(self).players@[j].role,
                self.stage == old(self).stage,
                self.attacks == old(self).attacks,
                self.deck_offset == old(self).deck_offset,
                self.num_of_players == old(self).num_of_players,
                self.num_of_finished == old(self).num_of_finished,
                self.trump == old(self).trump,
                self.random_id == old(self).random_id,
                self.bet_amount == old(self).bet_amount,
                self.timeout == old(self).timeout,
            decreases self.players@.len() - i,
        {
            assert(self.players@[i as int].role == old(self).players@[i as int].role);
            if self.players[i].rank.is_some() {
                self.players[i].set_role(None);
            }
            i = i + 1;
        }
    }
    /// Index of the first player that holds `role`.
    pub fn find_role(&self, role: Role) -> (r: Result<usize, Error>)
        ensures
            r is Ok <==> has_role(self.players@, role),
            r is Ok ==> is_first_holder(self.players@, r->Ok_0 as int, role),
            r is Err ==> r == Err::<usize, Error>(Error::NoPlayerFoundByRole(role)),
    {
        let mut i: usize = 0;
        while i < self.players.len()
            invariant
                i <= self.players@.len(),
                forall|j: int| 0 <= j < i ==> !holds_role(self.players@, j, role),
            decreases self.players@.len() - i,
        {
            if self.players[i].role == Some(role) {
                assert(holds_role(self.players@, i as int, role));
                return Ok(i);
            }
            i = i + 1;
        }
        Err(Error::NoPlayerFoundByRole(role))
    }

    /// The player that holds `role`.
    pub fn get_player_by_role(&self, role: Role) -> (r: Result<&Player, Error>)
        ensures
            r is Ok <==> has_role(self.players@, role),
            r is Ok ==> exists|i: int| is_first_holder(self.players@, i, role) && *r->Ok_0 == self.players@[i],
            r is Err ==> r == Err::<&Player, Error>(Error::NoPlayerFoundByRole(role)),
    {
        let i = self.find_role(role)?;
        Ok(&self.players[i])
    }

    /// Player indices in acting order: starting at the seat of the holder of
    /// `role`, then the following seats, wrapping around the table.
    pub fn players_in_acting_order_mut(&self, role: Role) -> (r: Result<Vec<usize>, Error>)
        ensures
            r is Ok <==> has_role(self.players@, role),
            r is Ok ==> exists|h: int| holds_role(self.players@, h, role) && is_key_order(
                Seq::new(self.players@.len(), |i: int| acting_key(self.players@[i].position, self.players@[h].position)),
                r->Ok_0@,
            ),
            r is Err ==> r == Err::<Vec<usize>, Error>(Error::NoPlayerFoundByRole(role)),
    {
        let h = self.find_role(role)?;
        let start = self.players[h].position;
        let mut keys: Vec<u32> = Vec::new();
        let mut i: usize = 0;
        while i < self.players.len()
            invariant
                i <= self.players@.len(),
                keys@.len() == i,
                start == self.players@[h as int].position,
                forall|j: int| 0 <= j < i ==> keys@[j] == acting_key(self.players@[j].position, start),
            decreases self.players@.len() - i,
        {
            let p = self.players[i].position;
            let k: u32 = if p >= start {
                p as u32
            } else {
                p as u32 + MAX_NUM_OF_PLAYERS as u32
            };
            keys.push(k);
            i = i + 1;
        }
        let ghost ks = Seq::new(self.players@.len(), |i: int| acting_key(self.players@[i].position, start));
        assert(keys@ == ks);
        Ok(order_by_keys(&keys))
    }

    /// Player indices in position order, smallest seat first.
    pub fn players_in_position_order_mut(&self) -> (r: Vec<usize>)
        ensures
            is_key_order(Seq::new(self.players@.len(), |i: int| self.players@[i].position as u32), r@),
    {
        let mut keys: Vec<u32> = Vec::new();
        let mut i: usize = 0;
        while i < self.players.len()
            invariant
                i <= self.players@.len(),
                keys@.len() == i,
                forall|j: int| 0 <= j < i ==> keys@[j] == self.players@[j].position as u32,
            decreases self.players@.len() - i,
        {
            keys.push(self.players[i].position as u32);
            i = i + 1;
        }
        assert(keys@ == Seq::new(self.players@.len(), |i: int| self.players@[i].position as u32));
        order_by_keys(&keys)
    }

    /// Player indices in rank order; unfinished players come last.
    pub fn players_in_rank_order(&self) -> (r: Vec<usize>)
        ensures
            is_key_order(Seq::new(self.players@.len(), |i: int| rank_key(self.players@[i].rank)), r@),
    {
        let mut keys: Vec<u32> = Vec::new();
        let mut i: usize = 0;
        while i < self.players.len()
            invariant
                i <= self.players@.len(),
                keys@.len() == i,
                forall|j: int| 0 <= j < i ==> keys@[j] == rank_key(self.players@[j].rank),
            decreases self.players@.len() - i,
        {
            let k: u32 = match self.players[i].rank {
                Some(r) => r as u32,
                None => MAX_NUM_OF_PLAYERS as u32,
            };
            keys.push(k);
            i = i + 1;
        }
        assert(keys@ == Seq::new(self.players@.len(), |i: int| rank_key(self.players@[i].rank)));
        order_by_keys(&keys)
    }

    /// Gives the first four players of `order` the roles Attacker,
    /// Defender, CoAttacker and none.
    fn assign_roles(&mut self, order: &Vec<usize>)
        requires
            distinct_indices(order@, old(self).players@.len() as int),
        ensures
            roles_assigned(old(self).players@, final(self).players@, order@),
            final(self).stage == old(self).stage,
            final(self).attacks == old(self).attacks,
            final(self).deck_offset == old(self).deck_offset,
            final(self).num_of_players == old(self).num_of_players,
            final(self).num_of_finished == old(self).num_of_finished,
            final(self).trump == old(self).trump,
            final(self).random_id == old(self).random_id,
            final(self).bet_amount == old(self).bet_amount,
            final(self).timeout == old(self).timeout,
    {
        let mut k: usize = 0;
        while k < order.len() && k < 4
            invariant
                k <= order@.len(),
                k <= 4,
                distinct_indices(order@, old(self).players@.len() as int),
                same_but_roles(old(self).players@, self.players@),
                forall|m: int| 0 <= m < k ==> self.players@[order@[m] as int].role == role_at(m),
                forall|i: int|
                    0 <= i < self.players@.len() && !(exists|m: int| 0 <= m < k && order@[m] == i)
                        ==> self.players@[i].role == old(self).players@[i].role,
                self.stage == old(self).stage,
                self.attacks == old(self).attacks,
                self.deck_offset == old(self).deck_offset,
                self.num_of_players == old(self).num_of_players,
                self.num_of_finished == old(self).num_of_finished,
                self.trump == old(self).trump,
                self.random_id == old(self).random_id,
                self.bet_amount == old(self).bet_amount,
                self.timeout == old(self).timeout,
            decreases order@.len() - k,
        {
            let role = if k == 0 {
                Some(Role::Attacker)
            } else if k == 1 {
                Some(Role::Defender)
            } else if k == 2 {
                Some(Role::CoAttacker)
            } else {
                None
            };
            let i = order[k];
            self.players[i].set_role(role);
            proof {
                assert forall|i2: int|
                    0 <= i2 < self.players@.len() && !(exists|m: int| 0 <= m < k + 1 && order@[m] == i2)
                        implies self.players@[i2].role == old(self).players@[i2].role by {
                    assert(order@[k as int] != i2);
                }
            }
            k = k + 1;
        }
        proof {
            assert forall|i: int|
                0 <= i < self.players@.len() && !(exists|m: int| 0 <= m < order@.len() && m < 4 && order@[m] == i)
                    implies self.players@[i].role == old(self).players@[i].role by {
                if exists|m: int| 0 <= m < k && order@[m] == i {
                    let m = choose|m: int| 0 <= m < k && order@[m] == i;
                    assert(0 <= m < order@.len() && m < 4 && order@[m] == i);
                }
            }
        }
    }
}

} // verus!
