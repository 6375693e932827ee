//! Properties of the rules that span several operations: slot placement
//! and role uniqueness.

use vstd::multiset::Multiset;
use vstd::prelude::*;

use crate::attack::Attack;
use crate::game::Stage;
use crate::rules::{
    forwarded_into, resume_ok, pending_slot, close_ok, has_role, first_holder,
    confirmed_entry, acting_keys, collected, distinct_indices, hand_gave, holds_role, is_key_order, ledger_slots,
    rotation_order, open_entries, opened, role_at, roles_assigned, round_ended, rotated_from, rotated_roles,
    same_but_roles, unranked_of,
};
use crate::player::{Player, Role};
use crate::{DECK_LEN, MAX_NUM_OF_PLAYERS};

verus! {

/// Player `i` exists and holds no finish rank.
pub open spec fn unfinished(p: Seq<Player>, i: int) -> bool {
    0 <= i < p.len() && p[i].rank is None
}

/// The unfinished part of `o` is drawn from `o`, is no longer than `o`,
/// keeps the indices distinct, and holds every unfinished index of `o`.
pub proof fn lemma_unranked_of_props(p: Seq<Player>, o: Seq<usize>)
    requires
        distinct_indices(o, p.len() as int),
    ensures
        unranked_of(p, o).len() <= o.len(),
        forall|k: int| 0 <= k < unranked_of(p, o).len() ==> o.contains(#[trigger] unranked_of(p, o)[k]),
        distinct_indices(unranked_of(p, o), p.len() as int),
        forall|i: usize| o.contains(i) && (i as int) < p.len() && p[i as int].rank is None
            ==> #[trigger] unranked_of(p, o).contains(i),
    decreases o.len(),
{
    if o.len() > 0 {
        let rest = o.drop_last();
        assert(distinct_indices(rest, p.len() as int));
        lemma_unranked_of_props(p, rest);
        let f = unranked_of(p, o);
        let fr = unranked_of(p, rest);
        assert forall|k: int| 0 <= k < f.len() implies o.contains(#[trigger] f[k]) by {
            if k < fr.len() {
                assert(f[k] == fr[k]);
                assert(rest.contains(fr[k]));
                let w = choose|w: int| 0 <= w < rest.len() && rest[w] == fr[k];
                assert(o[w] == fr[k]);
            } else {
                assert(f[k] == o[o.len() - 1]);
            }
        }
        if p[o.last() as int].rank is None {
            assert forall|k: int| 0 <= k < fr.len() implies fr[k] != o.last() by {
                assert(rest.contains(fr[k]));
                let w = choose|w: int| 0 <= w < rest.len() && rest[w] == fr[k];
                assert(o[w] != o[o.len() - 1]);
            }
        }
        assert forall|i: usize| o.contains(i) && (i as int) < p.len() && p[i as int].rank is None
            implies #[trigger] unranked_of(p, o).contains(i) by {
            let w = choose|w: int| 0 <= w < o.len() && o[w] == i;
            if w < o.len() - 1 {
                assert(rest[w] == i);
                assert(fr.contains(i));
                let v = choose|v: int| 0 <= v < fr.len() && fr[v] == i;
                assert(f[v] == i);
            } else {
                assert(f[f.len() - 1] == i);
            }
        }
    }
}

/// With at most four seats, a rotation (as at the end of a round) leaves
/// every role with at most one holder and finished players with none; when
/// two or more players are unfinished exactly one Attacker and one Defender
/// exist, and when three or more are, exactly one CoAttacker.
#[verifier::rlimit(40)]
pub proof fn lemma_rotation_roles_unique(before: Seq<Player>, after: Seq<Player>, attack_succeed: bool)
    requires
        rotated_from(before, after, attack_succeed),
        same_but_roles(before, after),
        before.len() <= MAX_NUM_OF_PLAYERS,
    ensures
        forall|r: Role, i: int, j: int| holds_role(after, i, r) && holds_role(after, j, r) ==> i == j,
        forall|i: int| 0 <= i < after.len() && (#[trigger] after[i]).rank is Some ==> after[i].role is None,
        (exists|i: int, j: int| i != j && unfinished(after, i) && unfinished(after, j))
            ==> (exists|i: int| holds_role(after, i, Role::Attacker))
                && (exists|i: int| holds_role(after, i, Role::Defender)),
        (exists|i: int, j: int, k: int| i != j && j != k && i != k && unfinished(after, i)
            && unfinished(after, j) && unfinished(after, k))
            ==> exists|i: int| holds_role(after, i, Role::CoAttacker),
{
    let (h, o0) = choose|h: int, o: Seq<usize>| holds_role(before, h, Role::Defender)
        && is_key_order(acting_keys(before, h), o)
        && rotated_roles(before, after, unranked_of(before, rotation_order(o, attack_succeed)));
    crate::rules::lemma_key_order_distinct(acting_keys(before, h), o0);
    crate::rules::lemma_rotation_order(o0, before.len() as int, attack_succeed);
    let o = rotation_order(o0, attack_succeed);
    lemma_unranked_of_props(before, o);
    let f = unranked_of(before, o);
    assert(f.len() <= 4);
    assert forall|i: int| 0 <= i < after.len() implies after[i].rank == before[i].rank by {
        assert(after[i] == after[i]);
    }
    // An unfinished player sits in the first four of `f`.
    assert forall|i: int| unfinished(after, i) implies exists|k: int| 0 <= k < f.len() && k < 4 && f[k] == i by {
        assert(o.contains(i as usize));
        assert(f.contains(i as usize));
        let k = choose|k: int| 0 <= k < f.len() && f[k] == i as usize;
        assert(k < 4);
    }
    assert forall|i: int| 0 <= i < after.len() && (#[trigger] after[i]).rank is Some implies after[i].role is None by {
        if exists|k: int| 0 <= k < f.len() && k < 4 && f[k] == i {
            let k = choose|k: int| 0 <= k < f.len() && k < 4 && f[k] == i;
            assert(unranked_of(before, o).contains(f[k]));
            assert(before[i].rank is None) by {
                crate::rules::lemma_unranked_of(before, o);
            }
        }
    }
    assert forall|r: Role, i: int, j: int| holds_role(after, i, r) && holds_role(after, j, r) implies i == j by {
        assert(exists|k: int| 0 <= k < f.len() && k < 4 && f[k] == i) by {
            if !(exists|k: int| 0 <= k < f.len() && k < 4 && f[k] == i) {
                assert(after[i].role == if before[i].rank is Some { None } else { before[i].role });
                if before[i].rank is None {
                    assert(unfinished(after, i));
                }
            }
        }
        assert(exists|k: int| 0 <= k < f.len() && k < 4 && f[k] == j) by {
            if !(exists|k: int| 0 <= k < f.len() && k < 4 && f[k] == j) {
                assert(after[j].role == if before[j].rank is Some { None } else { before[j].role });
                if before[j].rank is None {
                    assert(unfinished(after, j));
                }
            }
        }
        let ki = choose|k: int| 0 <= k < f.len() && k < 4 && f[k] == i;
        let kj = choose|k: int| 0 <= k < f.len() && k < 4 && f[k] == j;
        assert(after[f[ki] as int].role == role_at(ki));
        assert(after[f[kj] as int].role == role_at(kj));
        assert(ki == kj);
    }
    if exists|i: int, j: int| i != j && unfinished(after, i) && unfinished(after, j) {
        let (i, j) = choose|i: int, j: int| i != j && unfinished(after, i) && unfinished(after, j);
        let ki = choose|k: int| 0 <= k < f.len() && k < 4 && f[k] == i;
        let kj = choose|k: int| 0 <= k < f.len() && k < 4 && f[k] == j;
        assert(f.len() >= 2);
        assert(after[f[0] as int].role == role_at(0));
        assert(after[f[1] as int].role == role_at(1));
        assert(holds_role(after, f[0] as int, Role::Attacker));
        assert(holds_role(after, f[1] as int, Role::Defender));
    }
    if exists|i: int, j: int, k: int| i != j && j != k && i != k && unfinished(after, i)
        && unfinished(after, j) && unfinished(after, k) {
        let (i, j, m) = choose|i: int, j: int, k: int| i != j && j != k && i != k && unfinished(after, i)
            && unfinished(after, j) && unfinished(after, k);
        let ki = choose|k: int| 0 <= k < f.len() && k < 4 && f[k] == i;
        let kj = choose|k: int| 0 <= k < f.len() && k < 4 && f[k] == j;
        let km = choose|k: int| 0 <= k < f.len() && k < 4 && f[k] == m;
        assert(f.len() >= 3);
        assert(after[f[2] as int].role == role_at(2));
        assert(holds_role(after, f[2] as int, Role::CoAttacker));
    }
}

/// The first roles, given by seat to at most four players (see
/// `Durak::init_roles`), have at most one holder each; two players make an
/// Attacker and a Defender, three or more also a CoAttacker.
pub proof fn lemma_initial_roles_unique(before: Seq<Player>, after: Seq<Player>, o: Seq<usize>)
    requires
        is_key_order(Seq::new(before.len(), |i: int| before[i].position as u32), o),
        roles_assigned(before, after, o),
        before.len() <= MAX_NUM_OF_PLAYERS,
    ensures
        forall|r: Role, i: int, j: int| holds_role(after, i, r) && holds_role(after, j, r) ==> i == j,
        after.len() >= 2 ==> (exists|i: int| holds_role(after, i, Role::Attacker))
            && (exists|i: int| holds_role(after, i, Role::Defender)),
        after.len() >= 3 ==> exists|i: int| holds_role(after, i, Role::CoAttacker),
{
    let keys = Seq::new(before.len(), |i: int| before[i].position as u32);
    crate::rules::lemma_key_order_distinct(keys, o);
    assert forall|r: Role, i: int, j: int| holds_role(after, i, r) && holds_role(after, j, r) implies i == j by {
        assert(o.contains(i as usize));
        assert(o.contains(j as usize));
        let ki = choose|k: int| 0 <= k < o.len() && o[k] == i as usize;
        let kj = choose|k: int| 0 <= k < o.len() && o[k] == j as usize;
        assert(after[o[ki] as int].role == role_at(ki));
        assert(after[o[kj] as int].role == role_at(kj));
        assert(ki == kj);
    }
    if after.len() >= 2 {
        assert(after[o[0] as int].role == role_at(0));
        assert(after[o[1] as int].role == role_at(1));
        assert(holds_role(after, o[0] as int, Role::Attacker));
        assert(holds_role(after, o[1] as int, Role::Defender));
    }
    if after.len() >= 3 {
        assert(after[o[2] as int].role == role_at(2));
        assert(holds_role(after, o[2] as int, Role::CoAttacker));
    }
}

/// At the end of a round (see `Durak::end_round`) with at most four seats,
/// every role has at most one holder, finished players hold none, and two
/// (three) unfinished players make exactly one Attacker and one Defender
/// (and one CoAttacker).
pub proof fn lemma_round_end_roles_unique(
    old_p: Seq<Player>,
    attacks: Seq<Attack>,
    deck_offset: usize,
    new_offset: usize,
    stage: Stage,
    fin: Seq<Player>,
    attack_succeed: bool,
    d: int,
    mid: Seq<Player>,
    dealt_p: Seq<Player>,
)
    requires
        round_ended(old_p, attacks, deck_offset, new_offset, stage, fin, attack_succeed, d, mid, dealt_p),
        old_p.len() <= MAX_NUM_OF_PLAYERS,
    ensures
        forall|r: Role, i: int, j: int| holds_role(fin, i, r) && holds_role(fin, j, r) ==> i == j,
        forall|i: int| 0 <= i < fin.len() && (#[trigger] fin[i]).rank is Some ==> fin[i].role is None,
        (exists|i: int, j: int| i != j && unfinished(fin, i) && unfinished(fin, j))
            ==> (exists|i: int| holds_role(fin, i, Role::Attacker))
                && (exists|i: int| holds_role(fin, i, Role::Defender)),
        (exists|i: int, j: int, k: int| i != j && j != k && i != k && unfinished(fin, i)
            && unfinished(fin, j) && unfinished(fin, k))
            ==> exists|i: int| holds_role(fin, i, Role::CoAttacker),
{
    lemma_rotation_roles_unique(dealt_p, fin, attack_succeed);
}

/// The slots `lo, lo + 1, ..., hi - 1`.
pub open spec fn slot_range(lo: int, hi: int) -> Seq<usize> {
    Seq::new((hi - lo) as nat, |i: int| (lo + i) as usize)
}

/// Adding the empty run of slots changes nothing.
pub proof fn lemma_empty_range(m: Multiset<usize>, lo: int)
    ensures
        m == m.add(slot_range(lo, lo).to_multiset()),
{
    broadcast use vstd::multiset::group_multiset_axioms;

    assert(slot_range(lo, lo).to_multiset() =~= Multiset::empty()) by {
        broadcast use vstd::seq_lib::group_seq_properties;
    }
    assert(m =~= m.add(slot_range(lo, lo).to_multiset()));
}

/// One dealing step: player `x` receives the run `[off, new_off)`, which
/// extends the run `[lo, off)` dealt so far.
pub proof fn lemma_deal_step(before: Seq<Player>, after: Seq<Player>, x: int, base: Multiset<usize>, lo: int, off: int, new_off: int)
    requires
        before.len() == after.len(),
        0 <= x < before.len(),
        lo <= off <= new_off,
        forall|i: int| 0 <= i < before.len() && i != x ==> #[trigger] after[i] == before[i],
        after[x].card_idxs@ == before[x].card_idxs@ + slot_range(off, new_off),
        hands_ms(before) == base.add(slot_range(lo, off).to_multiset()),
    ensures
        hands_ms(after) == base.add(slot_range(lo, new_off).to_multiset()),
{
    broadcast use vstd::multiset::group_multiset_axioms;

    lemma_hands_ms_update(before, after, x);
    vstd::seq_lib::lemma_multiset_commutative(before[x].card_idxs@, slot_range(off, new_off));
    assert(slot_range(lo, new_off) =~= slot_range(lo, off) + slot_range(off, new_off));
    vstd::seq_lib::lemma_multiset_commutative(slot_range(lo, off), slot_range(off, new_off));
    let ha = hands_ms(after);
    let hb = hands_ms(before);
    let bx = before[x].card_idxs@.to_multiset();
    let ax = after[x].card_idxs@.to_multiset();
    let r1 = slot_range(lo, off).to_multiset();
    let r2 = slot_range(off, new_off).to_multiset();
    assert(ax == bx.add(r2));
    assert(slot_range(lo, new_off).to_multiset() == r1.add(r2));
    assert forall|v: usize| #[trigger] ha.count(v) == base.add(slot_range(lo, new_off).to_multiset()).count(v) by {
        assert(ha.add(bx).count(v) == hb.add(ax).count(v));
    }
    assert(ha =~= base.add(slot_range(lo, new_off).to_multiset()));
}

/// All slots in the players' hands, as a multiset.
pub open spec fn hands_ms(p: Seq<Player>) -> Multiset<usize>
    decreases p.len(),
{
    if p.len() == 0 {
        Multiset::empty()
    } else {
        hands_ms(p.drop_last()).add(p.last().card_idxs@.to_multiset())
    }
}

/// All slots in the hands and on the table, as a multiset.
pub open spec fn table_ms(p: Seq<Player>, attacks: Seq<Attack>) -> Multiset<usize> {
    hands_ms(p).add(ledger_slots(attacks).to_multiset())
}

/// Rosters with the same hands hold the same slots.
pub proof fn lemma_hands_ms_same(p: Seq<Player>, q: Seq<Player>)
    requires
        p.len() == q.len(),
        forall|i: int| 0 <= i < p.len() ==> (#[trigger] q[i]).card_idxs@ == p[i].card_idxs@,
    ensures
        hands_ms(q) == hands_ms(p),
    decreases p.len(),
{
    broadcast use vstd::multiset::group_multiset_axioms;

    if p.len() > 0 {
        lemma_hands_ms_same(p.drop_last(), q.drop_last());
        assert(q.last().card_idxs@ == p.last().card_idxs@);
    }
}

/// Changing the hand of player `a` alone changes the held slots by that hand.
pub proof fn lemma_hands_ms_update(p: Seq<Player>, q: Seq<Player>, a: int)
    requires
        p.len() == q.len(),
        0 <= a < p.len(),
        forall|i: int| 0 <= i < p.len() && i != a ==> (#[trigger] q[i]).card_idxs@ == p[i].card_idxs@,
    ensures
        hands_ms(q).add(p[a].card_idxs@.to_multiset()) == hands_ms(p).add(q[a].card_idxs@.to_multiset()),
    decreases p.len(),
{
    broadcast use vstd::multiset::group_multiset_axioms;

    let n = p.len() - 1;
    if a == n {
        lemma_hands_ms_same(p.drop_last(), q.drop_last());
        assert(hands_ms(q).add(p[a].card_idxs@.to_multiset()) =~= hands_ms(p).add(q[a].card_idxs@.to_multiset()));
    } else {
        lemma_hands_ms_update(p.drop_last(), q.drop_last(), a);
        assert(q.last().card_idxs@ == p.last().card_idxs@);
        assert(p.drop_last()[a] == p[a]);
        assert(q.drop_last()[a] == q[a]);
        let hq = hands_ms(q.drop_last());
        let hp = hands_ms(p.drop_last());
        let pa = p[a].card_idxs@.to_multiset();
        let qa = q[a].card_idxs@.to_multiset();
        let l = p.last().card_idxs@.to_multiset();
        assert(hands_ms(q) == hq.add(l));
        assert(hands_ms(p) == hp.add(l));
        assert forall|x: usize| #[trigger] hands_ms(q).add(pa).count(x) == hands_ms(p).add(qa).count(x) by {
            assert(hq.add(pa).count(x) == hp.add(qa).count(x));
        }
        assert(hands_ms(q).add(pa) =~= hands_ms(p).add(qa));
    }
}

/// Appending ConfirmOpen entries appends their slots to the table.
pub proof fn lemma_ledger_opened(old_a: Seq<Attack>, slots: Seq<usize>)
    ensures
        ledger_slots(old_a + open_entries(slots)) == ledger_slots(old_a) + slots,
    decreases slots.len(),
{
    if slots.len() == 0 {
        assert(old_a + open_entries(slots) =~= old_a);
        assert(ledger_slots(old_a) + slots =~= ledger_slots(old_a));
    } else {
        let s0 = slots.drop_last();
        lemma_ledger_opened(old_a, s0);
        assert((old_a + open_entries(slots)).drop_last() =~= old_a + open_entries(s0));
        assert(ledger_slots(old_a) + slots =~= ledger_slots(old_a) + s0 + seq![slots.last()]);
    }
}

/// Putting cards from a hand on the table neither loses nor duplicates a
/// slot: hands and table together hold the same slots as before.
pub proof fn lemma_put_cards_conserves(
    old_p: Seq<Player>,
    new_p: Seq<Player>,
    a: int,
    taken: Seq<usize>,
    old_a: Seq<Attack>,
    new_a: Seq<Attack>,
)
    requires
        hand_gave(old_p, new_p, a, taken),
        opened(old_a, new_a, taken),
    ensures
        table_ms(new_p, new_a) == table_ms(old_p, old_a),
{
    broadcast use vstd::multiset::group_multiset_axioms;

    lemma_hands_ms_update(old_p, new_p, a);
    lemma_ledger_opened(old_a, taken);
    vstd::seq_lib::lemma_multiset_commutative(ledger_slots(old_a), taken);
    let hn = hands_ms(new_p);
    let ho = hands_ms(old_p);
    let na = new_p[a].card_idxs@.to_multiset();
    let oa = old_p[a].card_idxs@.to_multiset();
    let t = taken.to_multiset();
    let l = ledger_slots(old_a).to_multiset();
    assert(ledger_slots(new_a).to_multiset() == l.add(t));
    assert forall|x: usize| #[trigger] table_ms(new_p, new_a).count(x) == table_ms(old_p, old_a).count(x) by {
        assert(hn.add(oa).count(x) == ho.add(na).count(x));
        assert(na.add(t).count(x) == oa.count(x));
    }
    assert(table_ms(new_p, new_a) =~= table_ms(old_p, old_a));
}

/// When the Defender collects the table, the slots on it move into that
/// hand: the hands afterwards hold exactly what hands and table held before.
pub proof fn lemma_collect_conserves(old_p: Seq<Player>, mid: Seq<Player>, d: int, attacks: Seq<Attack>)
    requires
        collected(old_p, mid, d, ledger_slots(attacks)),
        0 <= d < old_p.len(),
    ensures
        hands_ms(mid) == table_ms(old_p, attacks),
{
    broadcast use vstd::multiset::group_multiset_axioms;

    assert forall|i: int| 0 <= i < old_p.len() && i != d implies (#[trigger] mid[i]).card_idxs@ == old_p[i].card_idxs@ by {
        assert(old_p[i].card_idxs@ + Seq::<usize>::empty() =~= old_p[i].card_idxs@);
    }
    lemma_hands_ms_update(old_p, mid, d);
    vstd::seq_lib::lemma_multiset_commutative(old_p[d].card_idxs@, ledger_slots(attacks));
    assert(mid[d].card_idxs@ == old_p[d].card_idxs@ + ledger_slots(attacks));
    let hm = hands_ms(mid);
    let ho = hands_ms(old_p);
    let md = mid[d].card_idxs@.to_multiset();
    let od = old_p[d].card_idxs@.to_multiset();
    let l = ledger_slots(attacks).to_multiset();
    assert(md == od.add(l));
    assert forall|x: usize| #[trigger] hm.count(x) == table_ms(old_p, attacks).count(x) by {
        assert(hm.add(od).count(x) == ho.add(md).count(x));
    }
    assert(hands_ms(mid) =~= table_ms(old_p, attacks));
}

/// Where the slots are: hands, table, the undealt tail and the trump slot
/// (`[deck_offset, DECK_LEN)`).
pub open spec fn placed_ms(p: Seq<Player>, attacks: Seq<Attack>, deck_offset: int) -> Multiset<usize> {
    table_ms(p, attacks).add(slot_range(deck_offset, DECK_LEN as int).to_multiset())
}

/// Every slot of the deck once.
pub open spec fn deck_ms() -> Multiset<usize> {
    slot_range(0, DECK_LEN as int).to_multiset()
}

/// Before the first deal, with empty hands and table, every slot of the
/// deck is in exactly one place (the undealt tail or the trump slot).
pub proof fn lemma_fresh_placement(p: Seq<Player>, attacks: Seq<Attack>)
    requires
        forall|i: int| 0 <= i < p.len() ==> (#[trigger] p[i]).card_idxs@.len() == 0,
        attacks.len() == 0,
    ensures
        placed_ms(p, attacks, 0) == deck_ms(),
    decreases p.len(),
{
    broadcast use vstd::multiset::group_multiset_axioms;
    broadcast use vstd::seq_lib::group_seq_properties;

    if p.len() > 0 {
        lemma_fresh_placement(p.drop_last(), attacks);
        assert(p.last().card_idxs@.len() == 0);
        assert(p.last().card_idxs@.to_multiset() =~= Multiset::empty());
        assert(hands_ms(p) =~= hands_ms(p.drop_last()));
    } else {
        assert(hands_ms(p) =~= Multiset::empty());
    }
    assert(ledger_slots(attacks).to_multiset() =~= Multiset::empty());
    assert(placed_ms(p, attacks, 0) =~= deck_ms());
}

/// Dealing moves the run `[lo, hi)` from the undealt tail into hands: every
/// slot stays in exactly one place.
pub proof fn lemma_deal_conserves(
    old_p: Seq<Player>,
    new_p: Seq<Player>,
    attacks: Seq<Attack>,
    lo: int,
    hi: int,
)
    requires
        0 <= lo <= hi <= DECK_LEN,
        hands_ms(new_p) == hands_ms(old_p).add(slot_range(lo, hi).to_multiset()),
    ensures
        placed_ms(new_p, attacks, hi) == placed_ms(old_p, attacks, lo),
{
    broadcast use vstd::multiset::group_multiset_axioms;

    assert(slot_range(lo, DECK_LEN as int) =~= slot_range(lo, hi) + slot_range(hi, DECK_LEN as int));
    vstd::seq_lib::lemma_multiset_commutative(slot_range(lo, hi), slot_range(hi, DECK_LEN as int));
    assert(placed_ms(new_p, attacks, hi) =~= placed_ms(old_p, attacks, lo));
}

/// Putting cards on the table keeps every slot in exactly one place.
pub proof fn lemma_put_cards_placement(
    old_p: Seq<Player>,
    new_p: Seq<Player>,
    a: int,
    taken: Seq<usize>,
    old_a: Seq<Attack>,
    new_a: Seq<Attack>,
    deck_offset: int,
)
    requires
        hand_gave(old_p, new_p, a, taken),
        opened(old_a, new_a, taken),
    ensures
        placed_ms(new_p, new_a, deck_offset) == placed_ms(old_p, old_a, deck_offset),
{
    lemma_put_cards_conserves(old_p, new_p, a, taken, old_a, new_a);
}

/// The Defender collecting the table keeps every slot in exactly one place.
pub proof fn lemma_collect_placement(
    old_p: Seq<Player>,
    mid: Seq<Player>,
    d: int,
    attacks: Seq<Attack>,
    deck_offset: int,
)
    requires
        collected(old_p, mid, d, ledger_slots(attacks)),
        0 <= d < old_p.len(),
    ensures
        placed_ms(mid, Seq::empty(), deck_offset) == placed_ms(old_p, attacks, deck_offset),
{
    broadcast use vstd::multiset::group_multiset_axioms;

    lemma_collect_conserves(old_p, mid, d, attacks);
    assert(ledger_slots(Seq::<Attack>::empty()).to_multiset() =~= Multiset::empty()) by {
        broadcast use vstd::seq_lib::group_seq_properties;
    }
    assert(placed_ms(mid, Seq::empty(), deck_offset) =~= placed_ms(old_p, attacks, deck_offset));
}

/// When the defense fails and the round ends, the Defender collects the
/// table and hands are refilled from the undealt tail: every slot stays in
/// exactly one place.
pub proof fn lemma_round_end_placement(
    old_p: Seq<Player>,
    attacks: Seq<Attack>,
    deck_offset: usize,
    new_offset: usize,
    stage: Stage,
    fin: Seq<Player>,
    d: int,
    mid: Seq<Player>,
    dealt_p: Seq<Player>,
)
    requires
        round_ended(old_p, attacks, deck_offset, new_offset, stage, fin, true, d, mid, dealt_p),
        new_offset <= DECK_LEN,
    ensures
        placed_ms(fin, Seq::empty(), new_offset as int) == placed_ms(old_p, attacks, deck_offset as int),
{
    lemma_collect_placement(old_p, mid, d, attacks, deck_offset as int);
    lemma_deal_conserves(mid, dealt_p, Seq::empty(), deck_offset as int, new_offset as int);
    assert forall|i: int| 0 <= i < dealt_p.len() implies (#[trigger] fin[i]).card_idxs@ == dealt_p[i].card_idxs@ by {
        assert(fin[i] == fin[i]);
    }
    lemma_hands_ms_same(dealt_p, fin);
}

/// Ledgers whose entries hold the same slots, entry by entry, hold the same slots.
pub proof fn lemma_ledger_slots_same(a: Seq<Attack>, b: Seq<Attack>)
    requires
        a.len() == b.len(),
        forall|i: int| 0 <= i < a.len() ==> (#[trigger] b[i]).slots() == a[i].slots(),
    ensures
        ledger_slots(b) == ledger_slots(a),
    decreases a.len(),
{
    if a.len() > 0 {
        lemma_ledger_slots_same(a.drop_last(), b.drop_last());
        assert(b.last().slots() == a.last().slots());
    }
}

/// Replacing entry `t` by one holding one more slot `x` adds `x` to the table.
pub proof fn lemma_ledger_slots_grow(a: Seq<Attack>, b: Seq<Attack>, t: int, x: usize)
    requires
        a.len() == b.len(),
        0 <= t < a.len(),
        forall|i: int| 0 <= i < a.len() && i != t ==> (#[trigger] b[i]).slots() == a[i].slots(),
        b[t].slots() == a[t].slots().push(x),
    ensures
        ledger_slots(b).to_multiset() == ledger_slots(a).to_multiset().insert(x),
    decreases a.len(),
{
    broadcast use vstd::multiset::group_multiset_axioms;

    let n = a.len() - 1;
    if t == n {
        lemma_ledger_slots_same(a.drop_last(), b.drop_last());
        assert(ledger_slots(b) =~= ledger_slots(a).push(x));
        vstd::seq_lib::to_multiset_build(ledger_slots(a), x);
    } else {
        lemma_ledger_slots_grow(a.drop_last(), b.drop_last(), t, x);
        assert(b.last().slots() == a.last().slots());
        vstd::seq_lib::lemma_multiset_commutative(ledger_slots(a.drop_last()), a.last().slots());
        vstd::seq_lib::lemma_multiset_commutative(ledger_slots(b.drop_last()), b.last().slots());
        assert(ledger_slots(b).to_multiset() =~= ledger_slots(a).to_multiset().insert(x));
    }
}

/// Revealing pending entries moves no slot.
pub proof fn lemma_confirm_placement(
    p: Seq<Player>,
    old_a: Seq<Attack>,
    new_a: Seq<Attack>,
    revealed: Map<usize, String>,
    deck_offset: int,
)
    requires
        old_a.len() == new_a.len(),
        forall|i: int| 0 <= i < old_a.len() ==> confirmed_entry(old_a[i], #[trigger] new_a[i], revealed),
    ensures
        placed_ms(p, new_a, deck_offset) == placed_ms(p, old_a, deck_offset),
{
    assert forall|i: int| 0 <= i < old_a.len() implies (#[trigger] new_a[i]).slots() == old_a[i].slots() by {
        assert(confirmed_entry(old_a[i], new_a[i], revealed));
        match old_a[i] {
            Attack::ConfirmOpen { open_idx } => {},
            Attack::ConfirmClose { open, close_idx } => {},
            _ => {},
        }
    }
    lemma_ledger_slots_same(old_a, new_a);
}

/// Covering an open entry with a card from the Defender's hand keeps every
/// slot in exactly one place.
pub proof fn lemma_defend_placement(
    old_p: Seq<Player>,
    new_p: Seq<Player>,
    d: int,
    x: usize,
    old_a: Seq<Attack>,
    new_a: Seq<Attack>,
    t: int,
    deck_offset: int,
)
    requires
        hand_gave(old_p, new_p, d, seq![x]),
        old_a.len() == new_a.len(),
        0 <= t < old_a.len(),
        old_a[t] is Open,
        forall|i: int| 0 <= i < old_a.len() && i != t ==> #[trigger] new_a[i] == old_a[i],
        new_a[t] matches Attack::ConfirmClose { open, close_idx } && open.idx == old_a[t]->Open_open.idx
            && close_idx == x,
    ensures
        placed_ms(new_p, new_a, deck_offset) == placed_ms(old_p, old_a, deck_offset),
{
    broadcast use vstd::multiset::group_multiset_axioms;

    assert(new_a[t].slots() =~= old_a[t].slots().push(x));
    lemma_ledger_slots_grow(old_a, new_a, t, x);
    lemma_hands_ms_update(old_p, new_p, d);
    vstd::seq_lib::to_multiset_build(Seq::<usize>::empty(), x);
    assert(seq![x] =~= Seq::<usize>::empty().push(x));
    assert(Seq::<usize>::empty().to_multiset() =~= Multiset::empty()) by {
        broadcast use vstd::seq_lib::group_seq_properties;
    }
    let hn = hands_ms(new_p);
    let ho = hands_ms(old_p);
    let nd = new_p[d].card_idxs@.to_multiset();
    let od = old_p[d].card_idxs@.to_multiset();
    let xs = seq![x].to_multiset();
    assert forall|v: usize| #[trigger] placed_ms(new_p, new_a, deck_offset).count(v)
        == placed_ms(old_p, old_a, deck_offset).count(v) by {
        assert(hn.add(od).count(v) == ho.add(nd).count(v));
        assert(nd.add(xs).count(v) == od.count(v));
    }
    assert(placed_ms(new_p, new_a, deck_offset) =~= placed_ms(old_p, old_a, deck_offset));
}

/// Forwarding puts one card of the Defender on the table; the roles that
/// change with it move no slot.
pub proof fn lemma_forward_placement(
    old_p: Seq<Player>,
    mid: Seq<Player>,
    new_p: Seq<Player>,
    d: int,
    x: usize,
    old_a: Seq<Attack>,
    new_a: Seq<Attack>,
    deck_offset: int,
)
    requires
        hand_gave(old_p, mid, d, seq![x]),
        same_but_roles(mid, new_p),
        new_a == old_a.push(Attack::ConfirmOpen { open_idx: x }),
    ensures
        placed_ms(new_p, new_a, deck_offset) == placed_ms(old_p, old_a, deck_offset),
{
    assert(new_a =~= old_a + open_entries(seq![x]));
    lemma_put_cards_placement(old_p, mid, d, seq![x], old_a, new_a, deck_offset);
    assert forall|i: int| 0 <= i < mid.len() implies (#[trigger] new_p[i]).card_idxs@ == mid[i].card_idxs@ by {
        assert(new_p[i] == new_p[i]);
    }
    lemma_hands_ms_same(mid, new_p);
}

/// Forwarding a revealed card, with two unfinished players, keeps what
/// resuming needs: the rotation hands out an Attacker and a Defender.
pub proof fn lemma_forward_resume_ok(s: crate::game::Durak, m: crate::game::Durak, x: usize, revealed: Map<usize, String>)
    requires
        forwarded_into(s, m, x),
        resume_ok(s, revealed),
        revealed.contains_key(x),
        exists|i: int, j: int| i != j && unfinished(s.players@, i) && unfinished(s.players@, j),
    ensures
        resume_ok(m, revealed),
{
    let n = s.attacks@.len();
    assert forall|i: int| 0 <= i < m.attacks@.len() && (#[trigger] pending_slot(m.attacks@[i])) is Some
        implies revealed.contains_key(pending_slot(m.attacks@[i])->0) by {
        if i < n {
            assert(m.attacks@[i] == s.attacks@[i]);
        }
    }
    assert forall|i: int| 0 <= i < m.attacks@.len() implies close_ok(#[trigger] m.attacks@[i], revealed, m.trump) by {
        if i < n {
            assert(m.attacks@[i] == s.attacks@[i]);
        }
    }
    let (mid, h, o) = choose|mid: Seq<Player>, h: int, o: Seq<usize>| {
        &&& hand_gave(s.players@, mid, first_holder(s.players@, Role::Defender), seq![x])
        &&& holds_role(mid, h, Role::Defender)
        &&& is_key_order(acting_keys(mid, h), o)
        &&& roles_assigned(mid, m.players@, unranked_of(mid, o))
    };
    crate::rules::lemma_key_order_distinct(acting_keys(mid, h), o);
    lemma_unranked_of_props(mid, o);
    let f = unranked_of(mid, o);
    let (i, j) = choose|i: int, j: int| i != j && unfinished(s.players@, i) && unfinished(s.players@, j);
    let a = first_holder(s.players@, Role::Defender);
    assert(mid[i].rank is None) by {
        if i != a {
            assert(mid[i] == s.players@[i]);
        }
    }
    assert(mid[j].rank is None) by {
        if j != a {
            assert(mid[j] == s.players@[j]);
        }
    }
    assert(mid.len() == s.players@.len());
    assert(0 <= i < mid.len() && 0 <= j < mid.len());
    assert(o.contains(i as usize));
    assert(o.contains(j as usize));
    assert(s.players@.len() <= usize::MAX) by {
        vstd::std_specs::vec::axiom_spec_len(&s.players);
    }
    assert(((i as usize) as int) == i && ((j as usize) as int) == j);
    assert(unranked_of(mid, o).contains(i as usize));
    assert(unranked_of(mid, o).contains(j as usize));
    let ki = choose|k: int| 0 <= k < f.len() && f[k] == i as usize;
    let kj = choose|k: int| 0 <= k < f.len() && f[k] == j as usize;
    assert(ki != kj);
    assert(f.len() >= 2);
    assert(m.players@[f[0] as int].role == role_at(0));
    assert(m.players@[f[1] as int].role == role_at(1));
    assert(holds_role(m.players@, f[0] as int, Role::Attacker));
    assert(holds_role(m.players@, f[1] as int, Role::Defender));
}

} // verus!
