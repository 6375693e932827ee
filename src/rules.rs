//! The rules as predicates over the session's model, with the small
//! executable helpers they describe.

use vstd::prelude::*;

use crate::attack::{closes, Attack};
use crate::card::{kind_of, same_kind, Card};
use crate::error::Error;
use crate::game::{Action, Command, Durak, Effects, Stage};
use crate::laws::{hands_ms, slot_range};
use crate::player::{Player, Role};
use crate::{
    ACT_TIMEOUT_MS, RESET_TIMEOUT_MS, END_OF_ROUND_TIMEOUT_MS, MAX_ATTACK_COUNT, MAX_NUM_OF_PLAYERS, MIN_HAND_CARD_COUNT, TRUMP_IDX,
};

verus! {

/// `a` comes before `b` when ordering indices by `keys`, ties by index.
pub open spec fn key_before(keys: Seq<u32>, a: int, b: int) -> bool {
    keys[a] < keys[b] || (keys[a] == keys[b] && a < b)
}

/// `r` lists every index of `keys` once, ascending by key and stable.
pub open spec fn is_key_order(keys: Seq<u32>, r: Seq<usize>) -> bool {
    &&& r.len() == keys.len()
    &&& forall|i: int| 0 <= i < r.len() ==> r[i] < keys.len()
    &&& forall|j: usize| j < keys.len() ==> #[trigger] r.contains(j)
    &&& forall|i: int, j: int| 0 <= i < j < r.len() ==> key_before(keys, r[i] as int, r[j] as int)
}

/// Indices of `keys` sorted stably by key.
pub fn order_by_keys(keys: &Vec<u32>) -> (r: Vec<usize>)
    ensures
        is_key_order(keys@, r@),
{
    let mut r: Vec<usize> = Vec::new();
    let mut i: usize = 0;
    while i < keys.len()
        invariant
            i <= keys@.len(),
            r@.len() == i,
            forall|a: int| 0 <= a < r@.len() ==> r@[a] < i,
            forall|j: usize| j < i ==> #[trigger] r@.contains(j),
            forall|a: int, b: int|
                0 <= a < b < r@.len() ==> key_before(keys@, r@[a] as int, r@[b] as int),
        decreases keys@.len() - i,
    {
        let k = keys[i];
        let mut p: usize = 0;
        while p < r.len() && keys[r[p]] <= k
            invariant
                p <= r@.len(),
                r@.len() == i,
                i < keys@.len(),
                k == keys@[i as int],
                forall|a: int| 0 <= a < r@.len() ==> r@[a] < i,
                forall|a: int| 0 <= a < p ==> keys@[r@[a] as int] <= k,
            decreases r@.len() - p,
        {
            p = p + 1;
        }
        let ghost old_r = r@;
        r.insert(p, i);
        proof {
            assert(r@ == old_r.insert(p as int, i));
            assert forall|a: int, b: int| 0 <= a < b < r@.len() implies key_before(
                keys@,
                r@[a] as int,
                r@[b] as int,
            ) by {
                if b < p {
                } else if a < p && b == p {
                } else if a < p && b > p {
                    assert(key_before(keys@, old_r[a] as int, old_r[b - 1] as int) || a == b - 1);
                    if p < old_r.len() {
                        assert(keys@[old_r[p as int] as int] > k);
                        if b - 1 > p {
                            assert(key_before(keys@, old_r[p as int] as int, old_r[b - 1] as int));
                        }
                    }
                } else if a == p {
                    assert(keys@[old_r[p as int] as int] > k);
                    if b - 1 > p {
                        assert(key_before(keys@, old_r[p as int] as int, old_r[b - 1] as int));
                    }
                } else {
                    assert(key_before(keys@, old_r[a - 1] as int, old_r[b - 1] as int));
                }
            }
            assert forall|j: usize| j < i + 1 implies #[trigger] r@.contains(j) by {
                if j < i {
                    assert(old_r.contains(j));
                    let w = choose|w: int| 0 <= w < old_r.len() && old_r[w] == j;
                    if w < p {
                        assert(r@[w] == j);
                    } else {
                        assert(r@[w + 1] == j);
                    }
                } else {
                    assert(r@[p as int] == i);
                }
            }
        }
        i = i + 1;
    }
    r
}

/// Index of the first player holding `role`, if any.
pub open spec fn holds_role(players: Seq<Player>, i: int, role: Role) -> bool {
    0 <= i < players.len() && players[i].role == Some(role)
}

/// `i` is the first player holding `role`.
pub open spec fn is_first_holder(players: Seq<Player>, i: int, role: Role) -> bool {
    holds_role(players, i, role) && forall|j: int| 0 <= j < i ==> !holds_role(players, j, role)
}

/// Someone holds `role`.
pub open spec fn has_role(players: Seq<Player>, role: Role) -> bool {
    exists|i: int| holds_role(players, i, role)
}

/// Sort key that starts the table at seat `start` and wraps around.
pub open spec fn acting_key(position: u16, start: u16) -> u32 {
    if position >= start {
        position as u32
    } else {
        (position + MAX_NUM_OF_PLAYERS) as u32
    }
}

/// Sort key that puts finished players first by rank, unfinished ones last.
pub open spec fn rank_key(rank: Option<u8>) -> u32 {
    match rank {
        Some(r) => r as u32,
        None => MAX_NUM_OF_PLAYERS as u32,
    }
}

/// Role given to the `k`-th player of a rotation.
pub open spec fn role_at(k: int) -> Option<Role> {
    if k == 0 {
        Some(Role::Attacker)
    } else if k == 1 {
        Some(Role::Defender)
    } else if k == 2 {
        Some(Role::CoAttacker)
    } else {
        None
    }
}

/// Players differ only in their roles.
pub open spec fn same_but_roles(a: Seq<Player>, b: Seq<Player>) -> bool {
    &&& a.len() == b.len()
    &&& forall|i: int| 0 <= i < a.len() ==> {
        &&& (#[trigger] b[i]).addr == a[i].addr
        &&& b[i].card_idxs == a[i].card_idxs
        &&& b[i].position == a[i].position
        &&& b[i].rank == a[i].rank
    }
}

/// `order` lists distinct player indices.
pub open spec fn distinct_indices(order: Seq<usize>, n: int) -> bool {
    &&& forall|i: int| 0 <= i < order.len() ==> order[i] < n
    &&& forall|i: int, j: int| 0 <= i < j < order.len() ==> order[i] != order[j]
}

/// After giving the first four of `order` their rotation roles.
pub open spec fn roles_assigned(old_p: Seq<Player>, new_p: Seq<Player>, order: Seq<usize>) -> bool {
    &&& same_but_roles(old_p, new_p)
    &&& forall|k: int| 0 <= k < order.len() && k < 4 ==> new_p[order[k] as int].role == role_at(k)
    &&& forall|i: int|
        0 <= i < new_p.len() && !(exists|k: int| 0 <= k < order.len() && k < 4 && order[k] == i)
            ==> new_p[i].role == old_p[i].role
}


/// The part of `o` whose players hold no finish rank, in order.
pub open spec fn unranked_of(players: Seq<Player>, o: Seq<usize>) -> Seq<usize>
    decreases o.len(),
{
    if o.len() == 0 {
        Seq::empty()
    } else {
        let rest = unranked_of(players, o.drop_last());
        if players[o.last() as int].rank is None {
            rest.push(o.last())
        } else {
            rest
        }
    }
}

/// The slots of `idxs` whose face value is not yet in `revealed`, in order.
pub open spec fn unrevealed(idxs: Seq<usize>, revealed: Map<usize, String>) -> Seq<usize>
    decreases idxs.len(),
{
    if idxs.len() == 0 {
        Seq::empty()
    } else {
        let rest = unrevealed(idxs.drop_last(), revealed);
        if revealed.contains_key(idxs.last()) {
            rest
        } else {
            rest.push(idxs.last())
        }
    }
}

/// `now + ms`, saturating at the largest time.
pub open spec fn deadline_spec(now: u64, ms: u64) -> u64 {
    if now + ms <= u64::MAX {
        (now + ms) as u64
    } else {
        u64::MAX
    }
}

/// `now + ms`, saturating at the largest time.
pub fn deadline(now: u64, ms: u64) -> (r: u64)
    ensures
        r == deadline_spec(now, ms),
{
    if now <= u64::MAX - ms {
        now + ms
    } else {
        u64::MAX
    }
}

/// The host inputs stay as they were and earlier requests are kept.
pub open spec fn fx_extends(a: Effects, b: Effects) -> bool {
    &&& b.timestamp == a.timestamp
    &&& b.revealed@ == a.revealed@
    &&& a.commands@.len() <= b.commands@.len()
    &&& b.commands@.subrange(0, a.commands@.len() as int) == a.commands@
}

/// An exchange extends itself.
pub proof fn lemma_fx_refl(e: Effects)
    ensures
        fx_extends(e, e),
{
    assert(e.commands@.subrange(0, e.commands@.len() as int) =~= e.commands@);
}

/// Issuing one more request keeps the earlier ones.
pub proof fn lemma_push_extends(a: Seq<Command>, x: Command, base: Seq<Command>)
    requires
        base.len() <= a.len(),
        a.subrange(0, base.len() as int) == base,
    ensures
        a.push(x).subrange(0, base.len() as int) == base,
{
    assert(a.push(x).subrange(0, base.len() as int) =~= a.subrange(0, base.len() as int));
}

/// The slot of a ledger entry that waits for its face value, if any.
pub open spec fn pending_slot(a: Attack) -> Option<usize> {
    match a {
        Attack::ConfirmOpen { open_idx } => Some(open_idx),
        Attack::ConfirmClose { close_idx, .. } => Some(close_idx),
        _ => None,
    }
}

/// Entry `a` after its pending slot is revealed as `revealed`.
pub open spec fn confirmed_entry(a: Attack, b: Attack, revealed: Map<usize, String>) -> bool {
    match a {
        Attack::ConfirmOpen { open_idx } => b matches Attack::Open { open }
            && open.idx == open_idx && open.value@ == revealed[open_idx]@,
        Attack::ConfirmClose { open, close_idx } => b matches Attack::Closed { open: o2, close }
            && o2.idx == open.idx && o2.value@ == open.value@
            && close.idx == close_idx && close.value@ == revealed[close_idx]@,
        _ => b == a,
    }
}

/// Some entry of the ledger holds a revealed card of the kind of `v`.
pub open spec fn kind_in_ledger(attacks: Seq<Attack>, v: Seq<char>) -> bool {
    exists|i: int, j: int|
        0 <= i < attacks.len() && 0 <= j < attacks[i].cards().len()
            && same_kind(#[trigger] attacks[i].cards()[j].value@, v)
}

/// Every entry of the ledger is Open or Closed.
pub open spec fn all_confirmed(attacks: Seq<Attack>) -> bool {
    forall|i: int| 0 <= i < attacks.len() ==> #[trigger] attacks[i].spec_is_confirmed()
}

/// Every entry of the ledger is Closed.
pub open spec fn all_closed(attacks: Seq<Attack>) -> bool {
    forall|i: int| 0 <= i < attacks.len() ==> #[trigger] attacks[i] is Closed
}

/// All slots held by the ledger, entry after entry.
pub open spec fn ledger_slots(attacks: Seq<Attack>) -> Seq<usize>
    decreases attacks.len(),
{
    if attacks.len() == 0 {
        Seq::empty()
    } else {
        ledger_slots(attacks.drop_last()) + attacks.last().slots()
    }
}


/// `n` is the hand `o` with the slots `lo, lo + 1, ..., hi - 1` appended.
pub open spec fn hand_dealt(o: Seq<usize>, n: Seq<usize>, lo: int, hi: int) -> bool {
    &&& lo <= hi
    &&& n.len() == o.len() + (hi - lo)
    &&& n.subrange(0, o.len() as int) == o
    &&& forall|k: int| o.len() <= k < n.len() ==> n[k] == lo + (k - o.len())
}

/// Players differ only in their hands.
pub open spec fn same_but_hands(a: Seq<Player>, b: Seq<Player>) -> bool {
    &&& a.len() == b.len()
    &&& forall|i: int| 0 <= i < a.len() ==> {
        &&& (#[trigger] b[i]).addr == a[i].addr
        &&& b[i].role == a[i].role
        &&& b[i].position == a[i].position
        &&& b[i].rank == a[i].rank
    }
}

/// A dealing step from cursor `lo` to cursor `hi`: each player received a
/// run of consecutive slots from `[lo, hi)`, the runs do not overlap, and
/// nobody was filled past the minimum hand size.
pub open spec fn dealt(old_p: Seq<Player>, new_p: Seq<Player>, lo: int, hi: int, starts: Seq<int>) -> bool {
    &&& same_but_hands(old_p, new_p)
    &&& starts.len() == old_p.len()
    &&& forall|i: int| 0 <= i < old_p.len() ==> {
        let got = new_p[i].card_idxs@.len() - old_p[i].card_idxs@.len();
        &&& hand_dealt(old_p[i].card_idxs@, (#[trigger] new_p[i]).card_idxs@, starts[i], starts[i] + got)
        &&& lo <= starts[i] && starts[i] + got <= hi
        &&& got == 0 || new_p[i].card_idxs@.len() <= MIN_HAND_CARD_COUNT
    }
    &&& forall|i: int, j: int| 0 <= i < j < old_p.len() ==> {
        let gi = new_p[i].card_idxs@.len() - old_p[i].card_idxs@.len();
        let gj = new_p[j].card_idxs@.len() - old_p[j].card_idxs@.len();
        gi == 0 || gj == 0 || starts[i] + gi <= #[trigger] starts[j] || starts[j] + gj <= #[trigger] starts[i]
    }
}

/// Dealing went along `o`: a player was served only after everyone before
/// them in `o` was full, and received the slots right after theirs.
pub open spec fn dealt_in_order(old_p: Seq<Player>, new_p: Seq<Player>, o: Seq<usize>, starts: Seq<int>) -> bool {
    forall|m: int, k: int| 0 <= m < k < o.len()
        && (#[trigger] new_p[o[k] as int]).card_idxs@.len() > old_p[o[k] as int].card_idxs@.len()
        ==> (#[trigger] new_p[o[m] as int]).card_idxs@.len() >= MIN_HAND_CARD_COUNT
            && starts[o[m] as int] + (new_p[o[m] as int].card_idxs@.len() - old_p[o[m] as int].card_idxs@.len())
                <= starts[o[k] as int]
}

/// Request `c` assigns to player `i` of `new_p` the slots it was dealt
/// since `old_p`.
pub open spec fn assigns_to(c: Command, old_p: Seq<Player>, new_p: Seq<Player>, random_id: usize, i: int) -> bool {
    c matches Command::Assign { random_id: id, addr, idxs } && id == random_id && addr == new_p[i].addr
        && idxs@ == new_p[i].card_idxs@.subrange(old_p[i].card_idxs@.len() as int, new_p[i].card_idxs@.len() as int)
}

/// Request `c` assigns to some player of `new_p` the slots it was dealt
/// since `old_p`.
pub open spec fn assigns_dealt(c: Command, old_p: Seq<Player>, new_p: Seq<Player>, random_id: usize) -> bool {
    exists|i: int| 0 <= i < new_p.len() && #[trigger] assigns_to(c, old_p, new_p, random_id, i)
}

/// Every hand holds at least the minimum number of cards.
pub open spec fn hands_full(p: Seq<Player>) -> bool {
    forall|i: int| 0 <= i < p.len() ==> (#[trigger] p[i]).card_idxs@.len() >= MIN_HAND_CARD_COUNT
}


/// The part of `o` whose players have an empty hand and no finish rank yet.
pub open spec fn finishers_of(players: Seq<Player>, o: Seq<usize>) -> Seq<usize>
    decreases o.len(),
{
    if o.len() == 0 {
        Seq::empty()
    } else {
        let rest = finishers_of(players, o.drop_last());
        let p = players[o.last() as int];
        if p.rank is None && p.card_idxs@.len() == 0 {
            rest.push(o.last())
        } else {
            rest
        }
    }
}

/// Ranks `base, base + 1, ...` went to `fin` in order; other ranks are kept.
pub open spec fn ranks_assigned(old_p: Seq<Player>, new_p: Seq<Player>, fin: Seq<usize>, base: int) -> bool {
    &&& old_p.len() == new_p.len()
    &&& forall|i: int| 0 <= i < old_p.len() ==> {
        &&& (#[trigger] new_p[i]).addr == old_p[i].addr
        &&& new_p[i].card_idxs == old_p[i].card_idxs
        &&& new_p[i].position == old_p[i].position
        &&& new_p[i].role == old_p[i].role
    }
    &&& forall|k: int| 0 <= k < fin.len() ==> new_p[#[trigger] fin[k] as int].rank == Some((base + k) as u8)
    &&& forall|i: int| 0 <= i < new_p.len() && !fin.contains(i as usize) ==> (#[trigger] new_p[i]).rank == old_p[i].rank
}

/// Key order by seat starting at the seat of player `h`.
pub open spec fn acting_keys(players: Seq<Player>, h: int) -> Seq<u32> {
    Seq::new(players.len(), |i: int| acting_key(players[i].position, players[h].position))
}

/// Key order by finish rank, unfinished last.
pub open spec fn rank_keys(players: Seq<Player>) -> Seq<u32> {
    Seq::new(players.len(), |i: int| rank_key(players[i].rank))
}

/// The settlement requests for players listed in rank order `o`: the best
/// receives the bet, the worst pays it, everyone is ejected.
pub open spec fn settle_commands(players: Seq<Player>, o: Seq<usize>, bet: u64) -> Seq<Command> {
    seq![
        Command::SettleAdd { addr: players[o[0] as int].addr, amount: bet },
        Command::SettleSub { addr: players[o.last() as int].addr, amount: bet },
    ] + Seq::new(o.len(), |k: int| Command::SettleEject { addr: players[o[k] as int].addr })
}

/// Who is awaited, and for how long, once every entry is confirmed.
pub open spec fn awaited_role(stage: Stage, attacks: Seq<Attack>) -> (Role, u64) {
    if stage == Stage::EndOfRound {
        (Role::Attacker, END_OF_ROUND_TIMEOUT_MS)
    } else if exists|i: int| 0 <= i < attacks.len() && #[trigger] attacks[i] is Open {
        (Role::Defender, ACT_TIMEOUT_MS)
    } else {
        (Role::Attacker, ACT_TIMEOUT_MS)
    }
}


/// `mid` is `old_p` with `slots` appended to the hand of player `d`.
pub open spec fn collected(old_p: Seq<Player>, mid: Seq<Player>, d: int, slots: Seq<usize>) -> bool {
    &&& old_p.len() == mid.len()
    &&& forall|i: int| 0 <= i < old_p.len() ==> {
        &&& (#[trigger] mid[i]).addr == old_p[i].addr
        &&& mid[i].role == old_p[i].role
        &&& mid[i].position == old_p[i].position
        &&& mid[i].rank == old_p[i].rank
        &&& mid[i].card_idxs@ == old_p[i].card_idxs@ + if i == d { slots } else { Seq::empty() }
    }
}

/// Hands only grew at their end; seats and ranks are kept.
pub open spec fn hands_extended(a: Seq<Player>, b: Seq<Player>) -> bool {
    &&& a.len() == b.len()
    &&& forall|i: int| 0 <= i < a.len() ==> {
        &&& (#[trigger] b[i]).addr == a[i].addr
        &&& b[i].position == a[i].position
        &&& b[i].rank == a[i].rank
        &&& a[i].card_idxs@.len() <= b[i].card_idxs@.len()
        &&& b[i].card_idxs@.subrange(0, a[i].card_idxs@.len() as int) == a[i].card_idxs@
    }
}

/// Some hand is below the minimum size.
pub open spec fn some_hand_short(p: Seq<Player>) -> bool {
    exists|i: int| 0 <= i < p.len() && (#[trigger] p[i]).card_idxs@.len() < MIN_HAND_CARD_COUNT
}

/// Roles after a rotation along `f` (unfinished players in acting order) and
/// the clearing of finished players' roles.
pub open spec fn rotated_roles(before: Seq<Player>, after: Seq<Player>, f: Seq<usize>) -> bool {
    &&& forall|k: int| 0 <= k < f.len() && k < 4 ==> after[f[k] as int].role == role_at(k)
    &&& forall|i: int| 0 <= i < after.len() && !(exists|k: int| 0 <= k < f.len() && k < 4 && f[k] == i)
        ==> (#[trigger] after[i]).role == if before[i].rank is Some { None } else { before[i].role }
}

/// The seat order `o`, which starts at the Defender, as the next round
/// takes it: from the Defender after a successful defense, else from the
/// player after the Defender (the Defender, having collected, goes last).
pub open spec fn rotation_order(o: Seq<usize>, attack_succeed: bool) -> Seq<usize> {
    if attack_succeed && o.len() > 0 {
        o.drop_first().push(o[0])
    } else {
        o
    }
}

/// A rotation keeps every index once.
pub proof fn lemma_rotation_order(o: Seq<usize>, n: int, attack_succeed: bool)
    requires
        distinct_indices(o, n),
        forall|j: usize| (j as int) < n ==> #[trigger] o.contains(j),
    ensures
        distinct_indices(rotation_order(o, attack_succeed), n),
        forall|j: usize| (j as int) < n ==> #[trigger] rotation_order(o, attack_succeed).contains(j),
        rotation_order(o, attack_succeed).len() == o.len(),
{
    if attack_succeed && o.len() > 0 {
        let r = rotation_order(o, attack_succeed);
        assert forall|i: int| 0 <= i < r.len() implies r[i] == if i < o.len() - 1 { o[i + 1] } else { o[0] } by {}
        assert forall|i: int, j: int| 0 <= i < j < r.len() implies r[i] != r[j] by {
            if j < o.len() - 1 {
                assert(o[i + 1] != o[j + 1]);
            } else {
                assert(o[0] != o[i + 1]);
            }
        }
        assert forall|j: usize| (j as int) < n implies #[trigger] r.contains(j) by {
            assert(o.contains(j));
            let w = choose|w: int| 0 <= w < o.len() && o[w] == j;
            if w == 0 {
                assert(r[r.len() - 1] == j);
            } else {
                assert(r[w - 1] == j);
            }
        }
    }
}

/// Roles were rotated from the Defender's seat: after a failed defense
/// (`attack_succeed`) the first unfinished player after the Defender
/// attacks next, else the Defender does.
pub open spec fn rotated_from(before: Seq<Player>, after: Seq<Player>, attack_succeed: bool) -> bool {
    exists|h: int, o: Seq<usize>| holds_role(before, h, Role::Defender)
        && is_key_order(acting_keys(before, h), o)
        && rotated_roles(before, after, unranked_of(before, rotation_order(o, attack_succeed)))
}

/// Every player of `unranked_of(p, o)` has no rank.
pub proof fn lemma_unranked_of(p: Seq<Player>, o: Seq<usize>)
    requires
        forall|i: int| 0 <= i < o.len() ==> o[i] < p.len(),
    ensures
        forall|k: int| 0 <= k < unranked_of(p, o).len() ==> (#[trigger] unranked_of(p, o)[k]) < p.len()
            && p[unranked_of(p, o)[k] as int].rank is None,
    decreases o.len(),
{
    if o.len() > 0 {
        lemma_unranked_of(p, o.drop_last());
    }
}

/// The cards of the table went to player `d` (when `attack_succeed`) or
/// were discarded, giving `mid`; then hands were refilled from the cursor
/// `deck_offset` up to `new_offset` if the deck allows, giving `dealt_p`;
/// then roles were rotated, giving `fin`.
pub open spec fn round_ended(
    old_p: Seq<Player>,
    attacks: Seq<Attack>,
    deck_offset: usize,
    new_offset: usize,
    stage: Stage,
    fin: Seq<Player>,
    attack_succeed: bool,
    d: int,
    mid: Seq<Player>,
    dealt_p: Seq<Player>,
) -> bool {
    &&& (attack_succeed ==> is_first_holder(old_p, d, Role::Defender))
    &&& collected(old_p, mid, d, if attack_succeed { ledger_slots(attacks) } else { Seq::empty() })
    &&& (stage == Stage::Dealing <==> deck_offset < TRUMP_IDX && some_hand_short(mid))
    &&& (stage == Stage::Dealing || stage == Stage::Acting)
    &&& hands_extended(mid, dealt_p)
    &&& (stage == Stage::Dealing && new_offset < TRUMP_IDX ==> hands_full(dealt_p))
    &&& (stage == Stage::Acting ==> dealt_p == mid && new_offset == deck_offset)
    &&& deck_offset <= new_offset
    &&& hands_ms(dealt_p) == hands_ms(mid).add(slot_range(deck_offset as int, new_offset as int).to_multiset())
    &&& same_but_roles(dealt_p, fin)
    &&& rotated_from(dealt_p, fin, attack_succeed)
}

/// A rotation followed by the clearing of finished players' roles.
pub proof fn lemma_rotate_then_clear(before: Seq<Player>, rot: Seq<Player>, after: Seq<Player>, attack_succeed: bool)
    requires
        exists|h: int, o: Seq<usize>| holds_role(before, h, Role::Defender)
            && is_key_order(acting_keys(before, h), o)
            && roles_assigned(before, rot, unranked_of(before, rotation_order(o, attack_succeed))),
        same_but_roles(rot, after),
        forall|i: int| 0 <= i < after.len() ==> #[trigger] after[i].role
            == if rot[i].rank is Some { None } else { rot[i].role },
    ensures
        rotated_from(before, after, attack_succeed),
        same_but_roles(before, after),
{
    let (h, o0) = choose|h: int, o: Seq<usize>| holds_role(before, h, Role::Defender)
        && is_key_order(acting_keys(before, h), o)
        && roles_assigned(before, rot, unranked_of(before, rotation_order(o, attack_succeed)));
    lemma_key_order_distinct(acting_keys(before, h), o0);
    lemma_rotation_order(o0, before.len() as int, attack_succeed);
    let o = rotation_order(o0, attack_succeed);
    lemma_unranked_of(before, o);
    let f = unranked_of(before, o);
    assert forall|k: int| 0 <= k < f.len() && k < 4 implies after[f[k] as int].role == role_at(k) by {
        let i = f[k] as int;
        assert(unranked_of(before, o)[k] < before.len());
        assert(rot[i] == rot[i]);
        assert(after[i].role == if rot[i].rank is Some { None } else { rot[i].role });
    }
    assert forall|i: int| 0 <= i < after.len() && !(exists|k: int| 0 <= k < f.len() && k < 4 && f[k] == i)
        implies (#[trigger] after[i]).role == if before[i].rank is Some { None } else { before[i].role } by {
        assert(rot[i] == rot[i]);
        assert(after[i].role == if rot[i].rank is Some { None } else { rot[i].role });
    }
    assert(rotated_roles(before, after, f));
    assert forall|i: int| 0 <= i < before.len() implies {
        &&& (#[trigger] after[i]).addr == before[i].addr
        &&& after[i].card_idxs == before[i].card_idxs
        &&& after[i].position == before[i].position
        &&& after[i].rank == before[i].rank
    } by {
        assert(rot[i] == rot[i]);
    }
}


/// A ConfirmClose entry's closing card, as revealed, covers its open card.
pub open spec fn close_ok(a: Attack, revealed: Map<usize, String>, trump: Option<Card>) -> bool {
    a is ConfirmClose ==> trump is Some && revealed.contains_key(a->close_idx)
        && closes(a->ConfirmClose_open.value@, revealed[a->close_idx]@, trump->0.value@)
}

/// Every closing card awaiting confirmation covers its open card once revealed.
pub open spec fn closes_revealed(attacks: Seq<Attack>, revealed: Map<usize, String>, trump: Option<Card>) -> bool {
    forall|i: int| 0 <= i < attacks.len() ==> close_ok(#[trigger] attacks[i], revealed, trump)
}

/// Finish ranks as the deck cursor allows: unchanged unless the deck is
/// exhausted; then the next ranks, from `base`, go in acting order from the
/// Attacker to players with an empty hand and no rank.
pub open spec fn escaped(old_p: Seq<Player>, deck_offset: usize, base: usize, new_p: Seq<Player>, n: usize) -> bool {
    if deck_offset != TRUMP_IDX {
        new_p == old_p && n == base
    } else {
        exists|h: int, o: Seq<usize>| holds_role(old_p, h, Role::Attacker) && is_key_order(acting_keys(old_p, h), o)
            && ranks_assigned(old_p, new_p, finishers_of(old_p, o), base as int)
            && n == base + finishers_of(old_p, o).len()
    }
}

/// Slots that are all revealed leave nothing to request.
pub proof fn lemma_unrevealed_empty(idxs: Seq<usize>, revealed: Map<usize, String>)
    requires
        unrevealed(idxs, revealed).len() == 0,
    ensures
        forall|i: int| 0 <= i < idxs.len() ==> revealed.contains_key(#[trigger] idxs[i]),
    decreases idxs.len(),
{
    if idxs.len() > 0 {
        lemma_unrevealed_empty(idxs.drop_last(), revealed);
        assert forall|i: int| 0 <= i < idxs.len() implies revealed.contains_key(#[trigger] idxs[i]) by {
            if i < idxs.len() - 1 {
                assert(idxs.drop_last()[i] == idxs[i]);
            }
        }
    }
}

/// `m` is `s` with the slots `slots` moved from the hand of the holder of
/// `role` onto the table as new entries, nothing else changed.
pub open spec fn put_into(s: Durak, m: Durak, role: Role, slots: Seq<usize>) -> bool {
    &&& hand_gave(s.players@, m.players@, first_holder(s.players@, role), slots)
    &&& opened(s.attacks@, m.attacks@, slots)
    &&& m.stage == s.stage && m.deck_offset == s.deck_offset && m.num_of_finished == s.num_of_finished
    &&& m.num_of_players == s.num_of_players && m.trump == s.trump && m.random_id == s.random_id
    &&& m.bet_amount == s.bet_amount
}

/// Putting revealed cards on the table keeps what resuming needs.
pub proof fn lemma_put_resume_ok(s: Durak, m: Durak, role: Role, slots: Seq<usize>, revealed: Map<usize, String>)
    requires
        put_into(s, m, role, slots),
        resume_ok(s, revealed),
        unrevealed(slots, revealed).len() == 0,
    ensures
        resume_ok(m, revealed),
{
    lemma_unrevealed_empty(slots, revealed);
    let n = s.attacks@.len();
    assert forall|i: int| 0 <= i < m.attacks@.len() && (#[trigger] pending_slot(m.attacks@[i])) is Some
        implies revealed.contains_key(pending_slot(m.attacks@[i])->0) by {
        if i < n {
            assert(m.attacks@[i] == s.attacks@[i]);
        } else {
            assert(m.attacks@[i] == open_entries(slots)[i - n]);
        }
    }
    assert forall|i: int| 0 <= i < m.attacks@.len() implies close_ok(#[trigger] m.attacks@[i], revealed, m.trump) by {
        if i < n {
            assert(m.attacks@[i] == s.attacks@[i]);
        } else {
            assert(m.attacks@[i] == open_entries(slots)[i - n]);
        }
    }
    let a = first_holder(s.players@, role);
    assert forall|r: Role| has_role(s.players@, r) implies has_role(m.players@, r) by {
        let i = choose|i: int| holds_role(s.players@, i, r);
        if i != a {
            assert(m.players@[i] == s.players@[i]);
        }
        assert(holds_role(m.players@, i, r));
    }
}

/// `m` is `s` with the Defender's slot `x` moved onto entry `target`, now
/// waiting to be confirmed as closed, nothing else changed.
pub open spec fn defended_into(s: Durak, m: Durak, x: usize, target: int) -> bool {
    &&& hand_gave(s.players@, m.players@, first_holder(s.players@, Role::Defender), seq![x])
    &&& m.attacks@.len() == s.attacks@.len()
    &&& forall|i: int| 0 <= i < s.attacks@.len() && i != target ==> #[trigger] m.attacks@[i] == s.attacks@[i]
    &&& m.attacks@[target] matches Attack::ConfirmClose { open, close_idx }
        && open.idx == s.attacks@[target]->Open_open.idx && open.value@ == s.attacks@[target]->Open_open.value@
        && close_idx == x
    &&& m.stage == s.stage && m.deck_offset == s.deck_offset && m.num_of_finished == s.num_of_finished
    &&& m.num_of_players == s.num_of_players && m.trump == s.trump && m.random_id == s.random_id
    &&& m.bet_amount == s.bet_amount
}

/// `m` is `s` with the Defender's slot `x` forwarded onto the table and the
/// roles rotated from the Defender's seat, nothing else changed.
pub open spec fn forwarded_into(s: Durak, m: Durak, x: usize) -> bool {
    &&& m.attacks@ == s.attacks@.push(Attack::ConfirmOpen { open_idx: x })
    &&& exists|mid: Seq<Player>, h: int, o: Seq<usize>| {
        &&& hand_gave(s.players@, mid, first_holder(s.players@, Role::Defender), seq![x])
        &&& holds_role(mid, h, Role::Defender)
        &&& is_key_order(acting_keys(mid, h), o)
        &&& roles_assigned(mid, m.players@, unranked_of(mid, o))
    }
    &&& m.stage == s.stage && m.deck_offset == s.deck_offset && m.num_of_finished == s.num_of_finished
    &&& m.num_of_players == s.num_of_players && m.trump == s.trump && m.random_id == s.random_id
    &&& m.bet_amount == s.bet_amount
}

/// Covering with a card revealed as claimed keeps what resuming needs.
pub proof fn lemma_defend_resume_ok(s: Durak, m: Durak, card: Card, target: int, revealed: Map<usize, String>)
    requires
        defended_into(s, m, card.idx, target),
        0 <= target < s.attacks@.len(),
        s.attacks@[target] is Open,
        s.trump is Some,
        closes(s.attacks@[target]->Open_open.value@, card.value@, s.trump->0.value@),
        resume_ok(s, revealed),
        revealed.contains_key(card.idx),
        revealed[card.idx]@ == card.value@,
    ensures
        resume_ok(m, revealed),
{
    assert forall|i: int| 0 <= i < m.attacks@.len() && (#[trigger] pending_slot(m.attacks@[i])) is Some
        implies revealed.contains_key(pending_slot(m.attacks@[i])->0) by {
        if i != target {
            assert(m.attacks@[i] == s.attacks@[i]);
        }
    }
    assert forall|i: int| 0 <= i < m.attacks@.len() implies close_ok(#[trigger] m.attacks@[i], revealed, m.trump) by {
        if i != target {
            assert(m.attacks@[i] == s.attacks@[i]);
        }
    }
    let a = first_holder(s.players@, Role::Defender);
    assert forall|r: Role| has_role(s.players@, r) implies has_role(m.players@, r) by {
        let i = choose|i: int| holds_role(s.players@, i, r);
        if i != a {
            assert(m.players@[i] == s.players@[i]);
        }
        assert(holds_role(m.players@, i, r));
    }
}

/// What resuming after a reveal needs: every pending slot revealed, every
/// revealed closing card covering, an Attacker and a Defender, and room for
/// the finish ranks.
pub open spec fn resume_ok(s: Durak, revealed: Map<usize, String>) -> bool {
    &&& pending_revealed(s.attacks@, revealed)
    &&& closes_revealed(s.attacks@, revealed, s.trump)
    &&& has_role(s.players@, Role::Attacker)
    &&& has_role(s.players@, Role::Defender)
    &&& (s.deck_offset == TRUMP_IDX ==> s.num_of_finished + s.players@.len() <= 255)
}

/// Resuming went from `s` to `t` (requests `oc` to `nc`): the ledger was
/// confirmed into `a1`, finish ranks gave `p2` and `n2`; then the game
/// ended and was settled, or a fully defended round ended, or the next
/// timer was armed.
pub open spec fn resumed(
    s: Durak,
    t: Durak,
    oc: Seq<Command>,
    nc: Seq<Command>,
    now: u64,
    revealed: Map<usize, String>,
    a1: Seq<Attack>,
    p2: Seq<Player>,
    n2: usize,
) -> bool {
    &&& a1.len() == s.attacks@.len()
    &&& forall|i: int| 0 <= i < a1.len() ==> confirmed_entry(s.attacks@[i], #[trigger] a1[i], revealed)
    &&& escaped(s.players@, s.deck_offset, s.num_of_finished, p2, n2)
    &&& t.num_of_finished == n2
    &&& n2 + 1 >= s.num_of_players ==> {
        &&& t.stage == Stage::EndOfGame && t.players@ == p2 && t.attacks@ == a1
        &&& exists|o: Seq<usize>| is_key_order(rank_keys(p2), o) && nc == oc + settle_commands(p2, o, s.bet_amount)
            + seq![Command::Checkpoint, Command::WaitTimeout { timeout: RESET_TIMEOUT_MS }]
    }
    &&& n2 + 1 < s.num_of_players && s.stage == Stage::EndOfGame ==> t.players@ == p2 && t.attacks@ == a1 && nc == oc
    &&& n2 + 1 < s.num_of_players && s.stage != Stage::EndOfGame && fully_defended(p2, a1) ==> {
        &&& t.attacks@.len() == 0
        &&& exists|d: int, mid: Seq<Player>, dealt_p: Seq<Player>| round_ended(p2, a1, s.deck_offset, t.deck_offset,
            t.stage, t.players@, false, d, mid, dealt_p)
    }
    &&& n2 + 1 < s.num_of_players && s.stage != Stage::EndOfGame && !fully_defended(p2, a1) ==> {
        &&& t.players@ == p2 && t.attacks@ == a1 && t.stage == s.stage
        &&& exists|p: int| is_first_holder(p2, p, awaited_role(s.stage, a1).0)
            && nc == oc.push(Command::ActionTimeout { addr: p2[p].addr, timeout: awaited_role(s.stage, a1).1 })
            && t.timeout == deadline_spec(now, awaited_role(s.stage, a1).1)
    }
}

/// Every slot awaiting its face value has been revealed.
pub open spec fn pending_revealed(attacks: Seq<Attack>, revealed: Map<usize, String>) -> bool {
    forall|i: int| 0 <= i < attacks.len() && (#[trigger] pending_slot(attacks[i])) is Some
        ==> revealed.contains_key(pending_slot(attacks[i])->0)
}

/// The slot of a ledger entry that waits for its face value, if any.
pub fn pending_of(a: &Attack) -> (r: Option<usize>)
    ensures
        r == pending_slot(*a),
{
    match a {
        Attack::ConfirmOpen { open_idx } => Some(*open_idx),
        Attack::ConfirmClose { close_idx, .. } => Some(*close_idx),
        _ => None,
    }
}

/// Requesting the reveal of slots that are all revealed already asks for
/// nothing, and filtering a request twice changes nothing more.
pub proof fn lemma_reveal_request_idempotent(idxs: Seq<usize>, revealed: Map<usize, String>)
    ensures
        (forall|i: int| 0 <= i < idxs.len() ==> revealed.contains_key(#[trigger] idxs[i]))
            ==> unrevealed(idxs, revealed).len() == 0,
        unrevealed(unrevealed(idxs, revealed), revealed) == unrevealed(idxs, revealed),
    decreases idxs.len(),
{
    if idxs.len() > 0 {
        lemma_reveal_request_idempotent(idxs.drop_last(), revealed);
        let rest = unrevealed(idxs.drop_last(), revealed);
        if (forall|i: int| 0 <= i < idxs.len() ==> revealed.contains_key(#[trigger] idxs[i])) {
            assert forall|i: int| 0 <= i < idxs.drop_last().len() implies revealed.contains_key(#[trigger] idxs.drop_last()[i]) by {
                assert(idxs.drop_last()[i] == idxs[i]);
            }
            assert(revealed.contains_key(idxs[idxs.len() - 1]));
        }
        if !revealed.contains_key(idxs.last()) {
            assert(rest.push(idxs.last()).drop_last() == rest);
        }
    }
}


/// The slots of `cards`, in order.
pub open spec fn card_slots(cards: Seq<Card>) -> Seq<usize> {
    Seq::new(cards.len(), |i: int| cards[i].idx)
}

/// No request issued after `oc` in `nc` is a reveal request.
pub open spec fn no_reveal_since(oc: Seq<Command>, nc: Seq<Command>) -> bool {
    forall|q: int| oc.len() <= q < nc.len() ==> !(#[trigger] nc[q] is Reveal)
}

/// `nc` is `oc` with one more request: to reveal the slots of `idxs` that
/// `revealed` does not hold yet.
pub open spec fn reveal_requested(
    oc: Seq<Command>,
    nc: Seq<Command>,
    random_id: usize,
    idxs: Seq<usize>,
    revealed: Map<usize, String>,
) -> bool {
    &&& nc.len() == oc.len() + 1
    &&& nc.subrange(0, oc.len() as int) == oc
    &&& nc.last() matches Command::Reveal { random_id: id, idxs: req } && id == random_id
        && req@ == unrevealed(idxs, revealed)
}

/// Every card of `cards` is in `hand`, each slot named once.
pub open spec fn cards_in_hand(hand: Seq<usize>, cards: Seq<Card>) -> bool {
    &&& forall|i: int| 0 <= i < cards.len() ==> hand.contains(#[trigger] cards[i].idx)
    &&& forall|i: int, j: int| 0 <= i < j < cards.len() ==> cards[i].idx != cards[j].idx
}

/// Player `a` gave up the slots `taken` and nothing else changed in the roster.
pub open spec fn hand_gave(old_p: Seq<Player>, new_p: Seq<Player>, a: int, taken: Seq<usize>) -> bool {
    &&& old_p.len() == new_p.len()
    &&& 0 <= a < old_p.len()
    &&& forall|i: int| 0 <= i < old_p.len() && i != a ==> #[trigger] new_p[i] == old_p[i]
    &&& new_p[a].addr == old_p[a].addr
    &&& new_p[a].role == old_p[a].role
    &&& new_p[a].position == old_p[a].position
    &&& new_p[a].rank == old_p[a].rank
    &&& new_p[a].card_idxs@.to_multiset().add(taken.to_multiset()) == old_p[a].card_idxs@.to_multiset()
}

/// One ConfirmOpen entry for each of `slots`.
pub open spec fn open_entries(slots: Seq<usize>) -> Seq<Attack> {
    Seq::new(slots.len(), |i: int| Attack::ConfirmOpen { open_idx: slots[i] })
}

/// New ConfirmOpen entries for `slots`, appended to the ledger.
pub open spec fn opened(old_a: Seq<Attack>, new_a: Seq<Attack>, slots: Seq<usize>) -> bool {
    new_a == old_a + open_entries(slots)
}

/// The table can take more cards: Acting or EndOfRound, room in the
/// ledger, and the Defender `d` holds a card.
pub open spec fn table_open(stage: Stage, attacks: Seq<Attack>, players: Seq<Player>, d: int) -> bool {
    (stage == Stage::Acting || stage == Stage::EndOfRound) && attacks.len() < MAX_ATTACK_COUNT
        && players[d].card_idxs@.len() > 0
}

/// Every card of `cards` matches a kind on the table.
pub open spec fn all_kinds_in_ledger(attacks: Seq<Attack>, cards: Seq<Card>) -> bool {
    forall|i: int| 0 <= i < cards.len() ==> kind_in_ledger(attacks, #[trigger] cards[i].value@)
}

/// Some card of `cards` matches a kind on the table.
pub open spec fn any_kind_in_ledger(attacks: Seq<Attack>, cards: Seq<Card>) -> bool {
    exists|i: int| 0 <= i < cards.len() && kind_in_ledger(attacks, #[trigger] cards[i].value@)
}

/// Every entry is Open and all open cards share one kind.
pub open spec fn forwardable(attacks: Seq<Attack>) -> bool {
    &&& forall|i: int| 0 <= i < attacks.len() ==> #[trigger] attacks[i] is Open
    &&& forall|i: int, j: int| 0 <= i < attacks.len() && 0 <= j < attacks.len() ==>
        kind_of(#[trigger] attacks[i]->Open_open.value@) == kind_of(#[trigger] attacks[j]->Open_open.value@)
}


/// The first player holding `role`.
pub open spec fn first_holder(players: Seq<Player>, role: Role) -> int {
    choose|i: int| is_first_holder(players, i, role)
}

/// The first check that an Attack (`co` false) or CoAttack (`co` true) of
/// `cards` by `sender` fails, if any.
pub open spec fn attack_check(s: Durak, sender: Seq<char>, cards: Seq<Card>, co: bool) -> Option<Error> {
    let role = if co { Role::CoAttacker } else { Role::Attacker };
    if !has_role(s.players@, Role::Defender) {
        Some(Error::NoPlayerFoundByRole(Role::Defender))
    } else if !table_open(s.stage, s.attacks@, s.players@, first_holder(s.players@, Role::Defender)) {
        Some(Error::CantAttack)
    } else if cards.len() > MAX_ATTACK_COUNT - s.attacks@.len() {
        Some(Error::NoAttackSpace((MAX_ATTACK_COUNT - s.attacks@.len()) as usize, cards.len() as usize))
    } else if !co && !(s.attacks@.len() == 0 || all_kinds_in_ledger(s.attacks@, cards)) {
        Some(Error::NotValidAttackCard)
    } else if co && any_kind_in_ledger(s.attacks@, cards) {
        Some(Error::NotValidAttackCard)
    } else if !has_role(s.players@, role) {
        Some(Error::NoPlayerFoundByRole(role))
    } else if s.players@[first_holder(s.players@, role)].addr@ != sender {
        Some(if co { Error::PlayerIsNotCoAttacker } else { Error::PlayerIsNotAttacker })
    } else {
        None
    }
}

/// The first check that a Defend of entry `target` with `card` fails, if any.
pub open spec fn defend_check(s: Durak, sender: Seq<char>, card: Card, target: u8) -> Option<Error> {
    let d = first_holder(s.players@, Role::Defender);
    if s.stage != Stage::Acting {
        Some(Error::CantDefend)
    } else if !has_role(s.players@, Role::Defender) {
        Some(Error::NoPlayerFoundByRole(Role::Defender))
    } else if s.players@[d].addr@ != sender {
        Some(Error::PlayerIsNotDefender)
    } else if !s.players@[d].card_idxs@.contains(card.idx) {
        Some(Error::InvalidCardIndex(card.idx))
    } else if target as int >= s.attacks@.len() {
        Some(Error::InvalidAttackIndex(target))
    } else if s.trump is None {
        Some(Error::NoTrump)
    } else if !(s.attacks@[target as int] is Open) {
        Some(Error::InvalidAttackStatus)
    } else if !closes(s.attacks@[target as int]->Open_open.value@, card.value@, s.trump->0.value@) {
        Some(Error::InvalidDefendCard)
    } else {
        None
    }
}

/// The first check that a Forward of `card` fails, if any.
pub open spec fn forward_check(s: Durak, sender: Seq<char>, card: Card) -> Option<Error> {
    let d = first_holder(s.players@, Role::Defender);
    if !forwardable(s.attacks@) || s.attacks@.len() >= MAX_ATTACK_COUNT {
        Some(Error::CantForward)
    } else if !kind_in_ledger(s.attacks@, card.value@) {
        Some(Error::InvalidForwardCard)
    } else if !has_role(s.players@, Role::Defender) {
        Some(Error::NoPlayerFoundByRole(Role::Defender))
    } else if s.players@[d].addr@ != sender {
        Some(Error::PlayerIsNotDefender)
    } else if !s.players@[d].card_idxs@.contains(card.idx) {
        Some(Error::InvalidCardIndex(card.idx))
    } else {
        None
    }
}

/// The first check that a Take (`role` Defender) or Beated (`role`
/// Attacker) by `sender` fails, if any.
pub open spec fn concede_check(s: Durak, sender: Seq<char>, role: Role) -> Option<Error> {
    if !has_role(s.players@, role) {
        Some(Error::NoPlayerFoundByRole(role))
    } else if s.players@[first_holder(s.players@, role)].addr@ != sender {
        Some(if role == Role::Defender { Error::PlayerIsNotDefender } else { Error::PlayerIsNotAttacker })
    } else if !all_confirmed(s.attacks@) {
        Some(Error::UnconfirmedCard)
    } else {
        None
    }
}

/// The roles a round end needs: the Defender (who collects, and from whose
/// seat the roles rotate) and the Attacker (who is dealt to first or
/// awaited next).
pub open spec fn round_can_end(p: Seq<Player>) -> bool {
    has_role(p, Role::Attacker) && has_role(p, Role::Defender)
}

/// Rosters with the same roles and ranks agree on who holds what and on
/// how many players are unfinished.
pub proof fn lemma_same_roles_ranks(a: Seq<Player>, b: Seq<Player>)
    requires
        a.len() == b.len(),
        forall|i: int| 0 <= i < a.len() ==> (#[trigger] b[i]).role == a[i].role && b[i].rank == a[i].rank,
    ensures
        forall|r: Role| has_role(b, r) == has_role(a, r),
        forall|r: Role, i: int| is_first_holder(b, i, r) == is_first_holder(a, i, r),
{
    assert forall|r: Role| has_role(b, r) == has_role(a, r) by {
        if has_role(a, r) {
            let i = choose|i: int| holds_role(a, i, r);
            assert(holds_role(b, i, r));
        }
        if has_role(b, r) {
            let i = choose|i: int| holds_role(b, i, r);
            assert(holds_role(a, i, r));
        }
    }
    assert forall|r: Role, i: int| is_first_holder(b, i, r) == is_first_holder(a, i, r) by {
        assert forall|j: int| holds_role(b, j, r) == holds_role(a, j, r) by {}
    }
}

/// The Defender `d` has no card left and every card on a non-empty table is covered.
pub open spec fn fully_defended(p: Seq<Player>, attacks: Seq<Attack>) -> bool {
    &&& attacks.len() > 0
    &&& all_closed(attacks)
    &&& exists|d: int| is_first_holder(p, d, Role::Defender) && p[d].card_idxs@.len() == 0
}

/// The roles that arming the next timer needs: a Defender; then either
/// those to end a fully defended round, or, once every entry is confirmed,
/// the awaited player.
pub open spec fn timer_can_arm(p: Seq<Player>, attacks: Seq<Attack>, stage: Stage) -> bool {
    &&& has_role(p, Role::Defender)
    &&& if fully_defended(p, attacks) {
        round_can_end(p)
    } else {
        all_confirmed(attacks) ==> has_role(p, awaited_role(stage, attacks).0)
    }
}

/// A timeout counts as a failed defense in EndOfRound, or in Acting while
/// some card on the table is not covered.
pub open spec fn timeout_succeed(s: Durak) -> bool {
    s.stage == Stage::EndOfRound || !(s.attacks@.len() == 0 || all_closed(s.attacks@))
}

/// The roster fits the table: at most four players, each in seats 0 to 3.
pub open spec fn seats_ok(p: Seq<Player>) -> bool {
    p.len() <= MAX_NUM_OF_PLAYERS && forall|i: int| 0 <= i < p.len() ==> (#[trigger] p[i]).position < MAX_NUM_OF_PLAYERS
}

/// No role has two holders.
pub open spec fn roles_unique(p: Seq<Player>) -> bool {
    forall|r: Role, i: int, j: int| holds_role(p, i, r) && holds_role(p, j, r) ==> i == j
}

/// No two players share an address.
pub open spec fn addrs_unique(p: Seq<Player>) -> bool {
    forall|i: int, j: int| 0 <= i < j < p.len() ==> (#[trigger] p[i]).addr@ != (#[trigger] p[j]).addr@
}


/// A key order lists distinct indices.
pub proof fn lemma_key_order_distinct(keys: Seq<u32>, r: Seq<usize>)
    requires
        is_key_order(keys, r),
    ensures
        distinct_indices(r, keys.len() as int),
{
    assert forall|i: int, j: int| 0 <= i < j < r.len() implies r[i] != r[j] by {
        assert(key_before(keys, r[i] as int, r[j] as int));
    }
}

/// Some player has the address `addr`.
pub open spec fn seated(players: Seq<Player>, addr: Seq<char>) -> bool {
    exists|j: int| 0 <= j < players.len() && players[j].addr@ == addr
}

/// Conditions under which `action` by `sender` is accepted: the checks
/// pass, the cards are in hand, and either a card awaits its reveal or, all
/// being revealed (as claimed, for a covering card), the game can resume at
/// once (for a Forward, with two unfinished players to rotate through).
pub open spec fn action_ok(s: Durak, sender: Seq<char>, action: Action, revealed: Map<usize, String>) -> bool {
    &&& action_check(s, sender, action) is None
    &&& match action {
        Action::Attack { cards } => cards_in_hand(s.players@[first_holder(s.players@, Role::Attacker)].card_idxs@, cards@)
            && (unrevealed(card_slots(cards@), revealed).len() > 0 || resume_ok(s, revealed)),
        Action::CoAttack { cards } => cards_in_hand(s.players@[first_holder(s.players@, Role::CoAttacker)].card_idxs@, cards@)
            && (unrevealed(card_slots(cards@), revealed).len() > 0 || resume_ok(s, revealed)),
        Action::Defend { card, target } => !revealed.contains_key(card.idx)
            || (revealed[card.idx]@ == card.value@ && resume_ok(s, revealed)),
        Action::Forward { card } => !revealed.contains_key(card.idx) || (resume_ok(s, revealed)
            && exists|i: int, j: int| i != j && crate::laws::unfinished(s.players@, i) && crate::laws::unfinished(s.players@, j)),
        Action::Take => s.attacks@.len() < MAX_ATTACK_COUNT || s.stage == Stage::EndOfGame || round_can_end(s.players@),
        Action::Beated => s.stage == Stage::EndOfGame || round_can_end(s.players@),
    }
}

/// What an accepted `action` did, going from `s` to `t` and from requests
/// `oc` to `nc`, when its cards were not revealed yet.
pub open spec fn action_done(
    s: Durak,
    t: Durak,
    oc: Seq<Command>,
    nc: Seq<Command>,
    now: u64,
    revealed: Map<usize, String>,
    action: Action,
) -> bool {
    match action {
        Action::Attack { cards } => (unrevealed(card_slots(cards@), revealed).len() == 0 ==> exists|m: Durak,
            a1: Seq<Attack>, p2: Seq<Player>, n2: usize| put_into(s, m, Role::Attacker, card_slots(cards@))
            && resumed(m, t, oc, nc, now, revealed, a1, p2, n2))
            && (unrevealed(card_slots(cards@), revealed).len() > 0 ==> {
            &&& hand_gave(s.players@, t.players@, first_holder(s.players@, Role::Attacker), card_slots(cards@))
            &&& opened(s.attacks@, t.attacks@, card_slots(cards@))
            &&& t.stage == s.stage && t.deck_offset == s.deck_offset
            &&& reveal_requested(oc, nc, s.random_id, card_slots(cards@), revealed)
        }),
        Action::CoAttack { cards } => (unrevealed(card_slots(cards@), revealed).len() == 0 ==> exists|m: Durak,
            a1: Seq<Attack>, p2: Seq<Player>, n2: usize| put_into(s, m, Role::CoAttacker, card_slots(cards@))
            && resumed(m, t, oc, nc, now, revealed, a1, p2, n2))
            && (unrevealed(card_slots(cards@), revealed).len() > 0 ==> {
            &&& hand_gave(s.players@, t.players@, first_holder(s.players@, Role::CoAttacker), card_slots(cards@))
            &&& opened(s.attacks@, t.attacks@, card_slots(cards@))
            &&& t.stage == s.stage && t.deck_offset == s.deck_offset
            &&& reveal_requested(oc, nc, s.random_id, card_slots(cards@), revealed)
        }),
        Action::Defend { card, target } => (revealed.contains_key(card.idx) ==> exists|m: Durak, a1: Seq<Attack>,
            p2: Seq<Player>, n2: usize| defended_into(s, m, card.idx, target as int)
            && resumed(m, t, oc, nc, now, revealed, a1, p2, n2))
            && (!revealed.contains_key(card.idx) ==> {
            &&& hand_gave(s.players@, t.players@, first_holder(s.players@, Role::Defender), seq![card.idx])
            &&& t.deck_offset == s.deck_offset
            &&& t.attacks@.len() == s.attacks@.len()
            &&& (forall|i: int| 0 <= i < s.attacks@.len() && i != target as int ==> #[trigger] t.attacks@[i] == s.attacks@[i])
            &&& (t.attacks@[target as int] matches Attack::ConfirmClose { open, close_idx }
                && open.idx == s.attacks@[target as int]->Open_open.idx
                && open.value@ == s.attacks@[target as int]->Open_open.value@ && close_idx == card.idx)
            &&& reveal_requested(oc, nc, s.random_id, seq![card.idx], revealed)
        }),
        Action::Forward { card } => (revealed.contains_key(card.idx) ==> exists|m: Durak, a1: Seq<Attack>,
            p2: Seq<Player>, n2: usize| forwarded_into(s, m, card.idx)
            && resumed(m, t, oc, nc, now, revealed, a1, p2, n2))
            && (!revealed.contains_key(card.idx) ==> {
            &&& t.attacks@ == s.attacks@.push(Attack::ConfirmOpen { open_idx: card.idx })
            &&& t.deck_offset == s.deck_offset
            &&& exists|mid: Seq<Player>, h: int, o: Seq<usize>| {
                &&& hand_gave(s.players@, mid, first_holder(s.players@, Role::Defender), seq![card.idx])
                &&& holds_role(mid, h, Role::Defender)
                &&& is_key_order(acting_keys(mid, h), o)
                &&& roles_assigned(mid, t.players@, unranked_of(mid, o))
            }
            &&& reveal_requested(oc, nc, s.random_id, seq![card.idx], revealed)
        }),
        Action::Take => if s.attacks@.len() < MAX_ATTACK_COUNT {
            &&& t.stage == Stage::EndOfRound
            &&& t.players == s.players && t.attacks == s.attacks && t.deck_offset == s.deck_offset
            &&& nc == oc.push(Command::ActionTimeout {
                addr: s.players@[first_holder(s.players@, Role::Defender)].addr, timeout: END_OF_ROUND_TIMEOUT_MS })
            &&& t.timeout == deadline_spec(now, END_OF_ROUND_TIMEOUT_MS)
        } else {
            s.stage != Stage::EndOfGame ==> t.attacks@.len() == 0
                && exists|d: int, mid: Seq<Player>, dealt_p: Seq<Player>| round_ended(s.players@, s.attacks@,
                    s.deck_offset, t.deck_offset, t.stage, t.players@, true, d, mid, dealt_p)
        },
        Action::Beated => s.stage != Stage::EndOfGame ==> t.attacks@.len() == 0
            && exists|d: int, mid: Seq<Player>, dealt_p: Seq<Player>| round_ended(s.players@, s.attacks@,
                s.deck_offset, t.deck_offset, t.stage, t.players@, false, d, mid, dealt_p),
    }
}

/// An accepted `action` moves cards without discarding any: cards go from a
/// hand to the table, or the table goes to the Defender and hands are
/// refilled (a successful defense, Beated, discards the table).
pub open spec fn moves_without_discard(s: Durak, action: Action, revealed: Map<usize, String>) -> bool {
    match action {
        Action::Attack { cards } => unrevealed(card_slots(cards@), revealed).len() > 0,
        Action::CoAttack { cards } => unrevealed(card_slots(cards@), revealed).len() > 0,
        Action::Defend { card, target } => !revealed.contains_key(card.idx),
        Action::Forward { card } => !revealed.contains_key(card.idx),
        Action::Take => s.stage != Stage::EndOfGame,
        Action::Beated => false,
    }
}

/// Actions whose failure leaves everything unchanged: a card action with a
/// card still to be revealed, and the concessions.
pub open spec fn action_pending(action: Action, revealed: Map<usize, String>) -> bool {
    match action {
        Action::Attack { cards } => unrevealed(card_slots(cards@), revealed).len() > 0,
        Action::CoAttack { cards } => unrevealed(card_slots(cards@), revealed).len() > 0,
        Action::Defend { card, target } => !revealed.contains_key(card.idx),
        Action::Forward { card } => !revealed.contains_key(card.idx),
        Action::Take => true,
        Action::Beated => true,
    }
}

/// The first check that `action` by `sender` fails, if any.
pub open spec fn action_check(s: Durak, sender: Seq<char>, action: Action) -> Option<Error> {
    match action {
        Action::Attack { cards } => attack_check(s, sender, cards@, false),
        Action::CoAttack { cards } => attack_check(s, sender, cards@, true),
        Action::Defend { card, target } => defend_check(s, sender, card, target),
        Action::Forward { card } => forward_check(s, sender, card),
        Action::Take => concede_check(s, sender, Role::Defender),
        Action::Beated => concede_check(s, sender, Role::Attacker),
    }
}

} // verus!
