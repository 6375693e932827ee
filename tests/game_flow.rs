use std::collections::HashMap;

use durak::attack::Attack;
use durak::card::Card;
use durak::error::Error;
use durak::deck::deck_options;
use durak::game::{Action, Command, Durak, Effects, Event, NewPlayer, Stage};
use durak::rules::{deadline, order_by_keys};
use durak::player::{Player, Role};
use durak::{ACT_TIMEOUT_MS, END_OF_ROUND_TIMEOUT_MS, RESET_TIMEOUT_MS, TRUMP_IDX};

fn fx(revealed: &[(usize, &str)]) -> Effects {
    let mut m = HashMap::new();
    for (k, v) in revealed {
        m.insert(*k, v.to_string());
    }
    Effects { timestamp: 1_000, revealed: m, commands: Vec::new() }
}

fn custom(sender: &str, action: Action) -> Event {
    Event::Custom { sender: sender.to_string(), action }
}

fn card(idx: usize, value: &str) -> Card {
    Card::new(idx, value.to_string())
}

fn player<'a>(g: &'a Durak, addr: &str) -> &'a Player {
    g.players.iter().find(|p| p.addr == addr).unwrap()
}

/// Two players seated, shuffled, trump revealed and hands dealt.
fn dealt_two_players() -> Durak {
    let mut g = Durak::new(2, 100);
    let mut e = fx(&[]);
    g.handle_event(&mut e, Event::Sync {
        new_players: vec![
            NewPlayer { addr: "alice".into(), position: 0 },
            NewPlayer { addr: "bob".into(), position: 1 },
        ],
    }).unwrap();
    assert_eq!(g.stage, Stage::Shuffling);
    g.handle_event(&mut e, Event::GameStart { random_id: 7 }).unwrap();
    g.handle_event(&mut e, Event::RandomnessReady).unwrap();
    assert_eq!(g.stage, Stage::RevealingTrump);
    let mut e = fx(&[(TRUMP_IDX, "h6")]);
    g.handle_event(&mut e, Event::SecretsReady).unwrap();
    assert_eq!(g.stage, Stage::Dealing);
    g.handle_event(&mut e, Event::SecretsReady).unwrap();
    g
}

#[test]
fn two_player_deal() {
    let g = dealt_two_players();
    assert_eq!(g.stage, Stage::Acting);
    assert_eq!(g.trump.as_ref().unwrap().value, "h6");
    assert_eq!(g.trump.as_ref().unwrap().idx, TRUMP_IDX);
    let a = player(&g, "alice");
    let b = player(&g, "bob");
    assert_eq!(a.card_idxs, vec![0, 1, 2, 3, 4, 5]);
    assert_eq!(b.card_idxs, vec![6, 7, 8, 9, 10, 11]);
    assert_eq!(a.role, Some(Role::Attacker));
    assert_eq!(b.role, Some(Role::Defender));
    assert_eq!(g.deck_offset, 12);
    assert_eq!(g.random_id, 7);
}

#[test]
fn start_and_deal_commands() {
    let mut g = Durak::new(2, 100);
    let mut e = fx(&[]);
    g.handle_event(&mut e, Event::Sync { new_players: vec![NewPlayer { addr: "alice".into(), position: 0 }] }).unwrap();
    assert_eq!(g.stage, Stage::Waiting);
    assert!(e.commands.is_empty());
    g.handle_event(&mut e, Event::Sync { new_players: vec![NewPlayer { addr: "bob".into(), position: 1 }] }).unwrap();
    assert!(matches!(e.commands.last(), Some(Command::StartGame)));
    g.handle_event(&mut e, Event::GameStart { random_id: 3 }).unwrap();
    assert!(matches!(e.commands.last(), Some(Command::AllowExit { allow: false })));
    g.handle_event(&mut e, Event::RandomnessReady).unwrap();
    match e.commands.last() {
        Some(Command::Reveal { random_id, idxs }) => {
            assert_eq!(*random_id, 3);
            assert_eq!(idxs, &vec![TRUMP_IDX]);
        }
        _ => panic!("expected a reveal request"),
    }
    let mut e = fx(&[(TRUMP_IDX, "c9")]);
    g.handle_event(&mut e, Event::SecretsReady).unwrap();
    let assigns: Vec<(String, Vec<usize>)> = e.commands.iter().filter_map(|c| match c {
        Command::Assign { addr, idxs, .. } => Some((addr.clone(), idxs.clone())),
        _ => None,
    }).collect();
    assert_eq!(assigns, vec![("alice".to_string(), vec![0, 1, 2, 3, 4, 5]), ("bob".to_string(), vec![6, 7, 8, 9, 10, 11])]);
    let mut e = fx(&[(TRUMP_IDX, "c9")]);
    g.handle_event(&mut e, Event::SecretsReady).unwrap();
    match e.commands.last() {
        Some(Command::ActionTimeout { addr, timeout }) => {
            assert_eq!(addr, "alice");
            assert_eq!(*timeout, ACT_TIMEOUT_MS);
        }
        _ => panic!("expected the attacker's timer"),
    }
    assert_eq!(g.timeout, 1_000 + ACT_TIMEOUT_MS);
}

#[test]
fn successful_defense() {
    let mut g = dealt_two_players();
    let mut e = fx(&[(TRUMP_IDX, "h6")]);
    g.handle_event(&mut e, custom("alice", Action::Attack { cards: vec![card(0, "s7")] })).unwrap();
    assert!(matches!(g.attacks[0], Attack::ConfirmOpen { open_idx: 0 }));
    assert!(matches!(e.commands.last(), Some(Command::Reveal { idxs, .. }) if idxs == &vec![0]));
    let mut e = fx(&[(TRUMP_IDX, "h6"), (0, "s7")]);
    g.handle_event(&mut e, Event::SecretsReady).unwrap();
    assert!(g.attacks[0].is_open());
    assert!(matches!(e.commands.last(), Some(Command::ActionTimeout { addr, .. }) if addr == "bob"));
    g.handle_event(&mut e, custom("bob", Action::Defend { card: card(6, "sj"), target: 0 })).unwrap();
    assert!(matches!(&g.attacks[0], Attack::ConfirmClose { close_idx: 6, .. }));
    let mut e = fx(&[(TRUMP_IDX, "h6"), (0, "s7"), (6, "sj")]);
    g.handle_event(&mut e, Event::SecretsReady).unwrap();
    assert!(g.attacks[0].is_closed());
    g.handle_event(&mut e, custom("alice", Action::Beated)).unwrap();
    assert!(g.attacks.is_empty());
    let a = player(&g, "alice");
    let b = player(&g, "bob");
    assert!(!a.card_idxs.contains(&0) && !a.card_idxs.contains(&6));
    assert!(!b.card_idxs.contains(&0) && !b.card_idxs.contains(&6));
    assert_eq!(a.card_idxs.len(), 6);
    assert_eq!(b.card_idxs.len(), 6);
    assert_eq!(g.deck_offset, 14);
    assert_eq!(b.role, Some(Role::Attacker));
    assert_eq!(a.role, Some(Role::Defender));
    assert_eq!(g.stage, Stage::Dealing);
}

#[test]
fn failed_defense() {
    let mut g = dealt_two_players();
    let mut e = fx(&[(TRUMP_IDX, "h6"), (0, "s7")]);
    g.handle_event(&mut e, custom("alice", Action::Attack { cards: vec![card(0, "s7")] })).unwrap();
    assert!(g.attacks[0].is_open());
    g.handle_event(&mut e, custom("bob", Action::Take)).unwrap();
    assert_eq!(g.stage, Stage::EndOfRound);
    match e.commands.last() {
        Some(Command::ActionTimeout { addr, timeout }) => {
            assert_eq!(addr, "bob");
            assert_eq!(*timeout, END_OF_ROUND_TIMEOUT_MS);
        }
        _ => panic!("expected the defender's timer"),
    }
    g.handle_event(&mut e, Event::ActionTimeout).unwrap();
    assert!(g.attacks.is_empty());
    let a = player(&g, "alice");
    let b = player(&g, "bob");
    assert_eq!(b.card_idxs, vec![6, 7, 8, 9, 10, 11, 0]);
    assert_eq!(a.card_idxs, vec![1, 2, 3, 4, 5, 12]);
    assert_eq!(a.role, Some(Role::Attacker));
    assert_eq!(b.role, Some(Role::Defender));
}

#[test]
fn finish_and_settlement() {
    let mut g = Durak::new(2, 250);
    let mut a = Player::new("alice".into(), 0);
    a.card_idxs = vec![20];
    a.role = Some(Role::Attacker);
    let mut b = Player::new("bob".into(), 1);
    b.card_idxs = vec![21, 22];
    b.role = Some(Role::Defender);
    g.players = vec![a, b];
    g.stage = Stage::Acting;
    g.deck_offset = TRUMP_IDX;
    g.trump = Some(card(TRUMP_IDX, "h6"));
    let mut e = fx(&[(TRUMP_IDX, "h6"), (20, "s7")]);
    g.handle_event(&mut e, custom("alice", Action::Attack { cards: vec![card(20, "s7")] })).unwrap();
    assert_eq!(player(&g, "alice").rank, Some(0));
    assert_eq!(player(&g, "bob").rank, None);
    assert_eq!(g.num_of_finished, 1);
    assert_eq!(g.stage, Stage::EndOfGame);
    let c = &e.commands;
    assert!(matches!(&c[0], Command::SettleAdd { addr, amount: 250 } if addr == "alice"));
    assert!(matches!(&c[1], Command::SettleSub { addr, amount: 250 } if addr == "bob"));
    assert!(matches!(&c[2], Command::SettleEject { addr } if addr == "alice"));
    assert!(matches!(&c[3], Command::SettleEject { addr } if addr == "bob"));
    assert!(matches!(&c[4], Command::Checkpoint));
    assert!(matches!(&c[5], Command::WaitTimeout { timeout } if *timeout == RESET_TIMEOUT_MS));
    assert_eq!(c.len(), 6);
}

#[test]
fn reveal_of_revealed_slot_is_not_requested_again() {
    let mut g = dealt_two_players();
    let mut e = fx(&[(TRUMP_IDX, "h6"), (0, "s7")]);
    g.handle_event(&mut e, custom("alice", Action::Attack { cards: vec![card(0, "s7")] })).unwrap();
    let before = e.revealed.clone();
    assert!(!e.commands.iter().any(|c| matches!(c, Command::Reveal { .. })));
    g.reveal_cards_or_update_attacks(vec![0, 0], &mut e).unwrap();
    assert!(!e.commands.iter().any(|c| matches!(c, Command::Reveal { .. })));
    assert_eq!(e.revealed, before);
    g.reveal_cards_or_update_attacks(vec![0, 9, 0, 10], &mut e).unwrap();
    assert!(matches!(e.commands.last(), Some(Command::Reveal { idxs, .. }) if idxs == &vec![9, 10]));
}

#[test]
fn attack_rejections() {
    let mut g = dealt_two_players();
    let mut e = fx(&[(TRUMP_IDX, "h6")]);
    assert_eq!(g.handle_event(&mut e, custom("bob", Action::Attack { cards: vec![card(6, "s7")] })), Err(Error::PlayerIsNotAttacker));
    assert_eq!(g.handle_event(&mut e, custom("alice", Action::Attack { cards: vec![card(9, "s7")] })), Err(Error::InvalidCardIndex(9)));
    assert_eq!(player(&g, "alice").card_idxs.len(), 6);
    let many: Vec<Card> = (0..7).map(|i| card(i, "s7")).collect();
    assert_eq!(g.handle_event(&mut e, custom("alice", Action::Attack { cards: many })), Err(Error::NoAttackSpace(6, 7)));
    assert_eq!(g.handle_event(&mut e, custom("alice", Action::CoAttack { cards: vec![card(1, "s8")] })), Err(Error::NoPlayerFoundByRole(Role::CoAttacker)));
    let mut e = fx(&[(TRUMP_IDX, "h6"), (0, "s7")]);
    g.handle_event(&mut e, custom("alice", Action::Attack { cards: vec![card(0, "s7")] })).unwrap();
    assert_eq!(g.handle_event(&mut e, custom("alice", Action::Attack { cards: vec![card(1, "s8")] })), Err(Error::NotValidAttackCard));
    assert_eq!(g.attacks.len(), 1);
    assert_eq!(g.handle_event(&mut e, custom("alice", Action::Take)), Err(Error::PlayerIsNotDefender));
    assert_eq!(g.handle_event(&mut e, custom("bob", Action::Beated)), Err(Error::PlayerIsNotAttacker));
}

#[test]
fn cant_attack_outside_play() {
    let mut g = Durak::new(2, 1);
    let mut d = Player::new("bob".into(), 1);
    d.role = Some(Role::Defender);
    d.card_idxs = vec![1];
    g.players = vec![d];
    let mut e = fx(&[]);
    assert_eq!(g.handle_action(&mut e, "alice".into(), Action::Attack { cards: vec![] }), Err(Error::CantAttack));
    g.players.clear();
    assert_eq!(g.handle_action(&mut e, "alice".into(), Action::Attack { cards: vec![] }), Err(Error::NoPlayerFoundByRole(Role::Defender)));
}

#[test]
fn defend_rejections() {
    let mut g = dealt_two_players();
    let mut e = fx(&[(TRUMP_IDX, "h6"), (0, "s7"), (1, "s8")]);
    g.handle_event(&mut e, custom("alice", Action::Attack { cards: vec![card(0, "s7")] })).unwrap();
    assert_eq!(g.handle_event(&mut e, custom("alice", Action::Defend { card: card(6, "sj"), target: 0 })), Err(Error::PlayerIsNotDefender));
    assert_eq!(g.handle_event(&mut e, custom("bob", Action::Defend { card: card(1, "sj"), target: 0 })), Err(Error::InvalidCardIndex(1)));
    assert_eq!(g.handle_event(&mut e, custom("bob", Action::Defend { card: card(6, "sj"), target: 3 })), Err(Error::InvalidAttackIndex(3)));
    assert_eq!(g.handle_event(&mut e, custom("bob", Action::Defend { card: card(6, "s6"), target: 0 })), Err(Error::InvalidDefendCard));
    assert_eq!(g.handle_event(&mut e, custom("bob", Action::Defend { card: card(6, "d9"), target: 0 })), Err(Error::InvalidDefendCard));
    assert_eq!(player(&g, "bob").card_idxs.len(), 6);
    g.handle_event(&mut e, custom("bob", Action::Defend { card: card(6, "h7"), target: 0 })).unwrap();
    assert!(matches!(e.commands.last(), Some(Command::Reveal { idxs, .. }) if idxs == &vec![6]));
    assert_eq!(g.handle_event(&mut e, custom("bob", Action::Defend { card: card(7, "h8"), target: 0 })), Err(Error::InvalidAttackStatus));
    assert_eq!(g.handle_event(&mut e, custom("alice", Action::Beated)), Err(Error::UnconfirmedCard));
    g.stage = Stage::EndOfRound;
    assert_eq!(g.handle_event(&mut e, custom("bob", Action::Defend { card: card(7, "h8"), target: 0 })), Err(Error::CantDefend));
    g.stage = Stage::Acting;
    g.trump = None;
    assert_eq!(g.handle_event(&mut e, custom("bob", Action::Defend { card: card(7, "h8"), target: 0 })), Err(Error::NoTrump));
}

#[test]
fn forward_passes_the_attack() {
    let mut g = Durak::new(3, 10);
    let mut e = fx(&[]);
    g.handle_event(&mut e, Event::Sync {
        new_players: vec![
            NewPlayer { addr: "a".into(), position: 0 },
            NewPlayer { addr: "b".into(), position: 1 },
            NewPlayer { addr: "c".into(), position: 2 },
        ],
    }).unwrap();
    g.handle_event(&mut e, Event::GameStart { random_id: 1 }).unwrap();
    g.handle_event(&mut e, Event::RandomnessReady).unwrap();
    assert_eq!(player(&g, "c").role, Some(Role::CoAttacker));
    let mut e = fx(&[(TRUMP_IDX, "h6")]);
    g.handle_event(&mut e, Event::SecretsReady).unwrap();
    g.handle_event(&mut e, Event::SecretsReady).unwrap();
    let mut e = fx(&[(TRUMP_IDX, "h6"), (0, "s7"), (6, "d7"), (7, "d8")]);
    assert_eq!(g.handle_event(&mut e, custom("b", Action::Forward { card: card(6, "d7") })), Err(Error::InvalidForwardCard));
    g.handle_event(&mut e, custom("a", Action::Attack { cards: vec![card(0, "s7")] })).unwrap();
    assert_eq!(g.handle_event(&mut e, custom("b", Action::Forward { card: card(7, "d8") })), Err(Error::InvalidForwardCard));
    assert_eq!(g.handle_event(&mut e, custom("a", Action::Forward { card: card(6, "d7") })), Err(Error::PlayerIsNotDefender));
    g.handle_event(&mut e, custom("b", Action::Forward { card: card(6, "d7") })).unwrap();
    assert_eq!(g.attacks.len(), 2);
    assert_eq!(player(&g, "b").role, Some(Role::Attacker));
    assert_eq!(player(&g, "c").role, Some(Role::Defender));
    assert_eq!(player(&g, "a").role, Some(Role::CoAttacker));
    assert!(!player(&g, "b").card_idxs.contains(&6));
    g.handle_event(&mut e, custom("c", Action::Defend { card: card(12, "dj"), target: 1 })).unwrap();
    assert_eq!(g.handle_event(&mut e, custom("c", Action::Forward { card: card(13, "c7") })), Err(Error::CantForward));
    assert_eq!(g.handle_event(&mut e, custom("a", Action::CoAttack { cards: vec![card(1, "s7")] })), Err(Error::NotValidAttackCard));
}

#[test]
fn stage_errors() {
    let mut g = Durak::new(2, 1);
    let mut e = fx(&[]);
    assert_eq!(g.handle_event(&mut e, Event::SecretsReady), Err(Error::InvalidStage(Stage::Waiting)));
    assert_eq!(g.handle_event(&mut e, Event::ActionTimeout), Err(Error::InvalidStage(Stage::Waiting)));
    g.stage = Stage::RevealingTrump;
    assert_eq!(g.handle_event(&mut e, Event::SecretsReady), Err(Error::TrumpNotRevealed));
    assert_eq!(g.handle_event(&mut e, Event::Other), Ok(()));
}

#[test]
fn unrevealed_pending_card_is_reported() {
    let mut g = dealt_two_players();
    let mut e = fx(&[(TRUMP_IDX, "h6")]);
    g.handle_event(&mut e, custom("alice", Action::Attack { cards: vec![card(0, "s7")] })).unwrap();
    assert_eq!(g.handle_event(&mut e, Event::SecretsReady), Err(Error::UnexpectedUnrevealedCard(0)));
    assert!(matches!(g.attacks[0], Attack::ConfirmOpen { open_idx: 0 }));
}

#[test]
fn settlement_needs_players() {
    let mut g = Durak::new(2, 1);
    let mut e = fx(&[]);
    assert_eq!(g.settle_game(&mut e), Err(Error::EmptyPlayers));
    assert!(e.commands.is_empty());
}

#[test]
fn leave_and_reset() {
    let mut g = Durak::new(3, 1);
    let mut e = fx(&[]);
    g.handle_event(&mut e, Event::Sync { new_players: vec![NewPlayer { addr: "a".into(), position: 0 }, NewPlayer { addr: "b".into(), position: 1 }] }).unwrap();
    g.handle_event(&mut e, Event::Leave { player_addr: "a".into() }).unwrap();
    assert_eq!(g.players.len(), 1);
    assert!(matches!(&e.commands[0], Command::SettleEject { addr } if addr == "a"));
    assert!(matches!(&e.commands[1], Command::Checkpoint));
    g.handle_event(&mut e, Event::Sync { new_players: vec![NewPlayer { addr: "b".into(), position: 2 }] }).unwrap();
    assert_eq!(g.players.len(), 1);
    assert_eq!(g.players[0].position, 2);
    g.stage = Stage::EndOfGame;
    g.handle_event(&mut e, Event::WaitingTimeout).unwrap();
    assert_eq!(g.stage, Stage::Waiting);
    assert!(g.players.is_empty());
    assert!(matches!(e.commands.last(), Some(Command::AllowExit { allow: true })));
}

#[test]
fn end_round_with_full_table_collects_at_once() {
    let mut g = dealt_two_players();
    let cards: Vec<Card> = (0..6).map(|i| card(i, "s7")).collect();
    let rev: Vec<(usize, &str)> = vec![(TRUMP_IDX, "h6"), (0, "s7"), (1, "s7"), (2, "s7"), (3, "s7"), (4, "s7"), (5, "s7")];
    let mut e = fx(&rev);
    g.handle_event(&mut e, custom("alice", Action::Attack { cards })).unwrap();
    assert_eq!(g.attacks.len(), 6);
    g.handle_event(&mut e, custom("bob", Action::Take)).unwrap();
    assert!(g.attacks.is_empty());
    assert_eq!(player(&g, "bob").card_idxs.len(), 12);
    assert_eq!(player(&g, "alice").card_idxs, vec![12, 13, 14, 15, 16, 17]);
}

#[test]
fn deal_stops_at_the_trump_slot() {
    let mut g = Durak::new(2, 1);
    let mut a = Player::new("a".into(), 0);
    a.role = Some(Role::Attacker);
    let mut b = Player::new("b".into(), 1);
    b.role = Some(Role::Defender);
    g.players = vec![a, b];
    g.deck_offset = 30;
    let mut e = fx(&[]);
    g.deal_cards(&mut e).unwrap();
    assert_eq!(g.deck_offset, TRUMP_IDX);
    assert_eq!(g.players[0].card_idxs, vec![30, 31, 32, 33, 34]);
    assert!(g.players[1].card_idxs.is_empty());
    assert_eq!(g.stage, Stage::Dealing);
}

#[test]
fn acting_order_wraps_from_the_holder() {
    let mut g = Durak::new(4, 1);
    for (name, pos) in [("w", 3u16), ("x", 0), ("y", 2), ("z", 1)] {
        g.add_player(name.into(), pos);
    }
    g.players[2].role = Some(Role::Defender);
    assert_eq!(g.players_in_acting_order_mut(Role::Defender).unwrap(), vec![2, 0, 1, 3]);
    assert_eq!(g.players_in_position_order_mut(), vec![1, 3, 2, 0]);
    assert_eq!(g.players_in_acting_order_mut(Role::Attacker), Err(Error::NoPlayerFoundByRole(Role::Attacker)));
    g.players[0].rank = Some(1);
    g.players[3].rank = Some(0);
    assert_eq!(g.players_in_rank_order(), vec![3, 0, 1, 2]);
}

#[test]
fn rotation_skips_finished_players() {
    let mut g = Durak::new(4, 1);
    for (name, pos) in [("a", 0u16), ("b", 1), ("c", 2), ("d", 3)] {
        g.add_player(name.into(), pos);
    }
    g.init_roles();
    assert_eq!(g.players[0].role, Some(Role::Attacker));
    assert_eq!(g.players[1].role, Some(Role::Defender));
    assert_eq!(g.players[2].role, Some(Role::CoAttacker));
    assert_eq!(g.players[3].role, None);
    g.players[2].rank = Some(0);
    g.rotate_roles(false).unwrap();
    g.remove_roles_for_escaped_players();
    assert_eq!(g.players[1].role, Some(Role::Attacker));
    assert_eq!(g.players[3].role, Some(Role::Defender));
    assert_eq!(g.players[0].role, Some(Role::CoAttacker));
    assert_eq!(g.players[2].role, None);
}

#[test]
fn escaped_players_get_ranks_in_acting_order() {
    let mut g = Durak::new(3, 1);
    for (name, pos) in [("a", 0u16), ("b", 1), ("c", 2)] {
        g.add_player(name.into(), pos);
    }
    g.players[1].role = Some(Role::Attacker);
    g.players[0].card_idxs = vec![];
    g.players[1].card_idxs = vec![3];
    g.players[2].card_idxs = vec![];
    g.update_escaped_players().unwrap();
    assert_eq!(g.players[0].rank, None);
    g.deck_offset = TRUMP_IDX;
    g.update_escaped_players().unwrap();
    assert_eq!(g.players[2].rank, Some(0));
    assert_eq!(g.players[0].rank, Some(1));
    assert_eq!(g.players[1].rank, None);
    assert_eq!(g.num_of_finished, 2);
    g.update_escaped_players().unwrap();
    assert_eq!(g.players[2].rank, Some(0));
    assert_eq!(g.num_of_finished, 2);
}

#[test]
fn helpers() {
    let deck = deck_options();
    assert_eq!(deck.len(), 36);
    assert_eq!(deck[0], "sa");
    assert_eq!(deck[5], "hk");
    assert_eq!(deck[35], "c6");
    assert_eq!(order_by_keys(&vec![5, 1, 5, 0]), vec![3, 1, 0, 2]);
    assert_eq!(order_by_keys(&vec![]), Vec::<usize>::new());
    assert_eq!(deadline(5, 10), 15);
    assert_eq!(deadline(u64::MAX - 1, 10), u64::MAX);
}

#[test]
fn queries() {
    let g = dealt_two_players();
    assert_eq!(g.can_attack(), Ok(true));
    assert_eq!(g.can_defend(), Ok(true));
    assert_eq!(g.is_fully_defended(), Ok(false));
    assert_eq!(g.is_trump_suit(&card(1, "h9")), Ok(true));
    assert_eq!(g.is_trump_suit(&card(1, "s9")), Ok(false));
    assert_eq!(g.get_player_by_role(Role::Defender).unwrap().addr, "bob");
    assert!(g.get_attack(0).is_err());
    assert!(g.is_all_attacks_confirmed());
    let fresh = Durak::new(2, 1);
    assert_eq!(fresh.get_trump().map(|c| c.idx), Err(Error::NoTrump));
    assert_eq!(fresh.is_trump_suit(&card(1, "h9")), Err(Error::NoTrump));
}

fn placement_counts(g: &Durak) -> Vec<usize> {
    let mut counts = vec![0usize; 36];
    for p in &g.players {
        for i in &p.card_idxs {
            counts[*i] += 1;
        }
    }
    for a in &g.attacks {
        for i in a.slot_idxs() {
            counts[i] += 1;
        }
    }
    for i in g.deck_offset..36 {
        counts[i] += 1;
    }
    counts
}

#[test]
fn every_slot_in_one_place() {
    let mut g = dealt_two_players();
    assert!(placement_counts(&g).iter().all(|c| *c == 1));
    let mut e = fx(&[(TRUMP_IDX, "h6"), (0, "s7"), (1, "h7")]);
    g.handle_event(&mut e, custom("alice", Action::Attack { cards: vec![card(0, "s7"), card(1, "h7")] })).unwrap();
    assert_eq!(g.attacks.len(), 2);
    assert!(placement_counts(&g).iter().all(|c| *c == 1));
    g.handle_event(&mut e, custom("bob", Action::Take)).unwrap();
    g.handle_event(&mut e, Event::ActionTimeout).unwrap();
    assert!(placement_counts(&g).iter().all(|c| *c == 1));
}

#[test]
fn roles_unique_after_a_round() {
    let mut g = Durak::new(4, 10);
    let mut e = fx(&[]);
    g.handle_event(&mut e, Event::Sync {
        new_players: vec![
            NewPlayer { addr: "a".into(), position: 0 },
            NewPlayer { addr: "b".into(), position: 1 },
            NewPlayer { addr: "c".into(), position: 2 },
            NewPlayer { addr: "d".into(), position: 3 },
        ],
    }).unwrap();
    g.handle_event(&mut e, Event::GameStart { random_id: 1 }).unwrap();
    g.handle_event(&mut e, Event::RandomnessReady).unwrap();
    let mut e = fx(&[(TRUMP_IDX, "h6"), (0, "s7")]);
    g.handle_event(&mut e, Event::SecretsReady).unwrap();
    g.handle_event(&mut e, Event::SecretsReady).unwrap();
    g.handle_event(&mut e, custom("a", Action::Attack { cards: vec![card(0, "s7")] })).unwrap();
    g.handle_event(&mut e, custom("b", Action::Take)).unwrap();
    g.handle_event(&mut e, Event::ActionTimeout).unwrap();
    for role in [Role::Attacker, Role::Defender, Role::CoAttacker] {
        assert_eq!(g.players.iter().filter(|p| p.role == Some(role)).count(), 1);
    }
    assert_eq!(player(&g, "c").role, Some(Role::Attacker));
    assert_eq!(player(&g, "d").role, Some(Role::Defender));
    assert_eq!(player(&g, "a").role, Some(Role::CoAttacker));
    assert_eq!(player(&g, "b").role, None);
}

#[test]
fn timeout_on_open_table_gives_attackers_a_window() {
    let mut g = dealt_two_players();
    let mut e = fx(&[(TRUMP_IDX, "h6"), (0, "s7")]);
    g.handle_event(&mut e, custom("alice", Action::Attack { cards: vec![card(0, "s7")] })).unwrap();
    g.handle_event(&mut e, Event::ActionTimeout).unwrap();
    assert_eq!(g.stage, Stage::EndOfRound);
    assert_eq!(g.attacks.len(), 1);
    match e.commands.last() {
        Some(Command::ActionTimeout { addr, timeout }) => {
            assert_eq!(addr, "alice");
            assert_eq!(*timeout, END_OF_ROUND_TIMEOUT_MS);
        }
        _ => panic!("expected the attacker's timer"),
    }
    assert_eq!(g.timeout, 1_000 + END_OF_ROUND_TIMEOUT_MS);
}

#[test]
fn rotation_with_two_left_of_three() {
    let mut g = Durak::new(3, 1);
    for (name, pos) in [("a", 0u16), ("b", 1), ("c", 2)] {
        g.add_player(name.into(), pos);
    }
    g.players[0].role = Some(Role::Attacker);
    g.players[1].role = Some(Role::Defender);
    g.players[2].rank = Some(0);
    g.rotate_roles(true).unwrap();
    assert_eq!(g.players[0].role, Some(Role::Attacker));
    assert_eq!(g.players[1].role, Some(Role::Defender));
    assert_eq!(g.players[2].role, None);
    g.rotate_roles(false).unwrap();
    assert_eq!(g.players[1].role, Some(Role::Attacker));
    assert_eq!(g.players[0].role, Some(Role::Defender));
}

#[test]
fn failed_round_end_changes_nothing() {
    let mut g = dealt_two_players();
    g.attacks.push(Attack::Open { open: card(0, "s7") });
    g.players[0].card_idxs.retain(|i| *i != 0);
    g.stage = Stage::EndOfRound;
    g.players[1].role = None;
    let mut e = fx(&[]);
    assert_eq!(g.end_round(true, &mut e), Err(Error::NoPlayerFoundByRole(Role::Defender)));
    assert_eq!(g.attacks.len(), 1);
    assert_eq!(g.players[1].card_idxs.len(), 6);
    assert_eq!(g.deck_offset, 12);
    assert!(e.commands.is_empty());
}

#[test]
fn forward_respects_table_capacity() {
    let mut g = dealt_two_players();
    for i in 0..6 {
        g.attacks.push(Attack::Open { open: card(20 + i, "s7") });
    }
    let mut e = fx(&[]);
    assert_eq!(g.handle_event(&mut e, custom("bob", Action::Forward { card: card(6, "d7") })), Err(Error::CantForward));
    assert!(e.commands.is_empty());
}

#[test]
fn escaped_players_bound_fails_without_change() {
    let mut g = Durak::new(2, 1);
    g.add_player("a".into(), 0);
    g.add_player("b".into(), 1);
    g.players[0].role = Some(Role::Attacker);
    g.deck_offset = TRUMP_IDX;
    g.num_of_finished = 254;
    assert_eq!(g.update_escaped_players(), Err(Error::InvalidNumOfPlayers));
    assert_eq!(g.players[0].rank, None);
    assert_eq!(g.num_of_finished, 254);
}

#[test]
fn collector_does_not_attack_next_when_attacker_finished() {
    let mut g = Durak::new(3, 1);
    for (name, pos) in [("a", 0u16), ("b", 1), ("c", 2)] {
        g.add_player(name.into(), pos);
    }
    g.players[0].role = Some(Role::Attacker);
    g.players[0].rank = Some(0);
    g.players[1].role = Some(Role::Defender);
    g.players[2].role = Some(Role::CoAttacker);
    g.rotate_roles(true).unwrap();
    g.remove_roles_for_escaped_players();
    assert_eq!(g.players[2].role, Some(Role::Attacker));
    assert_eq!(g.players[1].role, Some(Role::Defender));
    assert_eq!(g.players[0].role, None);
}

#[test]
fn events_outside_their_stage_are_refused() {
    let mut g = dealt_two_players();
    let mut e = fx(&[(TRUMP_IDX, "s6")]);
    assert_eq!(g.handle_event(&mut e, Event::RandomnessReady), Err(Error::InvalidStage(Stage::Acting)));
    assert_eq!(g.handle_event(&mut e, Event::GameStart { random_id: 9 }), Err(Error::InvalidStage(Stage::Acting)));
    assert_eq!(g.handle_event(&mut e, Event::Sync { new_players: vec![NewPlayer { addr: "carol".into(), position: 2 }] }),
        Err(Error::InvalidStage(Stage::Acting)));
    assert_eq!(g.handle_event(&mut e, Event::Leave { player_addr: "bob".into() }), Err(Error::InvalidStage(Stage::Acting)));
    assert!(e.commands.is_empty());
    assert_eq!(g.players.len(), 2);
    assert_eq!(g.trump.as_ref().unwrap().value, "h6");
    g.stage = Stage::RevealingTrump;
    assert_eq!(g.handle_event(&mut e, Event::SecretsReady), Err(Error::InvalidStage(Stage::RevealingTrump)));
    assert_eq!(g.trump.as_ref().unwrap().value, "h6");
}

#[test]
fn roster_must_fit_the_table_to_start() {
    let mut g = Durak::new(2, 1);
    let mut e = fx(&[]);
    g.handle_event(&mut e, Event::Sync { new_players: vec![
        NewPlayer { addr: "a".into(), position: 0 },
        NewPlayer { addr: "b".into(), position: 7 },
    ] }).unwrap();
    assert_eq!(g.stage, Stage::Waiting);
    assert!(e.commands.is_empty());
}

#[test]
fn revealed_closing_card_must_cover() {
    let mut g = dealt_two_players();
    let mut e = fx(&[(TRUMP_IDX, "h6"), (0, "s7")]);
    g.handle_event(&mut e, custom("alice", Action::Attack { cards: vec![card(0, "s7")] })).unwrap();
    g.handle_event(&mut e, custom("bob", Action::Defend { card: card(6, "sj"), target: 0 })).unwrap();
    let mut e = fx(&[(TRUMP_IDX, "h6"), (0, "s7"), (6, "d8")]);
    assert_eq!(g.handle_event(&mut e, Event::SecretsReady), Err(Error::InvalidDefendCard));
    assert!(matches!(&g.attacks[0], Attack::ConfirmClose { close_idx: 6, .. }));
}

#[test]
fn attack_with_revealed_card_resumes_at_once() {
    let mut g = dealt_two_players();
    let mut e = fx(&[(TRUMP_IDX, "h6"), (0, "s7")]);
    g.handle_event(&mut e, custom("alice", Action::Attack { cards: vec![card(0, "s7")] })).unwrap();
    assert!(g.attacks[0].is_open());
    assert!(!e.commands.iter().any(|c| matches!(c, Command::Reveal { .. })));
    assert!(matches!(e.commands.last(), Some(Command::ActionTimeout { addr, .. }) if addr == "bob"));
    assert!(!player(&g, "alice").card_idxs.contains(&0));
}

#[test]
fn forward_with_revealed_card_resumes_at_once() {
    let mut g = Durak::new(3, 10);
    let mut e = fx(&[]);
    g.handle_event(&mut e, Event::Sync {
        new_players: vec![
            NewPlayer { addr: "a".into(), position: 0 },
            NewPlayer { addr: "b".into(), position: 1 },
            NewPlayer { addr: "c".into(), position: 2 },
        ],
    }).unwrap();
    g.handle_event(&mut e, Event::GameStart { random_id: 1 }).unwrap();
    g.handle_event(&mut e, Event::RandomnessReady).unwrap();
    let mut e = fx(&[(TRUMP_IDX, "h6")]);
    g.handle_event(&mut e, Event::SecretsReady).unwrap();
    g.handle_event(&mut e, Event::SecretsReady).unwrap();
    let mut e = fx(&[(TRUMP_IDX, "h6"), (0, "s7"), (6, "d7")]);
    g.handle_event(&mut e, custom("a", Action::Attack { cards: vec![card(0, "s7")] })).unwrap();
    let before = e.commands.len();
    g.handle_event(&mut e, custom("b", Action::Forward { card: card(6, "d7") })).unwrap();
    assert!(g.attacks[1].is_open());
    assert!(!e.commands[before..].iter().any(|c| matches!(c, Command::Reveal { .. })));
    assert_eq!(player(&g, "b").role, Some(Role::Attacker));
    assert_eq!(player(&g, "c").role, Some(Role::Defender));
}
