use durak::attack::Attack;
use durak::card::{kind_to_u8, Card};
use durak::error::Error;

#[test]
fn test_is_covered_by() {
    let c1 = Card::new(0, "h2".into());
    let c2 = Card::new(1, "ha".into());
    assert_eq!(c1.is_covered_by(&c2), true);
    let c1 = Card::new(0, "d5".into());
    let c2 = Card::new(1, "dj".into());
    assert_eq!(c1.is_covered_by(&c2), true);
    let c1 = Card::new(0, "st".into());
    let c2 = Card::new(1, "sa".into());
    assert_eq!(c1.is_covered_by(&c2), true);
}

#[test]
fn rank_order_of_kinds() {
    let order = ['6', '7', '8', '9', 't', 'j', 'q', 'k', 'a'];
    for w in order.windows(2) {
        assert!(kind_to_u8(w[0]) < kind_to_u8(w[1]));
    }
    assert_eq!(kind_to_u8('a'), 14);
    assert_eq!(kind_to_u8('t'), 10);
    assert_eq!(kind_to_u8('6'), 6);
    assert_eq!(kind_to_u8('x'), 0);
}

#[test]
fn suit_and_kind_of_a_card() {
    let c = Card::new(3, "hq".into());
    assert_eq!(c.suit(), Some('h'));
    assert_eq!(c.kind(), Some('q'));
    let short = Card::new(3, "h".into());
    assert_eq!(short.suit(), Some('h'));
    assert_eq!(short.kind(), None);
    assert!(!short.is_same_kind(&short));
    assert!(Card::new(0, "s6".into()).is_same_kind(&Card::new(1, "h6".into())));
    assert!(!Card::new(0, "s6".into()).is_same_suit(&Card::new(1, "h6".into())));
}

#[test]
fn six_covered_by_jack_not_by_five() {
    let six = Card::new(0, "s6".into());
    assert!(six.is_covered_by(&Card::new(1, "sj".into())));
    assert!(!six.is_covered_by(&Card::new(1, "s5".into())));
    assert!(!six.is_covered_by(&Card::new(1, "s6".into())));
}

#[test]
fn trump_six_beats_plain_ace() {
    let trump = Card::new(35, "h9".into());
    let open = Attack::Open { open: Card::new(0, "sa".into()) };
    assert_eq!(open.can_be_closed_by(&Card::new(1, "h6".into()), &trump), Ok(true));
    let trump_open = Attack::Open { open: Card::new(0, "h6".into()) };
    assert_eq!(trump_open.can_be_closed_by(&Card::new(1, "sa".into()), &trump), Ok(false));
    assert_eq!(trump_open.can_be_closed_by(&Card::new(1, "h7".into()), &trump), Ok(true));
}

#[test]
fn different_plain_suits_never_cover() {
    let trump = Card::new(35, "h9".into());
    let open = Attack::Open { open: Card::new(0, "s6".into()) };
    assert_eq!(open.can_be_closed_by(&Card::new(1, "da".into()), &trump), Ok(false));
    let open = Attack::Open { open: Card::new(0, "da".into()) };
    assert_eq!(open.can_be_closed_by(&Card::new(1, "c6".into()), &trump), Ok(false));
}

#[test]
fn close_check_needs_an_open_entry() {
    let trump = Card::new(35, "h9".into());
    let pending = Attack::new(4);
    assert_eq!(pending.can_be_closed_by(&Card::new(1, "h6".into()), &trump), Err(Error::InvalidAttackStatus));
}

#[test]
fn attack_entry_lifecycle() {
    let mut a = Attack::new(4);
    assert!(!a.is_confirmed());
    assert_eq!(a.confirm_close("s7".into()), Err(Error::InvalidAttackStatus));
    assert_eq!(a.confirm_open("s7".into()), Ok(()));
    assert!(a.is_open() && a.is_confirmed());
    assert_eq!(a.confirm_open("s7".into()), Err(Error::InvalidAttackStatus));
    assert_eq!(a.close(&Card::new(9, "sj".into())), Ok(()));
    assert!(!a.is_confirmed());
    assert_eq!(a.close(&Card::new(9, "sj".into())), Err(Error::InvalidAttackStatus));
    assert_eq!(a.confirm_close("sj".into()), Ok(()));
    assert!(a.is_closed());
    assert_eq!(a.slot_idxs(), vec![4, 9]);
    let refs = a.card_refs();
    assert_eq!(refs.len(), 2);
    assert_eq!(refs[1].value, "sj");
    let cards = a.into_cards().unwrap();
    assert_eq!(cards[0].idx, 4);
    assert_eq!(cards[1].idx, 9);
    assert_eq!(Attack::new(1).into_cards().map(|v| v.len()), Err(Error::InvalidAttackStatus));
}
