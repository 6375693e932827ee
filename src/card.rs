//! Cards: deck slot, face value, suit, kind and rank.

use vstd::prelude::*;

verus! {

/// Rank of a card kind character: `6` < ... < `9` < `t` < `j` < `q` < `k` < `a`.
/// A digit ranks as its value; any other character ranks 0.
pub open spec fn kind_rank(k: char) -> u8 {
    if k == 'a' {
        14
    } else if k == 'k' {
        13
    } else if k == 'q' {
        12
    } else if k == 'j' {
        11
    } else if k == 't' {
        10
    } else if k == '0' {
        0
    } else if k == '1' {
        1
    } else if k == '2' {
        2
    } else if k == '3' {
        3
    } else if k == '4' {
        4
    } else if k == '5' {
        5
    } else if k == '6' {
        6
    } else if k == '7' {
        7
    } else if k == '8' {
        8
    } else if k == '9' {
        9
    } else {
        0
    }
}

/// The suit of a face value: its first character.
pub open spec fn suit_of(v: Seq<char>) -> Option<char> {
    if v.len() >= 1 {
        Some(v[0])
    } else {
        None
    }
}

/// The kind of a face value: its second character.
pub open spec fn kind_of(v: Seq<char>) -> Option<char> {
    if v.len() >= 2 {
        Some(v[1])
    } else {
        None
    }
}

/// Two face values share a suit.
pub open spec fn same_suit(a: Seq<char>, b: Seq<char>) -> bool {
    suit_of(a) is Some && suit_of(a) == suit_of(b)
}

/// Two face values share a kind.
pub open spec fn same_kind(a: Seq<char>, b: Seq<char>) -> bool {
    kind_of(a) is Some && kind_of(a) == kind_of(b)
}

/// `b` covers `a`: same suit and strictly higher rank.
pub open spec fn covered_by(a: Seq<char>, b: Seq<char>) -> bool {
    &&& same_suit(a, b)
    &&& kind_of(a) is Some
    &&& kind_of(b) is Some
    &&& kind_rank(kind_of(a)->0) < kind_rank(kind_of(b)->0)
}

/// Rank of a kind character.
pub fn kind_to_u8(k: char) -> (r: u8)
    ensures
        r == kind_rank(k),
{
    match k {
        'a' => 14,
        'k' => 13,
        'q' => 12,
        'j' => 11,
        't' => 10,
        '0' => 0,
        '1' => 1,
        '2' => 2,
        '3' => 3,
        '4' => 4,
        '5' => 5,
        '6' => 6,
        '7' => 7,
        '8' => 8,
        '9' => 9,
        _ => 0,
    }
}

/// A card: its slot in the shuffled deck and, once revealed, its face value
/// (suit character followed by kind character, e.g. `"sa"`).
#[derive(Clone, Debug)]
pub struct Card {
    pub idx: usize,
    pub value: String,
}

impl Card {
    pub fn new(idx: usize, value: String) -> (r: Card)
        ensures
            r.idx == idx,
            r.value@ == value@,
    {
        Card { idx, value }
    }

    /// A copy with the same slot and face value.
    pub fn duplicate(&self) -> (r: Card)
        ensures
            r.idx == self.idx,
            r.value@ == self.value@,
    {
        Card { idx: self.idx, value: self.value.clone() }
    }

    pub fn suit(&self) -> (r: Option<char>)
        ensures
            r == suit_of(self.value@),
    {
        let s = self.value.as_str();
        if s.unicode_len() >= 1 {
            Some(s.get_char(0))
        } else {
            None
        }
    }

    pub fn kind(&self) -> (r: Option<char>)
        ensures
            r == kind_of(self.value@),
    {
        let s = self.value.as_str();
        if s.unicode_len() >= 2 {
            Some(s.get_char(1))
        } else {
            None
        }
    }

    pub fn is_same_suit(&self, other: &Card) -> (r: bool)
        ensures
            r == same_suit(self.value@, other.value@),
    {
        match (self.suit(), other.suit()) {
            (Some(a), Some(b)) => a == b,
            _ => false,
        }
    }

    pub fn is_same_kind(&self, other: &Card) -> (r: bool)
        ensures
            r == same_kind(self.value@, other.value@),
    {
        match (self.kind(), other.kind()) {
            (Some(a), Some(b)) => a == b,
            _ => false,
        }
    }

    /// Whether `card` covers this card: same suit and strictly higher rank.
    pub fn is_covered_by(&self, card: &Card) -> (r: bool)
        ensures
            r == covered_by(self.value@, card.value@),
    {
        match (self.kind(), card.kind()) {
            (Some(a), Some(b)) => self.is_same_suit(card) && kind_to_u8(a) < kind_to_u8(b),
            _ => false,
        }
    }
}

} // verus!
