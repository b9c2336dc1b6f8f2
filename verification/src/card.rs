//! The nine card ranks.

use vstd::prelude::*;

verus! {

/// One of the nine ranks, from `Six` (lowest) to `Tits` (highest).
#[derive(Clone, Copy, PartialEq, Eq, Debug, Hash, Structural)]
pub enum Card {
    Tits,
    King,
    Diva,
    Viva,
    Ten,
    Nine,
    Eight,
    Seven,
    Six,
}

/// How many ranks there are.
pub const RANKS: usize = 9;

impl Card {
    /// The position of the rank in the order of the ranks, `0` for `Six` up to
    /// `8` for `Tits`.
    pub open spec fn spec_rank(self) -> nat {
        match self {
            Card::Six => 0,
            Card::Seven => 1,
            Card::Eight => 2,
            Card::Nine => 3,
            Card::Ten => 4,
            Card::Viva => 5,
            Card::Diva => 6,
            Card::King => 7,
            Card::Tits => 8,
        }
    }

    /// The character a rank is written with.
    pub open spec fn spec_to_char(self) -> char {
        match self {
            Card::Six => '6',
            Card::Seven => '7',
            Card::Eight => '8',
            Card::Nine => '9',
            Card::Ten => '0',
            Card::Viva => 'V',
            Card::Diva => 'D',
            Card::King => 'K',
            Card::Tits => 'T',
        }
    }

    /// The rank a character is read as: the character the rank is written
    /// with, a face card's letter in lower case, and `'1'` for the ten.
    pub open spec fn spec_from_char(value: char) -> Option<Card> {
        if value == 't' || value == 'T' {
            Some(Card::Tits)
        } else if value == 'k' || value == 'K' {
            Some(Card::King)
        } else if value == 'd' || value == 'D' {
            Some(Card::Diva)
        } else if value == 'v' || value == 'V' {
            Some(Card::Viva)
        } else if value == '0' || value == '1' {
            Some(Card::Ten)
        } else if value == '9' {
            Some(Card::Nine)
        } else if value == '8' {
            Some(Card::Eight)
        } else if value == '7' {
            Some(Card::Seven)
        } else if value == '6' {
            Some(Card::Six)
        } else {
            None
        }
    }

    /// The card with the given position in the order of the ranks.
    pub open spec fn spec_from_rank(rank: nat) -> Card {
        if rank == 0 {
            Card::Six
        } else if rank == 1 {
            Card::Seven
        } else if rank == 2 {
            Card::Eight
        } else if rank == 3 {
            Card::Nine
        } else if rank == 4 {
            Card::Ten
        } else if rank == 5 {
            Card::Viva
        } else if rank == 6 {
            Card::Diva
        } else if rank == 7 {
            Card::King
        } else {
            Card::Tits
        }
    }

    /// The position of the rank in the order of the ranks.
    pub fn rank(self) -> (r: usize)
        ensures
            r == self.spec_rank(),
            r < RANKS,
    {
        match self {
            Card::Six => 0,
            Card::Seven => 1,
            Card::Eight => 2,
            Card::Nine => 3,
            Card::Ten => 4,
            Card::Viva => 5,
            Card::Diva => 6,
            Card::King => 7,
            Card::Tits => 8,
        }
    }

    /// The card with the given rank, if there is one.
    pub fn from_rank(rank: usize) -> (r: Option<Card>)
        ensures
            rank < RANKS ==> r == Some(Card::spec_from_rank(rank as nat)),
            rank >= RANKS ==> r.is_none(),
    {
        match rank {
            0 => Some(Card::Six),
            1 => Some(Card::Seven),
            2 => Some(Card::Eight),
            3 => Some(Card::Nine),
            4 => Some(Card::Ten),
            5 => Some(Card::Viva),
            6 => Some(Card::Diva),
            7 => Some(Card::King),
            8 => Some(Card::Tits),
            _ => None,
        }
    }

    /// Reads a rank from a character.
    pub fn from_char(value: char) -> (r: Option<Card>)
        ensures
            r == Card::spec_from_char(value),
    {
        match value {
            't' | 'T' => Some(Card::Tits),
            'k' | 'K' => Some(Card::King),
            'd' | 'D' => Some(Card::Diva),
            'v' | 'V' => Some(Card::Viva),
            '0' | '1' => Some(Card::Ten),
            '9' => Some(Card::Nine),
            '8' => Some(Card::Eight),
            '7' => Some(Card::Seven),
            '6' => Some(Card::Six),
            _ => None,
        }
    }

    /// The character a rank is written with.
    pub fn to_char(&self) -> (c: char)
        ensures
            c == self.spec_to_char(),
    {
        match self {
            Card::Tits => 'T',
            Card::King => 'K',
            Card::Diva => 'D',
            Card::Viva => 'V',
            Card::Ten => '0',
            Card::Nine => '9',
            Card::Eight => '8',
            Card::Seven => '7',
            Card::Six => '6',
        }
    }
}

/// Reading the character a rank is written with gives the rank back.
pub proof fn lemma_char_round_trip(card: Card)
    ensures
        Card::spec_from_char(card.spec_to_char()) == Some(card),
{
}

/// Two ranks written with the same character are the same rank.
pub proof fn lemma_to_char_injective(a: Card, b: Card)
    requires
        a.spec_to_char() == b.spec_to_char(),
    ensures
        a == b,
{
}

/// The ranks are numbered `0` to `8`, each number once.
pub proof fn lemma_rank_round_trip(card: Card, rank: nat)
    ensures
        card.spec_rank() < RANKS,
        Card::spec_from_rank(card.spec_rank()) == card,
        rank < RANKS ==> Card::spec_from_rank(rank).spec_rank() == rank,
{
}

} // verus!
