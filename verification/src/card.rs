use vstd::prelude::*;

verus! {

/// The two card colors; the tableau building rule alternates between them.
#[derive(Clone, Copy, PartialEq, Eq, Structural, Debug)]
pub enum SuitColor {
    Red,
    Black,
}

#[derive(Clone, Copy, PartialEq, Eq, Structural, Debug)]
pub enum Suit {
    Diamonds,
    Hearts,
    Clubs,
    Spades,
}

impl Suit {
    /// Diamonds and Hearts are red; Clubs and Spades are black.
    pub open spec fn color(self) -> SuitColor {
        match self {
            Suit::Diamonds | Suit::Hearts => SuitColor::Red,
            Suit::Clubs | Suit::Spades => SuitColor::Black,
        }
    }

    pub fn to_color(&self) -> (c: SuitColor)
        ensures
            c == self.color(),
    {
        match self {
            Suit::Diamonds | Suit::Hearts => SuitColor::Red,
            Suit::Clubs | Suit::Spades => SuitColor::Black,
        }
    }
}

/// The kind of pile a card is placed on; the legality rule differs between the
/// two kinds.
#[derive(Clone, Copy, PartialEq, Eq, Structural, Debug)]
pub enum Placement {
    EndPile,
    GamePile,
}

/// A playing card: rank 0 (Ace) through 12 (King), and a suit.
#[derive(Clone, Copy, PartialEq, Eq, Structural, Debug)]
pub struct Card(pub u8, pub Suit);

/// The two-character label a rank is displayed as: Ace, the numerals, Jack,
/// Queen, King.
pub open spec fn rank_label(v: u8) -> Seq<char> {
    if v == 0 {
        " A"@
    } else if v == 1 {
        " 2"@
    } else if v == 2 {
        " 3"@
    } else if v == 3 {
        " 4"@
    } else if v == 4 {
        " 5"@
    } else if v == 5 {
        " 6"@
    } else if v == 6 {
        " 7"@
    } else if v == 7 {
        " 8"@
    } else if v == 8 {
        " 9"@
    } else if v == 9 {
        "10"@
    } else if v == 10 {
        " J"@
    } else if v == 11 {
        " Q"@
    } else {
        " K"@
    }
}

impl Card {
    /// Whether this card may be placed on `other`.
    ///
    /// On a foundation (`EndPile`) the suits must match and the rank must go
    /// up by exactly one. On a tableau (`GamePile`) the colors must differ and
    /// the rank must go down by exactly one; nothing is placeable on an Ace.
    pub open spec fn placeable_spec(self, other: Card, placement: Placement) -> bool {
        match placement {
            Placement::EndPile => self.1 == other.1 && self.0 == other.0 + 1,
            Placement::GamePile => self.1.color() != other.1.color() && self.0 + 1 == other.0,
        }
    }

    pub fn placeable_on(&self, other: &Card, placement: Placement) -> (r: bool)
        ensures
            r == self.placeable_spec(*other, placement),
    {
        match placement {
            Placement::EndPile => self.1 == other.1 && other.0 < 255 && self.0 == other.0 + 1,
            Placement::GamePile => (self.1.to_color() != other.1.to_color() && other.0 > 0
                && self.0 == other.0 - 1),
        }
    }

    /// The display label of this card's rank.
    pub fn value(&self) -> (r: String)
        requires
            self.0 <= 12,
        ensures
            r@ == rank_label(self.0),
    {
        match self.0 {
            0 => " A".to_owned(),
            1 => " 2".to_owned(),
            2 => " 3".to_owned(),
            3 => " 4".to_owned(),
            4 => " 5".to_owned(),
            5 => " 6".to_owned(),
            6 => " 7".to_owned(),
            7 => " 8".to_owned(),
            8 => " 9".to_owned(),
            9 => "10".to_owned(),
            10 => " J".to_owned(),
            11 => " Q".to_owned(),
            _ => " K".to_owned(),
        }
    }
}

/// A card in a tableau pile together with its face-up flag.
#[derive(Clone, Copy, PartialEq, Eq, Structural, Debug)]
pub struct PlacedCard {
    pub card: Card,
    pub visible: bool,
}

} // verus!
