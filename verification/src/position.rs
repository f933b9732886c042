use vstd::prelude::*;

verus! {

/// A logical coordinate naming a pile slot on the board.
///
/// `Deck` is the face-down draw pile (the stock), `Pick` the face-up waste,
/// `EndPile(n)` one of the four foundations, and `GamePile(p, d)` the card at
/// depth `d` of tableau `p`, where depth 0 is the topmost card.
#[derive(Clone, Copy, PartialEq, Eq, Structural, Debug)]
pub enum Position {
    Deck,
    Pick,
    EndPile(u8),
    GamePile(u8, u8),
}

impl Position {
    /// Structural validity: foundation indices run 0..4, tableau indices 0..7.
    pub open spec fn is_valid(self) -> bool {
        match self {
            Position::Deck => true,
            Position::Pick => true,
            Position::EndPile(n) => n < 4,
            Position::GamePile(p, _) => p < 7,
        }
    }

    /// The fixed left-to-right order used for cursor stepping:
    /// Deck < Pick < EndPile(0..4) < GamePile(0, _) < ... < GamePile(6, _).
    /// Tableau depth does not take part in the order.
    pub open spec fn linear_index(self) -> int {
        match self {
            Position::Deck => 0,
            Position::Pick => 1,
            Position::EndPile(n) => 2 + n,
            Position::GamePile(p, _) => 6 + p,
        }
    }

    /// The slot one step to the left; stepping left from the stock is
    /// undefined.
    pub open spec fn prev_spec(self) -> Position {
        match self {
            Position::Deck => Position::Deck,
            Position::Pick => Position::Deck,
            Position::EndPile(n) => if n == 0 {
                Position::Pick
            } else {
                Position::EndPile((n - 1) as u8)
            },
            Position::GamePile(p, _) => if p == 0 {
                Position::EndPile(3)
            } else {
                Position::GamePile((p - 1) as u8, 0)
            },
        }
    }

    /// The slot one step to the right; stepping right from the last tableau is
    /// undefined.
    pub open spec fn next_spec(self) -> Position {
        match self {
            Position::Deck => Position::Pick,
            Position::Pick => Position::EndPile(0),
            Position::EndPile(n) => if n < 3 {
                Position::EndPile((n + 1) as u8)
            } else {
                Position::GamePile(0, 0)
            },
            Position::GamePile(p, _) => Position::GamePile((p + 1) as u8, 0),
        }
    }

    pub fn prev(&self) -> (r: Position)
        requires
            self.is_valid(),
            *self != Position::Deck,
        ensures
            r == self.prev_spec(),
            r.is_valid(),
            r.linear_index() == self.linear_index() - 1,
    {
        match self {
            Position::Deck => Position::Deck,
            Position::Pick => Position::Deck,
            Position::EndPile(n) => if *n == 0 {
                Position::Pick
            } else {
                Position::EndPile(n - 1)
            },
            Position::GamePile(p, _) => if *p == 0 {
                Position::EndPile(3)
            } else {
                Position::GamePile(p - 1, 0)
            },
        }
    }

    pub fn next(&self) -> (r: Position)
        requires
            self.is_valid(),
            !matches!(*self, Position::GamePile(p, _) if p == 6),
        ensures
            r == self.next_spec(),
            r.is_valid(),
            r.linear_index() == self.linear_index() + 1,
    {
        match self {
            Position::Deck => Position::Pick,
            Position::Pick => Position::EndPile(0),
            Position::EndPile(n) => if *n < 3 {
                Position::EndPile(n + 1)
            } else {
                Position::GamePile(0, 0)
            },
            Position::GamePile(p, _) => Position::GamePile(p + 1, 0),
        }
    }
}

} // verus!
