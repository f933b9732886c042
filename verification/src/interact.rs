use vstd::prelude::*;

use crate::card::Card;
use crate::game::{standard_deck, BoardView, Game, MoveOutcome};
use crate::position::Position;

verus! {

/// A decoded logical input event, as the interaction loop receives it.
#[derive(Clone, Copy, PartialEq, Eq, Structural, Debug)]
pub enum InputEvent {
    MoveLeft,
    MoveRight,
    ExpandRun,
    ContractRun,
    Activate,
    ForceRedraw,
    NewGame,
    Quit,
}

/// What the presentation layer owes after an event: nothing beyond the
/// cursor, a refresh of the piles, a full redraw of a fresh board, a full
/// redraw on request, or the end of the loop.
#[derive(Clone, Copy, PartialEq, Eq, Structural, Debug)]
pub enum Effect {
    Unchanged,
    BoardChanged,
    BoardReset,
    RedrawRequested,
    Terminated,
}

/// Whether `pos` may carry the cursor on board `b`: a structurally valid
/// slot whose tableau depth, when nonzero, names a face-up card.
pub open spec fn cursor_ok(b: BoardView, pos: Position) -> bool {
    pos.is_valid() && match pos {
        Position::GamePile(p, d) => d == 0 || b.run_visible(p as int, d as int),
        _ => true,
    }
}

/// A selection, when present, anchors a non-empty pile other than the stock.
pub open spec fn selection_ok(b: BoardView, sel: Option<Position>) -> bool {
    match sel {
        Some(s) => cursor_ok(b, s) && !(s is Deck) && b.top_at(s) is Some,
        None => true,
    }
}

/// The cursor and the optional selection anchor.
#[derive(Clone, Copy, PartialEq, Eq, Debug)]
pub struct UiState {
    pub cursor: Position,
    pub selection: Option<Position>,
}

impl UiState {
    /// The interaction invariant: a well-placed cursor, a live selection,
    /// and, while a selection is active, a cursor at a pile head.
    pub open spec fn wf(self, b: BoardView) -> bool {
        &&& cursor_ok(b, self.cursor)
        &&& selection_ok(b, self.selection)
        &&& self.selection is Some ==> (match self.cursor {
            Position::GamePile(_, d) => d == 0,
            _ => true,
        })
    }

    /// The interaction state at the start of a game: cursor on the stock,
    /// nothing selected.
    pub fn init() -> (u: UiState)
        ensures
            u.cursor == Position::Deck,
            u.selection is None,
    {
        UiState { cursor: Position::Deck, selection: None }
    }
}

/// One step of the interaction state machine: translate a logical event into
/// cursor movement, selection handling, or a call into the move engine, and
/// report what the presentation layer must refresh.
pub fn handle_event(game: &mut Game, ui: &mut UiState, ev: InputEvent) -> (eff: Effect)
    requires
        old(game)@.wf(),
        old(ui).wf(old(game)@),
    ensures
        final(game)@.wf(),
        final(ui).wf(final(game)@),
        ev != InputEvent::NewGame ==> final(game)@.cards() == old(game)@.cards(),
        ev == InputEvent::NewGame ==> final(game)@.cards() == standard_deck().to_multiset()
            && final(ui).cursor == Position::Deck && final(ui).selection is None && eff
            == Effect::BoardReset,
        ev == InputEvent::Quit ==> eff == Effect::Terminated && final(game)@ == old(game)@
            && *final(ui) == *old(ui),
        ev == InputEvent::ForceRedraw ==> eff == Effect::RedrawRequested && final(game)@ == old(
            game,
        )@ && *final(ui) == *old(ui),
        ev == InputEvent::MoveLeft ==> final(game)@ == old(game)@ && eff == Effect::Unchanged
            && final(ui).selection == old(ui).selection && final(ui).cursor == (
        if old(ui).cursor != Position::Deck && !(old(ui).cursor == Position::Pick && old(
            ui,
        ).selection is Some) {
            old(ui).cursor.prev_spec()
        } else {
            old(ui).cursor
        }),
        ev == InputEvent::MoveRight ==> final(game)@ == old(game)@ && eff == Effect::Unchanged
            && final(ui).selection == old(ui).selection && final(ui).cursor == (
        if !(old(ui).cursor matches Position::GamePile(p, _) && p == 6) {
            old(ui).cursor.next_spec()
        } else {
            old(ui).cursor
        }),
        ev == InputEvent::ExpandRun ==> final(game)@ == old(game)@ && eff == Effect::Unchanged
            && final(ui).selection == old(ui).selection && final(ui).cursor == (
        match old(ui).cursor {
            Position::GamePile(p, d) => if old(ui).selection is None && d < 255 && old(
                game,
            )@.run_visible(p as int, d + 1) {
                Position::GamePile(p, (d + 1) as u8)
            } else {
                old(ui).cursor
            },
            _ => old(ui).cursor,
        }),
        ev == InputEvent::ContractRun ==> final(game)@ == old(game)@ && eff == Effect::Unchanged
            && final(ui).selection == old(ui).selection && final(ui).cursor == (
        match old(ui).cursor {
            Position::GamePile(p, d) => if old(ui).selection is None && d > 0 {
                Position::GamePile(p, (d - 1) as u8)
            } else {
                old(ui).cursor
            },
            _ => old(ui).cursor,
        }),
        ev == InputEvent::Activate ==> (match old(ui).selection {
            Some(sel) => {
                &&& final(game)@ == old(game)@.move_result(sel, old(ui).cursor)
                &&& final(ui).cursor == old(ui).cursor
                &&& (old(game)@.move_outcome(sel, old(ui).cursor) == MoveOutcome::Executed
                    ==> final(ui).selection is None && eff == Effect::BoardChanged)
                &&& (old(game)@.move_outcome(sel, old(ui).cursor) != MoveOutcome::Executed
                    ==> final(ui).selection == old(ui).selection && eff == Effect::Unchanged)
            },
            None => (match old(ui).cursor {
                Position::Deck => final(game)@ == old(game)@.stock_cycled() && *final(ui) == *old(
                    ui,
                ) && eff == Effect::BoardChanged,
                Position::GamePile(p, d) => final(game)@ == old(game)@ && eff == Effect::Unchanged
                    && (if old(game)@.games[p as int].len() > 0 {
                    final(ui).selection == Some(Position::GamePile(p, d)) && final(ui).cursor
                        == Position::GamePile(p, 0)
                } else {
                    *final(ui) == *old(ui)
                }),
                _ => final(game)@ == old(game)@ && eff == Effect::Unchanged && (
                if old(game)@.top_at(old(ui).cursor) is Some {
                    final(ui).selection == Some(old(ui).cursor) && final(ui).cursor == old(
                        ui,
                    ).cursor
                } else {
                    *final(ui) == *old(ui)
                }),
            }),
        }),
{
    match ev {
        InputEvent::Quit => Effect::Terminated,
        InputEvent::ForceRedraw => Effect::RedrawRequested,
        InputEvent::NewGame => {
            *game = Game::new();
            *ui = UiState::init();
            Effect::BoardReset
        },
        InputEvent::MoveLeft => {
            let blocked = ui.cursor == Position::Deck || (ui.cursor == Position::Pick
                && ui.selection.is_some());
            if !blocked {
                ui.cursor = ui.cursor.prev();
            }
            Effect::Unchanged
        },
        InputEvent::MoveRight => {
            let at_last = match ui.cursor {
                Position::GamePile(p, _) => p == 6,
                _ => false,
            };
            if !at_last {
                ui.cursor = ui.cursor.next();
            }
            Effect::Unchanged
        },
        InputEvent::ExpandRun => {
            if ui.selection.is_none() {
                match ui.cursor {
                    Position::GamePile(p, d) => {
                        let pile = &game.game_piles[p as usize];
                        let du = d as usize;
                        if d < 255 && du + 1 < pile.len() && pile[pile.len() - du - 2].visible {
                            ui.cursor = Position::GamePile(p, d + 1);
                        }
                    },
                    _ => {},
                }
            }
            Effect::Unchanged
        },
        InputEvent::ContractRun => {
            if ui.selection.is_none() {
                match ui.cursor {
                    Position::GamePile(p, d) => {
                        if d > 0 {
                            ui.cursor = Position::GamePile(p, d - 1);
                            proof {
                                if d - 1 > 0 {
                                    let s = game@.games[p as int];
                                    assert(crate::game::tableau_ok(s));
                                    assert(s[s.len() - 1 - (d as int)].visible ==> s[s.len() - 1 - (
                                    d - 1)].visible);
                                }
                            }
                        }
                    },
                    _ => {},
                }
            }
            Effect::Unchanged
        },
        InputEvent::Activate => {
            let sel = ui.selection;
            match sel {
                Some(sel_pos) => {
                    let outcome = game.move_cards(&sel_pos, &ui.cursor);
                    match outcome {
                        MoveOutcome::Executed => {
                            ui.selection = None;
                            Effect::BoardChanged
                        },
                        _ => Effect::Unchanged,
                    }
                },
                None => {
                    match ui.cursor {
                        Position::Deck => {
                            game.activate_stock();
                            Effect::BoardChanged
                        },
                        Position::Pick => {
                            if game.pick.len() > 0 {
                                ui.selection = Some(Position::Pick);
                            }
                            Effect::Unchanged
                        },
                        Position::EndPile(n) => {
                            if game.end_piles[n as usize].len() > 0 {
                                ui.selection = Some(Position::EndPile(n));
                            }
                            Effect::Unchanged
                        },
                        Position::GamePile(p, d) => {
                            if game.game_piles[p as usize].len() > 0 {
                                ui.selection = Some(Position::GamePile(p, d));
                                ui.cursor = Position::GamePile(p, 0);
                            }
                            Effect::Unchanged
                        },
                    }
                },
            }
        },
    }
}

} // verus!
