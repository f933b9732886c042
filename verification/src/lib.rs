//! A Klondike solitaire engine: the card and board model, the move-legality
//! rules, the draw/recycle cycle, and the cursor-and-selection interaction
//! state machine, each with verified contracts. Terminal rendering and key
//! decoding live outside the library; shuffling is drawn from the `rand`
//! crate behind a contract that only promises a permutation.

pub mod card;
pub mod game;
pub mod interact;
pub mod position;
