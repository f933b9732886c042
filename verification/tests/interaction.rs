use klondike::card::{Card, PlacedCard, Suit};
use klondike::game::Game;
use klondike::interact::{handle_event, Effect, InputEvent, UiState};
use klondike::position::Position;

fn empty_board() -> Game {
    Game {
        deck: Vec::new(),
        pick: Vec::new(),
        end_piles: vec![Vec::new(), Vec::new(), Vec::new(), Vec::new()],
        game_piles: vec![
            Vec::new(),
            Vec::new(),
            Vec::new(),
            Vec::new(),
            Vec::new(),
            Vec::new(),
            Vec::new(),
        ],
    }
}

fn up(rank: u8, suit: Suit) -> PlacedCard {
    PlacedCard { card: Card(rank, suit), visible: true }
}

fn down(rank: u8, suit: Suit) -> PlacedCard {
    PlacedCard { card: Card(rank, suit), visible: false }
}

#[test]
fn test_left_blocked_on_stock() {
    let mut g = empty_board();
    let mut ui = UiState::init();
    let eff = handle_event(&mut g, &mut ui, InputEvent::MoveLeft);
    assert_eq!(eff, Effect::Unchanged);
    assert_eq!(ui.cursor, Position::Deck);
}

#[test]
fn test_right_walks_the_row_and_stops() {
    let mut g = empty_board();
    let mut ui = UiState::init();
    let expected = [
        Position::Pick,
        Position::EndPile(0),
        Position::EndPile(1),
        Position::EndPile(2),
        Position::EndPile(3),
        Position::GamePile(0, 0),
        Position::GamePile(1, 0),
        Position::GamePile(2, 0),
        Position::GamePile(3, 0),
        Position::GamePile(4, 0),
        Position::GamePile(5, 0),
        Position::GamePile(6, 0),
    ];
    for pos in expected.iter() {
        handle_event(&mut g, &mut ui, InputEvent::MoveRight);
        assert_eq!(ui.cursor, *pos);
    }
    handle_event(&mut g, &mut ui, InputEvent::MoveRight);
    assert_eq!(ui.cursor, Position::GamePile(6, 0));
}

#[test]
fn test_left_blocked_on_waste_while_selecting() {
    let mut g = empty_board();
    g.pick.push(Card(5, Suit::Clubs));
    let mut ui = UiState::init();
    handle_event(&mut g, &mut ui, InputEvent::MoveRight);
    assert_eq!(ui.cursor, Position::Pick);
    handle_event(&mut g, &mut ui, InputEvent::Activate);
    assert_eq!(ui.selection, Some(Position::Pick));
    handle_event(&mut g, &mut ui, InputEvent::MoveLeft);
    assert_eq!(ui.cursor, Position::Pick);
}

#[test]
fn test_activate_stock_draws() {
    let mut g = empty_board();
    g.deck.push(Card(7, Suit::Diamonds));
    let mut ui = UiState::init();
    let eff = handle_event(&mut g, &mut ui, InputEvent::Activate);
    assert_eq!(eff, Effect::BoardChanged);
    assert!(g.deck.is_empty());
    assert_eq!(g.pick, vec![Card(7, Suit::Diamonds)]);
    assert_eq!(ui.selection, None);
}

#[test]
fn test_activate_empty_pile_is_noop() {
    let mut g = empty_board();
    let mut ui = UiState::init();
    handle_event(&mut g, &mut ui, InputEvent::MoveRight);
    let eff = handle_event(&mut g, &mut ui, InputEvent::Activate);
    assert_eq!(eff, Effect::Unchanged);
    assert_eq!(ui.selection, None);
}

#[test]
fn test_select_tableau_resets_cursor_depth() {
    let mut g = empty_board();
    g.game_piles[0].push(down(9, Suit::Clubs));
    g.game_piles[0].push(up(4, Suit::Hearts));
    g.game_piles[0].push(up(3, Suit::Spades));
    let mut ui = UiState::init();
    ui.cursor = Position::GamePile(0, 0);
    handle_event(&mut g, &mut ui, InputEvent::ExpandRun);
    assert_eq!(ui.cursor, Position::GamePile(0, 1));
    handle_event(&mut g, &mut ui, InputEvent::Activate);
    assert_eq!(ui.selection, Some(Position::GamePile(0, 1)));
    assert_eq!(ui.cursor, Position::GamePile(0, 0));
}

#[test]
fn test_expand_stops_at_face_down_card() {
    let mut g = empty_board();
    g.game_piles[0].push(down(9, Suit::Clubs));
    g.game_piles[0].push(up(4, Suit::Hearts));
    let mut ui = UiState::init();
    ui.cursor = Position::GamePile(0, 0);
    handle_event(&mut g, &mut ui, InputEvent::ExpandRun);
    assert_eq!(ui.cursor, Position::GamePile(0, 0));
}

#[test]
fn test_contract_run_floors_at_zero() {
    let mut g = empty_board();
    g.game_piles[0].push(up(4, Suit::Hearts));
    g.game_piles[0].push(up(3, Suit::Spades));
    let mut ui = UiState::init();
    ui.cursor = Position::GamePile(0, 0);
    handle_event(&mut g, &mut ui, InputEvent::ExpandRun);
    assert_eq!(ui.cursor, Position::GamePile(0, 1));
    handle_event(&mut g, &mut ui, InputEvent::ContractRun);
    assert_eq!(ui.cursor, Position::GamePile(0, 0));
    handle_event(&mut g, &mut ui, InputEvent::ContractRun);
    assert_eq!(ui.cursor, Position::GamePile(0, 0));
}

#[test]
fn test_executed_move_clears_selection() {
    let mut g = empty_board();
    g.pick.push(Card(0, Suit::Spades));
    let mut ui = UiState::init();
    handle_event(&mut g, &mut ui, InputEvent::MoveRight);
    handle_event(&mut g, &mut ui, InputEvent::Activate);
    assert_eq!(ui.selection, Some(Position::Pick));
    handle_event(&mut g, &mut ui, InputEvent::MoveRight);
    assert_eq!(ui.cursor, Position::EndPile(0));
    let eff = handle_event(&mut g, &mut ui, InputEvent::Activate);
    assert_eq!(eff, Effect::BoardChanged);
    assert_eq!(ui.selection, None);
    assert_eq!(g.end_piles[0], vec![Card(0, Suit::Spades)]);
}

#[test]
fn test_rejected_move_keeps_selection() {
    let mut g = empty_board();
    g.pick.push(Card(5, Suit::Spades));
    let mut ui = UiState::init();
    handle_event(&mut g, &mut ui, InputEvent::MoveRight);
    handle_event(&mut g, &mut ui, InputEvent::Activate);
    handle_event(&mut g, &mut ui, InputEvent::MoveRight);
    let eff = handle_event(&mut g, &mut ui, InputEvent::Activate);
    assert_eq!(eff, Effect::Unchanged);
    assert_eq!(ui.selection, Some(Position::Pick));
    assert_eq!(g.pick, vec![Card(5, Suit::Spades)]);
    assert!(g.end_piles[0].is_empty());
}

#[test]
fn test_quit_and_redraw_effects() {
    let mut g = empty_board();
    let mut ui = UiState::init();
    assert_eq!(
        handle_event(&mut g, &mut ui, InputEvent::Quit),
        Effect::Terminated
    );
    assert_eq!(
        handle_event(&mut g, &mut ui, InputEvent::ForceRedraw),
        Effect::RedrawRequested
    );
}

#[test]
fn test_new_game_resets() {
    let mut g = empty_board();
    let mut ui = UiState::init();
    ui.cursor = Position::EndPile(1);
    let eff = handle_event(&mut g, &mut ui, InputEvent::NewGame);
    assert_eq!(eff, Effect::BoardReset);
    assert_eq!(ui.cursor, Position::Deck);
    assert_eq!(ui.selection, None);
    assert_eq!(g.deck.len(), 24);
    assert_eq!(g.game_piles.len(), 7);
    for (p, pile) in g.game_piles.iter().enumerate() {
        assert_eq!(pile.len(), p + 1);
    }
}
