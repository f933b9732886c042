use klondike::card::{Card, PlacedCard, Suit};
use klondike::game::{Game, MoveOutcome};
use klondike::position::Position;

fn empty_board() -> Game {
    Game {
        deck: Vec::new(),
        pick: Vec::new(),
        end_piles: vec![Vec::new(), Vec::new(), Vec::new(), Vec::new()],
        game_piles: vec![
            Vec::new(),
            Vec::new(),
            Vec::new(),
            Vec::new(),
            Vec::new(),
            Vec::new(),
            Vec::new(),
        ],
    }
}

fn up(rank: u8, suit: Suit) -> PlacedCard {
    PlacedCard { card: Card(rank, suit), visible: true }
}

fn down(rank: u8, suit: Suit) -> PlacedCard {
    PlacedCard { card: Card(rank, suit), visible: false }
}

fn suit_index(s: &Suit) -> usize {
    match s {
        Suit::Diamonds => 0,
        Suit::Hearts => 1,
        Suit::Clubs => 2,
        Suit::Spades => 3,
    }
}

fn card_census(g: &Game) -> [u32; 52] {
    let mut seen = [0u32; 52];
    let mut note = |c: &Card| {
        seen[suit_index(&c.1) * 13 + c.0 as usize] += 1;
    };
    for c in &g.deck {
        note(c);
    }
    for c in &g.pick {
        note(c);
    }
    for pile in &g.end_piles {
        for c in pile {
            note(c);
        }
    }
    for pile in &g.game_piles {
        for pc in pile {
            note(&pc.card);
        }
    }
    seen
}

#[test]
fn test_new_game_deal() {
    let g = Game::new();
    assert_eq!(g.deck.len(), 24);
    assert_eq!(g.pick.len(), 0);
    assert_eq!(g.end_piles.len(), 4);
    for pile in &g.end_piles {
        assert_eq!(pile.len(), 0);
    }
    assert_eq!(g.game_piles.len(), 7);
    for (p, pile) in g.game_piles.iter().enumerate() {
        assert_eq!(pile.len(), p + 1);
        for (i, pc) in pile.iter().enumerate() {
            assert_eq!(pc.visible, i == p);
        }
    }
    // the 52 distinct cards are all present exactly once
    let seen = card_census(&g);
    for count in seen.iter() {
        assert_eq!(*count, 1);
    }
}

#[test]
fn test_card_conservation_over_moves() {
    // an ace in the waste, a small run on a tableau, a draw pile
    let mut g = empty_board();
    g.deck.push(Card(7, Suit::Clubs));
    g.pick.push(Card(0, Suit::Spades));
    g.game_piles[0].push(down(11, Suit::Clubs));
    g.game_piles[0].push(up(5, Suit::Hearts));
    g.game_piles[1].push(up(6, Suit::Spades));
    let before = card_census(&g);

    assert_eq!(
        g.move_cards(&Position::Pick, &Position::EndPile(0)),
        MoveOutcome::Executed
    );
    assert_eq!(
        g.move_cards(&Position::GamePile(0, 0), &Position::GamePile(1, 0)),
        MoveOutcome::Executed
    );
    g.activate_stock();
    g.activate_stock();

    assert_eq!(card_census(&g), before);
}

#[test]
fn test_ace_to_empty_foundation() {
    let mut g = empty_board();
    g.pick.push(Card(0, Suit::Spades));
    let r = g.move_cards(&Position::Pick, &Position::EndPile(0));
    assert_eq!(r, MoveOutcome::Executed);
    assert_eq!(g.end_piles[0], vec![Card(0, Suit::Spades)]);
    assert!(g.pick.is_empty());
}

#[test]
fn test_non_ace_rejected_on_empty_foundation() {
    let mut g = empty_board();
    g.pick.push(Card(3, Suit::Spades));
    let r = g.move_cards(&Position::Pick, &Position::EndPile(0));
    assert_eq!(r, MoveOutcome::Rejected);
    assert!(g.end_piles[0].is_empty());
    assert_eq!(g.pick, vec![Card(3, Suit::Spades)]);
}

#[test]
fn test_foundation_suit_mismatch() {
    let mut g = empty_board();
    g.pick.push(Card(1, Suit::Diamonds));
    g.end_piles[0].push(Card(0, Suit::Hearts));
    g.end_piles[0].push(Card(1, Suit::Hearts));
    let r = g.move_cards(&Position::Pick, &Position::EndPile(0));
    assert_eq!(r, MoveOutcome::Rejected);
    assert_eq!(
        g.end_piles[0],
        vec![Card(0, Suit::Hearts), Card(1, Suit::Hearts)]
    );
    assert_eq!(g.pick, vec![Card(1, Suit::Diamonds)]);
}

#[test]
fn test_foundation_next_rank_accepted() {
    let mut g = empty_board();
    g.pick.push(Card(2, Suit::Hearts));
    g.end_piles[1].push(Card(0, Suit::Hearts));
    g.end_piles[1].push(Card(1, Suit::Hearts));
    let r = g.move_cards(&Position::Pick, &Position::EndPile(1));
    assert_eq!(r, MoveOutcome::Executed);
    assert_eq!(
        g.end_piles[1],
        vec![
            Card(0, Suit::Hearts),
            Card(1, Suit::Hearts),
            Card(2, Suit::Hearts)
        ]
    );
}

#[test]
fn test_empty_tableau_wants_king() {
    let mut g = empty_board();
    g.pick.push(Card(4, Suit::Clubs));
    let r = g.move_cards(&Position::Pick, &Position::GamePile(2, 0));
    assert_eq!(r, MoveOutcome::Rejected);
    assert!(g.game_piles[2].is_empty());

    g.pick.pop();
    g.pick.push(Card(12, Suit::Clubs));
    let r2 = g.move_cards(&Position::Pick, &Position::GamePile(2, 0));
    assert_eq!(r2, MoveOutcome::Executed);
    assert_eq!(g.game_piles[2], vec![up(12, Suit::Clubs)]);
}

#[test]
fn test_recycle_reverses_waste() {
    let mut g = empty_board();
    g.pick.push(Card(0, Suit::Hearts));
    g.pick.push(Card(1, Suit::Hearts));
    g.pick.push(Card(2, Suit::Hearts));
    g.activate_stock();
    assert!(g.pick.is_empty());
    // stock bottom-to-top is the waste reversed: the oldest-drawn card on top
    assert_eq!(
        g.deck,
        vec![
            Card(2, Suit::Hearts),
            Card(1, Suit::Hearts),
            Card(0, Suit::Hearts)
        ]
    );
    // subsequent draws reproduce the original draw order
    g.activate_stock();
    assert_eq!(g.pick, vec![Card(0, Suit::Hearts)]);
    g.activate_stock();
    assert_eq!(
        g.pick,
        vec![Card(0, Suit::Hearts), Card(1, Suit::Hearts)]
    );
}

#[test]
fn test_draw_moves_top_of_stock() {
    let mut g = empty_board();
    g.deck.push(Card(3, Suit::Clubs));
    g.deck.push(Card(9, Suit::Diamonds));
    g.activate_stock();
    assert_eq!(g.deck, vec![Card(3, Suit::Clubs)]);
    assert_eq!(g.pick, vec![Card(9, Suit::Diamonds)]);
}

#[test]
fn test_no_op_same_position() {
    let mut g = empty_board();
    g.pick.push(Card(5, Suit::Clubs));
    let before = g.pick.clone();
    let r = g.move_cards(&Position::Pick, &Position::Pick);
    assert_eq!(r, MoveOutcome::Executed);
    assert_eq!(g.pick, before);
}

#[test]
fn test_no_op_same_tableau_pile() {
    let mut g = empty_board();
    g.game_piles[3].push(down(8, Suit::Clubs));
    g.game_piles[3].push(up(4, Suit::Hearts));
    let before = g.game_piles[3].clone();
    let r = g.move_cards(&Position::GamePile(3, 0), &Position::GamePile(3, 1));
    assert_eq!(r, MoveOutcome::Executed);
    assert_eq!(g.game_piles[3], before);
}

#[test]
fn test_run_move_keeps_order_and_exposes() {
    let mut g = empty_board();
    g.game_piles[0].push(down(9, Suit::Clubs));
    g.game_piles[0].push(up(4, Suit::Hearts));
    g.game_piles[0].push(up(3, Suit::Spades));
    g.game_piles[0].push(up(2, Suit::Diamonds));
    g.game_piles[1].push(up(5, Suit::Clubs));
    // move the three-card run rooted at depth 2 onto the 6 of Clubs
    let r = g.move_cards(&Position::GamePile(0, 2), &Position::GamePile(1, 0));
    assert_eq!(r, MoveOutcome::Executed);
    assert_eq!(
        g.game_piles[1],
        vec![
            up(5, Suit::Clubs),
            up(4, Suit::Hearts),
            up(3, Suit::Spades),
            up(2, Suit::Diamonds)
        ]
    );
    // the uncovered card is turned face-up
    assert_eq!(g.game_piles[0], vec![up(9, Suit::Clubs)]);
}

#[test]
fn test_tableau_single_card_wrong_rank_rejected() {
    let mut g = empty_board();
    g.pick.push(Card(2, Suit::Hearts));
    g.game_piles[1].push(up(5, Suit::Clubs));
    let r = g.move_cards(&Position::Pick, &Position::GamePile(1, 0));
    assert_eq!(r, MoveOutcome::Rejected);
    assert_eq!(g.game_piles[1], vec![up(5, Suit::Clubs)]);
    assert_eq!(g.pick, vec![Card(2, Suit::Hearts)]);
}

#[test]
fn test_multi_card_run_rejected_on_foundation() {
    let mut g = empty_board();
    g.game_piles[0].push(up(1, Suit::Hearts));
    g.game_piles[0].push(up(0, Suit::Spades));
    let r = g.move_cards(&Position::GamePile(0, 1), &Position::EndPile(0));
    assert_eq!(r, MoveOutcome::Rejected);
    assert_eq!(g.game_piles[0].len(), 2);
    assert!(g.end_piles[0].is_empty());
}

#[test]
fn test_waste_accepts_nothing() {
    let mut g = empty_board();
    g.end_piles[0].push(Card(0, Suit::Hearts));
    let r = g.move_cards(&Position::EndPile(0), &Position::Pick);
    assert_eq!(r, MoveOutcome::Rejected);
    assert_eq!(g.end_piles[0], vec![Card(0, Suit::Hearts)]);
}

#[test]
fn test_stock_destination_invalid() {
    let mut g = empty_board();
    g.pick.push(Card(0, Suit::Hearts));
    let r = g.move_cards(&Position::Pick, &Position::Deck);
    assert_eq!(r, MoveOutcome::Invalid);
    assert_eq!(g.pick, vec![Card(0, Suit::Hearts)]);
}

#[test]
fn test_empty_source_invalid() {
    let mut g = empty_board();
    let r = g.move_cards(&Position::Pick, &Position::EndPile(0));
    assert_eq!(r, MoveOutcome::Invalid);
}

#[test]
fn test_face_down_source_invalid() {
    let mut g = empty_board();
    g.game_piles[0].push(down(6, Suit::Clubs));
    g.game_piles[0].push(up(5, Suit::Hearts));
    g.game_piles[1].push(up(7, Suit::Diamonds));
    // depth 1 names the face-down card
    let r = g.move_cards(&Position::GamePile(0, 1), &Position::GamePile(1, 0));
    assert_eq!(r, MoveOutcome::Invalid);
    assert_eq!(g.game_piles[0].len(), 2);
    assert_eq!(g.game_piles[1].len(), 1);
}

#[test]
fn test_foundation_to_tableau() {
    let mut g = empty_board();
    g.end_piles[0].push(Card(0, Suit::Hearts));
    g.end_piles[0].push(Card(1, Suit::Hearts));
    g.game_piles[0].push(up(2, Suit::Spades));
    let r = g.move_cards(&Position::EndPile(0), &Position::GamePile(0, 0));
    assert_eq!(r, MoveOutcome::Executed);
    assert_eq!(g.end_piles[0], vec![Card(0, Suit::Hearts)]);
    assert_eq!(
        g.game_piles[0],
        vec![up(2, Suit::Spades), up(1, Suit::Hearts)]
    );
}

#[test]
fn test_tableau_pop_exposes_next_card() {
    let mut g = empty_board();
    g.game_piles[2].push(down(7, Suit::Clubs));
    g.game_piles[2].push(up(0, Suit::Diamonds));
    let r = g.move_cards(&Position::GamePile(2, 0), &Position::EndPile(3));
    assert_eq!(r, MoveOutcome::Executed);
    assert_eq!(g.end_piles[3], vec![Card(0, Suit::Diamonds)]);
    assert_eq!(g.game_piles[2], vec![up(7, Suit::Clubs)]);
}

#[test]
fn test_card_at_and_depth() {
    let mut g = empty_board();
    g.game_piles[0].push(down(9, Suit::Clubs));
    g.game_piles[0].push(up(4, Suit::Hearts));
    assert_eq!(g.card_at(&Position::GamePile(0, 0)), Some(&Card(4, Suit::Hearts)));
    assert_eq!(g.card_at(&Position::GamePile(0, 1)), Some(&Card(9, Suit::Clubs)));
    assert_eq!(g.card_at(&Position::GamePile(0, 2)), None);
    assert_eq!(g.card_at(&Position::Deck), None);
    g.deck.push(Card(1, Suit::Spades));
    assert_eq!(g.card_at(&Position::Deck), Some(&Card(1, Suit::Spades)));
}

#[test]
fn test_pop_and_place_primitives() {
    let mut g = empty_board();
    g.pick.push(Card(3, Suit::Hearts));
    assert_eq!(g.will_move_multiple_cards(&Position::Pick), false);
    assert_eq!(g.will_move_multiple_cards(&Position::GamePile(0, 2)), true);
    assert_eq!(g.will_move_multiple_cards(&Position::GamePile(0, 0)), false);
    let c = g.pop_card_at(&Position::Pick);
    assert_eq!(c, Some(Card(3, Suit::Hearts)));
    assert_eq!(g.pop_card_at(&Position::Pick), None);
    g.place_card_at(&Position::GamePile(4, 0), Card(3, Suit::Hearts));
    assert_eq!(g.game_piles[4], vec![up(3, Suit::Hearts)]);
    g.place_card_at(&Position::EndPile(2), Card(0, Suit::Clubs));
    assert_eq!(g.end_piles[2], vec![Card(0, Suit::Clubs)]);
}

#[test]
fn test_screen_coords() {
    let mut g = empty_board();
    assert_eq!(g.as_screen_coords(&Position::Deck), (1, 1));
    assert_eq!(g.as_screen_coords(&Position::Pick), (7, 1));
    assert_eq!(g.as_screen_coords(&Position::EndPile(2)), (31, 1));
    assert_eq!(g.as_screen_coords(&Position::GamePile(3, 0)), (19, 3));
    g.game_piles[3].push(down(9, Suit::Clubs));
    g.game_piles[3].push(down(8, Suit::Hearts));
    g.game_piles[3].push(up(4, Suit::Spades));
    g.game_piles[3].push(up(3, Suit::Diamonds));
    assert_eq!(g.as_screen_coords(&Position::GamePile(3, 0)), (19, 6));
    assert_eq!(g.as_screen_coords(&Position::GamePile(3, 1)), (19, 5));
}

#[test]
fn test_position_order() {
    assert_eq!(Position::Deck.next(), Position::Pick);
    assert_eq!(Position::Pick.next(), Position::EndPile(0));
    assert_eq!(Position::EndPile(2).next(), Position::EndPile(3));
    assert_eq!(Position::EndPile(3).next(), Position::GamePile(0, 0));
    assert_eq!(Position::GamePile(1, 4).next(), Position::GamePile(2, 0));
    assert_eq!(Position::Pick.prev(), Position::Deck);
    assert_eq!(Position::EndPile(0).prev(), Position::Pick);
    assert_eq!(Position::EndPile(3).prev(), Position::EndPile(2));
    assert_eq!(Position::GamePile(0, 2).prev(), Position::EndPile(3));
    assert_eq!(Position::GamePile(5, 0).prev(), Position::GamePile(4, 0));
}
