use klondike::card::{Card, Placement, Suit, SuitColor};

#[test]
fn test_placeable_on_valid() {
    assert!(Card(1, Suit::Hearts).placeable_on(&Card(2, Suit::Spades), Placement::GamePile));
}

#[test]
fn test_placeable_on_same_suit() {
    assert!(!Card(1, Suit::Hearts).placeable_on(&Card(2, Suit::Hearts), Placement::GamePile));
}

#[test]
fn test_placeable_on_same_color() {
    assert!(!Card(1, Suit::Hearts).placeable_on(&Card(2, Suit::Diamonds), Placement::GamePile));
}

#[test]
fn test_placeable_on_wrong_value() {
    assert!(!Card(1, Suit::Hearts).placeable_on(&Card(4, Suit::Spades), Placement::GamePile));
}

#[test]
fn test_placeable_on_end_pile() {
    assert!(Card(1, Suit::Hearts).placeable_on(&Card(0, Suit::Hearts), Placement::EndPile));
    assert!(!Card(1, Suit::Hearts).placeable_on(&Card(0, Suit::Diamonds), Placement::EndPile));
    assert!(!Card(2, Suit::Hearts).placeable_on(&Card(0, Suit::Hearts), Placement::EndPile));
    assert!(!Card(0, Suit::Hearts).placeable_on(&Card(1, Suit::Hearts), Placement::EndPile));
}

#[test]
fn test_nothing_placeable_on_ace_in_tableau() {
    assert!(!Card(0, Suit::Spades).placeable_on(&Card(0, Suit::Hearts), Placement::GamePile));
}

#[test]
fn test_value_labels() {
    assert_eq!(Card(0, Suit::Spades).value(), " A");
    assert_eq!(Card(1, Suit::Spades).value(), " 2");
    assert_eq!(Card(8, Suit::Spades).value(), " 9");
    assert_eq!(Card(9, Suit::Spades).value(), "10");
    assert_eq!(Card(10, Suit::Spades).value(), " J");
    assert_eq!(Card(11, Suit::Spades).value(), " Q");
    assert_eq!(Card(12, Suit::Spades).value(), " K");
}

#[test]
fn test_colors() {
    assert_eq!(Suit::Diamonds.to_color(), SuitColor::Red);
    assert_eq!(Suit::Hearts.to_color(), SuitColor::Red);
    assert_eq!(Suit::Clubs.to_color(), SuitColor::Black);
    assert_eq!(Suit::Spades.to_color(), SuitColor::Black);
}
