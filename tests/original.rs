use std::convert::TryFrom;

use audrey::cards::{Card, CardError, Rank, Suit};
use audrey::deck::Deck;
use audrey::hand::Hand;

#[test]
fn everything_is_fine() -> Result<(), CardError> {
    Ok(())
}

#[test]
fn card_tricks() -> Result<(), CardError> {
    let two_hearts = Card::new(Rank::try_from(2)?, Suit::Hearts);
    assert_eq!(two_hearts.rank(), Rank::Two);
    assert_eq!(two_hearts.suit(), Suit::Hearts);
    assert_eq!(two_hearts, Card::new(Rank::try_from('2')?, Suit::Hearts));
    assert_eq!(two_hearts, Card::try_new('2', 'h')?);
    assert_eq!(two_hearts, Card::try_new('2', 'H')?);
    assert_eq!(two_hearts, Card::from_str("2h").expect("no parse"));
    Ok(())
}

#[test]
fn hand_io() {
    for s in ["AKT6.52.T98.KJ52", "AK6T..T9852.KJ52", "AK6T.T9852.KJ52.", ".AK6T.T9852.KJ52"] {
        let hand = Hand::from_str(s).expect("no parse");
        assert_eq!(s, hand.to_string());
    }
}

#[test]
fn swab_the_decks() -> anyhow::Result<()> {
    let mut deck = Deck::new();
    let top = deck.draw().ok_or(anyhow::Error::msg("None"))?;
    assert_eq!(Card::new(Rank::Ace, Suit::Spades), top);
    let next = deck.draw().ok_or(anyhow::Error::msg("None"))?;
    assert_eq!(Card::new(Rank::King, Suit::Spades), next);
    deck.shuffle();
    let maybe = deck.draw().ok_or(anyhow::Error::msg("None"))?;
    assert_ne!(Card::new(Rank::Queen, Suit::Spades), maybe);
    deck.sort();
    let queen = deck.draw().ok_or(anyhow::Error::msg("None"))?;
    assert_eq!(Card::new(Rank::Queen, Suit::Spades), queen);
    Ok(())
}
