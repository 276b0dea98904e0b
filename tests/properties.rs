use std::collections::HashSet;

use audrey::cards::{BadInput, Card, CardError, Rank, Suit};
use audrey::deck::Deck;
use audrey::hand::Hand;

#[test]
fn suit_text_round_trips() {
    for s in Suit::iter() {
        assert_eq!(Suit::from_str(&s.to_string()), Ok(s));
    }
    assert_eq!(Suit::Spades.to_string(), "s");
    assert_eq!(Suit::from_str("D"), Ok(Suit::Diamonds));
}

#[test]
fn rank_text_round_trips() {
    for r in Rank::iter() {
        assert_eq!(Rank::from_str(&r.to_string()), Ok(r));
    }
    assert_eq!(Rank::Ten.to_string(), "T");
    assert_eq!(Rank::Nine.to_string(), "9");
    assert_eq!(Rank::from_char('q'), Ok(Rank::Queen));
}

#[test]
fn enumerations_are_in_order() {
    assert_eq!(Suit::iter(), vec![Suit::Clubs, Suit::Diamonds, Suit::Hearts, Suit::Spades]);
    let ranks = Rank::iter();
    assert_eq!(ranks.len(), 13);
    assert_eq!(ranks[0], Rank::Two);
    assert_eq!(ranks[12], Rank::Ace);
}

#[test]
fn numeric_codes() {
    assert_eq!(Rank::from_code(14), Ok(Rank::Ace));
    assert_eq!(Rank::from_code(2), Ok(Rank::Two));
    assert_eq!(Suit::from_code(3), Ok(Suit::Spades));
    assert_eq!(Suit::from_code(0), Ok(Suit::Clubs));
}

#[test]
fn card_accessors_give_back_parts() {
    for s in Suit::iter() {
        for r in Rank::iter() {
            let c = Card::new(r, s);
            assert_eq!(c.rank(), r);
            assert_eq!(c.suit(), s);
        }
    }
}

#[test]
fn card_packs_into_one_byte() {
    assert_eq!(Card::new(Rank::Ace, Suit::Spades).packed(), 0b1100_1110);
    assert_eq!(Card::new(Rank::Two, Suit::Clubs).packed(), 2);
    assert_eq!(Card::new(Rank::Ten, Suit::Hearts).packed(), 0b1000_1010);
    assert!(Card::new(Rank::Ace, Suit::Clubs) < Card::new(Rank::Two, Suit::Diamonds));
}

#[test]
fn card_text_lowers_the_suit() {
    assert_eq!(Card::from_str("2H").unwrap().to_string(), "2h");
    assert_eq!(Card::from_str("AS").unwrap().to_string(), "As");
    assert_eq!(Card::from_str("Td").unwrap().to_string(), "Td");
    assert_eq!(Card::new(Rank::King, Suit::Clubs).to_string(), "Kc");
}

#[test]
fn invalid_inputs_are_reported() {
    assert_eq!(Card::from_str(""), Err(CardError::InvalidInput(BadInput::Empty)));
    assert_eq!(Card::from_str("A"), Err(CardError::InvalidInput(BadInput::Short)));
    assert_eq!(Card::from_str("Ax"), Err(CardError::InvalidInput(BadInput::Char('x'))));
    assert_eq!(Card::from_str("1s"), Err(CardError::InvalidInput(BadInput::Char('1'))));
    assert_eq!(Suit::from_char('x'), Err(CardError::InvalidInput(BadInput::Char('x'))));
    assert_eq!(Suit::from_str(""), Err(CardError::InvalidInput(BadInput::Empty)));
    assert_eq!(Rank::from_str(""), Err(CardError::InvalidInput(BadInput::Empty)));
    assert_eq!(Rank::from_code(15), Err(CardError::InvalidInput(BadInput::Code(15))));
    assert_eq!(Rank::from_code(1), Err(CardError::InvalidInput(BadInput::Code(1))));
    assert_eq!(Suit::from_code(4), Err(CardError::InvalidInput(BadInput::Code(4))));
    assert_eq!(Card::try_new('2', 'x'), Err(CardError::InvalidInput(BadInput::Char('x'))));
    assert_eq!(Card::try_new('Z', 'x'), Err(CardError::InvalidInput(BadInput::Char('Z'))));
}

#[test]
fn hand_text_rejects_bad_rank() {
    assert_eq!(
        Hand::from_str("AK.Q1.x.").unwrap_err(),
        CardError::InvalidInput(BadInput::Char('1'))
    );
}

#[test]
fn hand_text_of_empty_hand() {
    assert_eq!(Hand::default().to_string(), "...");
    assert_eq!(Hand::from_str("...").unwrap().to_string(), "...");
}

#[test]
fn hand_text_groups_by_suit() {
    let h = Hand::from_str("A.K.Q.J").unwrap();
    let cards = h.cards();
    assert_eq!(cards.len(), 4);
    assert_eq!(cards[0], Card::new(Rank::Ace, Suit::Spades));
    assert_eq!(cards[1], Card::new(Rank::King, Suit::Hearts));
    assert_eq!(cards[2], Card::new(Rank::Queen, Suit::Diamonds));
    assert_eq!(cards[3], Card::new(Rank::Jack, Suit::Clubs));
}

#[test]
fn next_suit_cycles() {
    assert_eq!(Hand::next_suit(Suit::Spades), Suit::Hearts);
    assert_eq!(Hand::next_suit(Suit::Hearts), Suit::Diamonds);
    assert_eq!(Hand::next_suit(Suit::Diamonds), Suit::Clubs);
    assert_eq!(Hand::next_suit(Suit::Clubs), Suit::Spades);
}

#[test]
fn add_keeps_hand_descending() {
    let mut h = Hand::default();
    h.add(Card::new(Rank::Two, Suit::Clubs));
    h.add(Card::new(Rank::Ace, Suit::Spades));
    h.add(Card::new(Rank::Ten, Suit::Hearts));
    h.add(Card::new(Rank::King, Suit::Hearts));
    let cards = h.cards();
    assert_eq!(cards[0], Card::new(Rank::Ace, Suit::Spades));
    assert_eq!(cards[1], Card::new(Rank::King, Suit::Hearts));
    assert_eq!(cards[2], Card::new(Rank::Ten, Suit::Hearts));
    assert_eq!(cards[3], Card::new(Rank::Two, Suit::Clubs));
    assert_eq!(h.to_string(), "A.KT..2");
}

#[test]
fn add_sorts_a_parsed_hand() {
    let mut h = Hand::from_str("AK6T...").unwrap();
    h.add(Card::new(Rank::Two, Suit::Diamonds));
    assert_eq!(h.to_string(), "AKT6..2.");
}

#[test]
fn new_deck_draws_from_the_top() {
    let mut deck = Deck::new();
    assert_eq!(deck.len(), 52);
    assert_eq!(deck.top(), Some(&Card::new(Rank::Ace, Suit::Spades)));
    assert_eq!(deck.draw(), Some(Card::new(Rank::Ace, Suit::Spades)));
    assert_eq!(deck.draw(), Some(Card::new(Rank::King, Suit::Spades)));
    assert_eq!(deck.top(), Some(&Card::new(Rank::Queen, Suit::Spades)));
    assert_eq!(deck.len(), 50);
}

#[test]
fn empty_deck_draws_nothing() {
    let mut deck = Deck::new();
    for _ in 0..52 {
        assert!(deck.draw().is_some());
    }
    assert_eq!(deck.draw(), None);
    assert_eq!(deck.top(), None);
}

#[test]
fn sorted_deck_draws_descending() {
    let mut deck = Deck::new();
    deck.shuffle();
    deck.sort();
    assert_eq!(deck.draw(), Some(Card::new(Rank::Ace, Suit::Spades)));
    assert_eq!(deck.draw(), Some(Card::new(Rank::King, Suit::Spades)));
    assert_eq!(deck.draw(), Some(Card::new(Rank::Queen, Suit::Spades)));
    let mut last = deck.draw().unwrap().packed();
    while let Some(c) = deck.draw() {
        assert!(c.packed() < last);
        last = c.packed();
    }
}

#[test]
fn shuffle_keeps_the_cards() {
    let mut deck = Deck::new();
    deck.shuffle();
    let mut seen = HashSet::new();
    let mut order = Vec::new();
    while let Some(c) = deck.draw() {
        seen.insert(c.packed());
        order.push(c);
    }
    assert_eq!(seen.len(), 52);
    let mut fresh = Deck::new();
    let mut same = true;
    for c in order {
        if fresh.draw() != Some(c) {
            same = false;
        }
    }
    assert!(!same);
}

#[test]
fn full_deal_uses_every_card() {
    let mut deck = Deck::new();
    let hands = deck.deal(4, 13).unwrap();
    assert_eq!(deck.draw(), None);
    assert_eq!(hands.len(), 4);
    let mut seen = HashSet::new();
    for h in hands.iter() {
        assert_eq!(h.cards().len(), 13);
        for c in h.cards().iter() {
            assert!(seen.insert(c.packed()));
        }
    }
    assert_eq!(seen.len(), 52);
}

#[test]
fn deal_is_round_robin() {
    let mut deck = Deck::new();
    let hands = deck.deal(4, 13).unwrap();
    assert_eq!(hands[0].to_string(), "AT62.J73.Q84.K95");
    assert_eq!(hands[1].to_string(), "K95.AT62.J73.Q84");
    assert_eq!(hands[2].to_string(), "Q84.K95.AT62.J73");
    assert_eq!(hands[3].to_string(), "J73.Q84.K95.AT62");
}

#[test]
fn deal_out_of_cards() {
    let mut deck = Deck::new();
    assert_eq!(deck.deal(4, 14).unwrap_err(), CardError::OutOfCards);
    assert_eq!(deck.draw(), None);
    let mut small = Deck::new();
    small.draw();
    assert_eq!(small.deal(13, 4).unwrap_err(), CardError::OutOfCards);
}

#[test]
fn deal_partial_leaves_rest() {
    let mut deck = Deck::new();
    let hands = deck.deal(2, 3).unwrap();
    assert_eq!(deck.len(), 46);
    assert_eq!(hands[0].to_string(), "AQT...");
    assert_eq!(hands[1].to_string(), "KJ9...");
    let none = deck.deal(0, 5).unwrap();
    assert!(none.is_empty());
    assert_eq!(deck.len(), 46);
}
