//! A deck of cards used as a stack, and round-robin dealing into hands.
use rand::seq::SliceRandom;
use vstd::prelude::*;

use crate::cards::{
    all_ranks, all_suits, card, is_sorted, lemma_byte_determines_card, lemma_card_byte,
    lemma_card_injective, in_order, sort_cards, Card, CardError, Rank, Suit,
};
use crate::hand::Hand;

verus! {

/// All 52 cards: the ranks Two to Ace of Clubs, then of Diamonds, Hearts and Spades.
pub open spec fn full_deck() -> Seq<Card> {
    Seq::new(52, |i: int| card(all_ranks()[i % 13], all_suits()[i / 13]))
}

/// The cards that hand `h` receives when `cards` is dealt into `num_hands` hands of
/// `num_cards` cards: the draw of round `k` for hand `h` takes the card at
/// `cards.len() - 1 - (k * num_hands + h)`.
pub open spec fn dealt(cards: Seq<Card>, num_hands: int, num_cards: int, h: int) -> Seq<Card> {
    Seq::new(num_cards as nat, |k: int| cards[cards.len() - 1 - (k * num_hands + h)])
}

/// The order in which repeated draws hand out the cards: from the end of the sequence.
pub open spec fn draw_order(cards: Seq<Card>) -> Seq<Card> {
    cards.reverse()
}

/// Cards drawn one after another from a deck in ascending order, as `sort` leaves it,
/// come out in descending packed-byte order.
pub proof fn lemma_sorted_draws_descend(cards: Seq<Card>)
    requires
        is_sorted(cards, false),
    ensures
        is_sorted(draw_order(cards), true),
{
    assert forall|i: int, j: int| 0 <= i < j < cards.len() implies in_order(
        draw_order(cards)[i],
        draw_order(cards)[j],
        true,
    ) by {
        assert(draw_order(cards)[i] == cards[cards.len() - 1 - i]);
        assert(draw_order(cards)[j] == cards[cards.len() - 1 - j]);
        assert(in_order(cards[cards.len() - 1 - j], cards[cards.len() - 1 - i], false));
    }
}

proof fn lemma_positions_differ(a: int, b: int, n: int, h1: int, h2: int)
    requires
        0 <= h1 < n,
        0 <= h2 < n,
        h1 != h2,
        0 <= a,
        0 <= b,
    ensures
        a * n + h1 != b * n + h2,
{
    if a == b {
    } else if a < b {
        assert(a * n + h1 < b * n + h2) by (nonlinear_arith)
            requires
                a < b,
                0 <= h1 < n,
                0 <= h2,
        ;
    } else {
        assert(b * n + h2 < a * n + h1) by (nonlinear_arith)
            requires
                b < a,
                0 <= h2 < n,
                0 <= h1,
        ;
    }
}

/// Dealing a deck that holds no card twice gives each hand `num_cards` cards, and no
/// card to two different hands.
pub proof fn lemma_dealt_hands_disjoint(
    cards: Seq<Card>,
    num_hands: int,
    num_cards: int,
    h1: int,
    h2: int,
    c: Card,
)
    requires
        cards.no_duplicates(),
        0 <= num_cards,
        num_hands * num_cards <= cards.len(),
        0 <= h1 < num_hands,
        0 <= h2 < num_hands,
        h1 != h2,
    ensures
        dealt(cards, num_hands, num_cards, h1).len() == num_cards,
        !(dealt(cards, num_hands, num_cards, h1).contains(c) && dealt(
            cards,
            num_hands,
            num_cards,
            h2,
        ).contains(c)),
{
    let d1 = dealt(cards, num_hands, num_cards, h1);
    let d2 = dealt(cards, num_hands, num_cards, h2);
    if d1.contains(c) && d2.contains(c) {
        let a = choose|a: int| 0 <= a < d1.len() && d1[a] == c;
        let b = choose|b: int| 0 <= b < d2.len() && d2[b] == c;
        assert(a * num_hands + h1 < num_hands * num_cards) by (nonlinear_arith)
            requires
                0 <= a < num_cards,
                0 <= h1 < num_hands,
        ;
        assert(b * num_hands + h2 < num_hands * num_cards) by (nonlinear_arith)
            requires
                0 <= b < num_cards,
                0 <= h2 < num_hands,
        ;
        assert(0 <= a * num_hands) by (nonlinear_arith)
            requires
                0 <= a,
                0 <= num_hands,
        ;
        assert(0 <= b * num_hands) by (nonlinear_arith)
            requires
                0 <= b,
                0 <= num_hands,
        ;
        lemma_positions_differ(a, b, num_hands, h1, h2);
        assert(d1[a] == cards[cards.len() - 1 - (a * num_hands + h1)]);
        assert(d2[b] == cards[cards.len() - 1 - (b * num_hands + h2)]);
    }
}

proof fn lemma_rank_positions(x: int)
    requires
        0 <= x < 13,
    ensures
        all_ranks()[x].value() == x + 2,
{
    if x == 0 {
    } else if x == 1 {
    } else if x == 2 {
    } else if x == 3 {
    } else if x == 4 {
    } else if x == 5 {
    } else if x == 6 {
    } else if x == 7 {
    } else if x == 8 {
    } else if x == 9 {
    } else if x == 10 {
    } else if x == 11 {
    } else {
    }
}

proof fn lemma_suit_positions(y: int)
    requires
        0 <= y < 4,
    ensures
        all_suits()[y].index() == y,
{
    if y == 0 {
    } else if y == 1 {
    } else if y == 2 {
    } else {
    }
}

/// The full deck holds each of its 52 cards once.
pub proof fn lemma_full_deck_distinct()
    ensures
        full_deck().len() == 52,
        full_deck().no_duplicates(),
{
    assert forall|i: int, j: int| 0 <= i < full_deck().len() && 0 <= j < full_deck().len() && i
        != j implies full_deck()[i] != full_deck()[j] by {
        lemma_card_injective(
            all_ranks()[i % 13],
            all_suits()[i / 13],
            all_ranks()[j % 13],
            all_suits()[j / 13],
        );
        lemma_rank_positions(i % 13);
        lemma_rank_positions(j % 13);
        lemma_suit_positions(i / 13);
        lemma_suit_positions(j / 13);
        assert(i == (i / 13) * 13 + i % 13);
        assert(j == (j / 13) * 13 + j % 13);
    }
}

/// Two sequences of the same cards, both in ascending packed-byte order, are equal.
pub proof fn lemma_sorted_is_unique(a: Seq<Card>, b: Seq<Card>)
    requires
        is_sorted(a, false),
        is_sorted(b, false),
        a.to_multiset() == b.to_multiset(),
    ensures
        a == b,
    decreases a.len(),
{
    broadcast use vstd::seq_lib::group_to_multiset_ensures;

    vstd::seq_lib::to_multiset_len(a);
    vstd::seq_lib::to_multiset_len(b);
    if a.len() == 0 {
        assert(a =~= b);
    } else {
        let n = a.len() as int;
        let x = a.last();
        let y = b.last();
        assert(a.drop_last().push(x) =~= a);
        assert(b.drop_last().push(y) =~= b);
        vstd::seq_lib::to_multiset_build(a.drop_last(), x);
        vstd::seq_lib::to_multiset_build(b.drop_last(), y);
        assert(a.to_multiset().count(x) > 0);
        assert(b.to_multiset().count(y) > 0);
        assert(b.contains(x));
        assert(a.contains(y));
        let i = choose|i: int| 0 <= i < b.len() && b[i] == x;
        let j = choose|j: int| 0 <= j < a.len() && a[j] == y;
        if i < b.len() - 1 {
            assert(in_order(b[i], b[b.len() - 1], false));
        }
        if j < n - 1 {
            assert(in_order(a[j], a[n - 1], false));
        }
        lemma_byte_determines_card(x, y);
        assert(x == y);
        assert(a.drop_last().to_multiset() =~= a.to_multiset().remove(x));
        assert(b.drop_last().to_multiset() =~= b.to_multiset().remove(y));
        lemma_sorted_is_unique(a.drop_last(), b.drop_last());
    }
}

proof fn lemma_full_deck_bytes(i: int)
    requires
        0 <= i < 52,
    ensures
        full_deck()[i].byte() == 64 * (i / 13) + i % 13 + 2,
{
    broadcast use lemma_card_byte;

    lemma_rank_positions(i % 13);
    lemma_suit_positions(i / 13);
}

/// The full deck is in ascending packed-byte order.
pub proof fn lemma_full_deck_ascending()
    ensures
        is_sorted(full_deck(), false),
{
    assert forall|i: int, j: int| 0 <= i < j < full_deck().len() implies in_order(
        full_deck()[i],
        full_deck()[j],
        false,
    ) by {
        lemma_full_deck_bytes(i);
        lemma_full_deck_bytes(j);
        assert(64 * (i / 13) + i % 13 <= 64 * (j / 13) + j % 13) by (nonlinear_arith)
            requires
                0 <= i < j,
        ;
    }
}

/// Sorting a deck that holds the 52 cards in any order gives back the order of a new
/// deck, so the draws that follow are Ace, King, Queen of Spades and on down.
pub proof fn lemma_sort_restores_full_deck(cards: Seq<Card>)
    requires
        cards.to_multiset() == full_deck().to_multiset(),
        is_sorted(cards, false),
    ensures
        cards == full_deck(),
{
    lemma_full_deck_ascending();
    lemma_sorted_is_unique(cards, full_deck());
}

/// Dealing four hands of thirteen from the full deck uses all 52 cards, gives each hand
/// thirteen, and no card to two hands.
pub proof fn lemma_full_deal(h1: int, h2: int, c: Card)
    requires
        0 <= h1 < 4,
        0 <= h2 < 4,
        h1 != h2,
    ensures
        4 * 13 == full_deck().len(),
        dealt(full_deck(), 4, 13, h1).len() == 13,
        !(dealt(full_deck(), 4, 13, h1).contains(c) && dealt(full_deck(), 4, 13, h2).contains(c)),
{
    lemma_full_deck_distinct();
    lemma_dealt_hands_disjoint(full_deck(), 4, 13, h1, h2, c);
}

/// A sequence of cards whose last element is the top.
#[derive(Clone, Debug)]
pub struct Deck {
    cards: Vec<Card>,
}

impl View for Deck {
    type V = Seq<Card>;

    closed spec fn view(&self) -> Seq<Card> {
        self.cards@
    }
}

/// Relies on rand's SliceRandom::shuffle with the thread-local generator: it only swaps
/// elements, so the same cards remain, in an order that chance decides.
#[verifier::external_body]
fn shuffle_cards(cards: &mut Vec<Card>)
    ensures
        final(cards)@.to_multiset() == old(cards)@.to_multiset(),
{
    cards.shuffle(&mut rand::thread_rng())
}

impl Deck {
    /// The full deck in ascending order, Two of Clubs first and Ace of Spades last.
    pub fn new() -> (r: Deck)
        ensures
            r@ == full_deck(),
    {
        let suits = Suit::iter();
        let ranks = Rank::iter();
        let mut cards: Vec<Card> = Vec::new();
        let mut s: usize = 0;
        while s < 4
            invariant
                suits@ == all_suits(),
                ranks@ == all_ranks(),
                s <= 4,
                cards@.len() == s * 13,
                forall|k: int| 0 <= k < cards@.len() ==> #[trigger] cards@[k] == full_deck()[k],
            decreases 4 - s,
        {
            let mut r: usize = 0;
            while r < 13
                invariant
                    suits@ == all_suits(),
                    ranks@ == all_ranks(),
                    s < 4,
                    r <= 13,
                    cards@.len() == s * 13 + r,
                    forall|k: int|
                        0 <= k < cards@.len() ==> #[trigger] cards@[k] == full_deck()[k],
                decreases 13 - r,
            {
                let c = Card::new(ranks[r], suits[s]);
                proof {
                    let k = s * 13 + r;
                    assert(k % 13 == r && k / 13 == s) by (nonlinear_arith)
                        requires
                            k == s * 13 + r,
                            r < 13,
                    ;
                }
                cards.push(c);
                r = r + 1;
            }
            s = s + 1;
        }
        proof {
            assert(cards@ =~= full_deck());
        }
        Deck { cards }
    }

    /// Puts the cards in an order that chance decides.
    pub fn shuffle(&mut self)
        ensures
            final(self)@.to_multiset() == old(self)@.to_multiset(),
    {
        shuffle_cards(&mut self.cards);
    }

    /// Puts the cards in ascending packed-byte order.
    pub fn sort(&mut self)
        ensures
            final(self)@.to_multiset() == old(self)@.to_multiset(),
            is_sorted(final(self)@, false),
    {
        self.cards = sort_cards(&self.cards, false);
    }

    /// Takes the last card, or `None` when the deck is empty.
    pub fn draw(&mut self) -> (r: Option<Card>)
        ensures
            old(self)@.len() == 0 ==> r is None && final(self)@ == old(self)@,
            old(self)@.len() > 0 ==> r == Some(old(self)@.last()),
            old(self)@.len() > 0 ==> final(self)@ == old(self)@.drop_last(),
    {
        self.cards.pop()
    }

    /// The card that `draw` would take next, without taking it.
    pub fn top(&self) -> (r: Option<&Card>)
        ensures
            self@.len() == 0 ==> r is None,
            self@.len() > 0 ==> r is Some && *r->Some_0 == self@.last(),
    {
        let n = self.cards.len();
        if n == 0 {
            None
        } else {
            Some(&self.cards[n - 1])
        }
    }

    /// The number of cards left.
    pub fn len(&self) -> (r: usize)
        ensures
            r == self@.len(),
    {
        self.cards.len()
    }

    /// Deals `num_cards` rounds; each round draws one card for each of the `num_hands`
    /// hands in turn. Fails with `OutOfCards` when the deck runs out first, having
    /// drawn every card.
    pub fn deal(&mut self, num_hands: usize, num_cards: usize) -> (r: Result<Vec<Hand>, CardError>)
        ensures
            r is Err <==> num_hands * num_cards > old(self)@.len(),
            r is Err ==> r == Err::<Vec<Hand>, CardError>(CardError::OutOfCards),
            r is Err ==> final(self)@.len() == 0,
            r is Ok ==> {
                let hands = r->Ok_0@;
                &&& final(self)@ == old(self)@.take(old(self)@.len() - num_hands * num_cards)
                &&& hands.len() == num_hands
                &&& forall|h: int|
                    0 <= h < num_hands ==> {
                        &&& (#[trigger] hands[h])@.to_multiset() == dealt(
                            old(self)@,
                            num_hands as int,
                            num_cards as int,
                            h,
                        ).to_multiset()
                        &&& is_sorted(hands[h]@, true)
                    }
            },
    {
        let ghost start = self@;
        let mut hands: Vec<Hand> = Vec::new();
        while hands.len() < num_hands
            invariant
                hands@.len() <= num_hands,
                forall|h: int| 0 <= h < hands@.len() ==> (#[trigger] hands@[h])@ == Seq::<Card>::empty(),
            decreases num_hands - hands@.len(),
        {
            hands.push(Hand::default());
        }
        let mut k: usize = 0;
        proof {
            assert forall|h: int| 0 <= h < num_hands implies {
                &&& (#[trigger] hands@[h])@.to_multiset() == dealt(
                    start,
                    num_hands as int,
                    0,
                    h,
                ).to_multiset()
                &&& is_sorted(hands@[h]@, true)
            } by {
                assert(dealt(start, num_hands as int, 0, h) =~= hands@[h]@);
            }
            assert(start.take(start.len() as int) =~= start);
        }
        while k < num_cards
            invariant
                start == old(self)@,
                k <= num_cards,
                k * num_hands <= start.len(),
                hands@.len() == num_hands,
                self@ == start.take(start.len() - k * num_hands),
                forall|h: int|
                    0 <= h < num_hands ==> {
                        &&& (#[trigger] hands@[h])@.to_multiset() == dealt(
                            start,
                            num_hands as int,
                            k as int,
                            h,
                        ).to_multiset()
                        &&& is_sorted(hands@[h]@, true)
                    },
            decreases num_cards - k,
        {
            let mut h: usize = 0;
            while h < num_hands
                invariant
                    start == old(self)@,
                    k < num_cards,
                    h <= num_hands,
                    k * num_hands + h <= start.len(),
                    hands@.len() == num_hands,
                    self@ == start.take(start.len() - (k * num_hands + h)),
                    forall|j: int|
                        0 <= j < num_hands ==> {
                            &&& (#[trigger] hands@[j])@.to_multiset() == dealt(
                                start,
                                num_hands as int,
                                if j < h { k + 1 } else { k as int },
                                j,
                            ).to_multiset()
                            &&& is_sorted(hands@[j]@, true)
                        },
                decreases num_hands - h,
            {
                proof {
                    assert(self@.len() == start.len() - (k * num_hands + h));
                }
                let c = match self.draw() {
                    Some(c) => c,
                    None => {
                        proof {
                            assert(start.len() == k * num_hands + h);
                            assert(k * num_hands + h < num_hands * num_cards) by (nonlinear_arith)
                                requires
                                    k < num_cards,
                                    h < num_hands,
                            ;
                        }
                        return Err(CardError::OutOfCards);
                    },
                };
                let ghost pos = start.len() - 1 - (k * num_hands + h);
                proof {
                    assert(c == start[pos]);
                    assert(self@ =~= start.take(start.len() - (k * num_hands + h + 1)));
                    assert(dealt(start, num_hands as int, k + 1, h as int) =~= dealt(
                        start,
                        num_hands as int,
                        k as int,
                        h as int,
                    ).push(c));
                    vstd::seq_lib::to_multiset_build(
                        dealt(start, num_hands as int, k as int, h as int),
                        c,
                    );
                }
                let ghost before = hands@;
                hands[h].add(c);
                proof {
                    vstd::seq_lib::to_multiset_build(before[h as int]@, c);
                    assert forall|j: int| 0 <= j < num_hands && j != h implies #[trigger] hands@[j]
                        == before[j] by {}
                }
                h = h + 1;
            }
            proof {
                assert((k + 1) * num_hands == k * num_hands + num_hands) by (nonlinear_arith);
            }
            k = k + 1;
        }
        proof {
            assert(num_cards * num_hands == num_hands * num_cards) by (nonlinear_arith);
        }
        Ok(hands)
    }
}

} // verus!
