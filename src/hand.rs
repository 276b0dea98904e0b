//! A player's hand and its PBN suit-dot text form.
use vstd::prelude::*;
use vstd::string::*;

use crate::cards::{
    card, is_sorted, lemma_card_decodes, push_char, sort_cards, BadInput, Card, CardError, Rank, Suit,
};

verus! {

/// The suit that follows in the PBN cycle Spades, Hearts, Diamonds, Clubs, Spades.
pub open spec fn next_in_cycle(suit: Suit) -> Suit {
    match suit {
        Suit::Spades => Suit::Hearts,
        Suit::Hearts => Suit::Diamonds,
        Suit::Diamonds => Suit::Clubs,
        Suit::Clubs => Suit::Spades,
    }
}

/// A character that may not stand in a hand's text form.
pub open spec fn is_bad_hand_char(c: char) -> bool {
    c != '.' && Rank::parse_char_spec(c) is None
}

/// Every character is a dot or a rank.
pub open spec fn hand_text_ok(s: Seq<char>) -> bool {
    forall|i: int| 0 <= i < s.len() ==> !is_bad_hand_char(#[trigger] s[i])
}

/// The cards that text `s` names, reading from `suit` on: each dot moves to the next
/// suit of the cycle, each rank character adds that rank in the current suit.
pub open spec fn decode(s: Seq<char>, suit: Suit) -> Seq<Card>
    decreases s.len(),
{
    if s.len() == 0 {
        Seq::empty()
    } else if s[0] == '.' {
        decode(s.drop_first(), next_in_cycle(suit))
    } else {
        seq![card(Rank::parse_char_spec(s[0])->Some_0, suit)] + decode(s.drop_first(), suit)
    }
}

/// The rank characters of the cards of `suit` in `cs`, in the order they stand there.
pub open spec fn group(cs: Seq<Card>, suit: Suit) -> Seq<char>
    decreases cs.len(),
{
    if cs.len() == 0 {
        Seq::empty()
    } else {
        group(cs.drop_last(), suit) + if cs.last().suit_spec() == suit {
            seq![cs.last().rank_spec().char_spec()]
        } else {
            Seq::empty()
        }
    }
}

/// The PBN text of a hand: the groups of Spades, Hearts, Diamonds and Clubs, joined by dots.
pub open spec fn encode(cs: Seq<Card>) -> Seq<char> {
    group(cs, Suit::Spades) + seq!['.'] + group(cs, Suit::Hearts) + seq!['.'] + group(
        cs,
        Suit::Diamonds,
    ) + seq!['.'] + group(cs, Suit::Clubs)
}

/// Text with no dot whose every character is a rank written as a card writes it.
pub open spec fn is_rank_run(g: Seq<char>) -> bool {
    forall|i: int|
        0 <= i < g.len() ==> Rank::parse_char_spec(#[trigger] g[i]) is Some && g[i]
            == Rank::parse_char_spec(g[i])->Some_0.char_spec()
}

proof fn lemma_decode_run_then(g: Seq<char>, rest: Seq<char>, suit: Suit)
    requires
        is_rank_run(g),
    ensures
        decode(g + rest, suit) == decode(g, suit) + decode(rest, suit),
    decreases g.len(),
{
    if g.len() == 0 {
        assert(g + rest =~= rest);
        assert(decode(g, suit) + decode(rest, suit) =~= decode(rest, suit));
    } else {
        assert((g + rest)[0] == g[0]);
        assert((g + rest).drop_first() =~= g.drop_first() + rest);
        assert(is_rank_run(g.drop_first())) by {
            assert forall|i: int| 0 <= i < g.drop_first().len() implies Rank::parse_char_spec(
                #[trigger] g.drop_first()[i],
            ) is Some && g.drop_first()[i] == Rank::parse_char_spec(
                g.drop_first()[i],
            )->Some_0.char_spec() by {
                assert(g.drop_first()[i] == g[i + 1]);
            }
        }
        assert(Rank::parse_char_spec(g[0]) is Some);
        lemma_decode_run_then(g.drop_first(), rest, suit);
        let c = seq![card(Rank::parse_char_spec(g[0])->Some_0, suit)];
        assert(c + (decode(g.drop_first(), suit) + decode(rest, suit)) =~= (c + decode(
            g.drop_first(),
            suit,
        )) + decode(rest, suit));
    }
}

proof fn lemma_group_concat(a: Seq<Card>, b: Seq<Card>, suit: Suit)
    ensures
        group(a + b, suit) == group(a, suit) + group(b, suit),
    decreases b.len(),
{
    if b.len() == 0 {
        assert(a + b =~= a);
        assert(group(a, suit) + group(b, suit) =~= group(a, suit));
    } else {
        assert((a + b).drop_last() =~= a + b.drop_last());
        assert((a + b).last() == b.last());
        lemma_group_concat(a, b.drop_last(), suit);
        let tail = if b.last().suit_spec() == suit {
            seq![b.last().rank_spec().char_spec()]
        } else {
            Seq::<char>::empty()
        };
        assert((group(a, suit) + group(b.drop_last(), suit)) + tail =~= group(a, suit) + (group(
            b.drop_last(),
            suit,
        ) + tail));
    }
}

proof fn lemma_group_of_run(g: Seq<char>, from: Suit, suit: Suit)
    requires
        is_rank_run(g),
    ensures
        group(decode(g, from), suit) == if from == suit {
            g
        } else {
            Seq::<char>::empty()
        },
    decreases g.len(),
{
    if g.len() == 0 {
        assert(decode(g, from) =~= Seq::<Card>::empty());
    } else {
        let r = Rank::parse_char_spec(g[0])->Some_0;
        let one = seq![card(r, from)];
        assert(Rank::parse_char_spec(g[0]) is Some);
        assert(is_rank_run(g.drop_first())) by {
            assert forall|i: int| 0 <= i < g.drop_first().len() implies Rank::parse_char_spec(
                #[trigger] g.drop_first()[i],
            ) is Some && g.drop_first()[i] == Rank::parse_char_spec(
                g.drop_first()[i],
            )->Some_0.char_spec() by {
                assert(g.drop_first()[i] == g[i + 1]);
            }
        }
        lemma_group_of_run(g.drop_first(), from, suit);
        lemma_group_concat(one, decode(g.drop_first(), from), suit);
        lemma_card_decodes(r, from);
        assert(one.drop_last() =~= Seq::<Card>::empty());
        assert(group(one.drop_last(), suit) =~= Seq::<char>::empty());
        if from == suit {
            assert(group(one, suit) =~= seq![g[0]]);
            assert(seq![g[0]] + g.drop_first() =~= g);
        } else {
            assert(group(one, suit) =~= Seq::<char>::empty());
            assert(Seq::<char>::empty() + Seq::<char>::empty() =~= Seq::<char>::empty());
        }
    }
}

/// Hand text with three dots, each of its four groups made of ranks written as a card
/// writes them, reads as a hand whose text form is the same text: the groups
/// `spades.hearts.diamonds.clubs` come back in place.
pub proof fn lemma_hand_text_round_trip(
    spades: Seq<char>,
    hearts: Seq<char>,
    diamonds: Seq<char>,
    clubs: Seq<char>,
)
    requires
        is_rank_run(spades),
        is_rank_run(hearts),
        is_rank_run(diamonds),
        is_rank_run(clubs),
    ensures
        ({
            let s = spades + seq!['.'] + hearts + seq!['.'] + diamonds + seq!['.'] + clubs;
            &&& hand_text_ok(s)
            &&& encode(decode(s, Suit::Spades)) == s
        }),
{
    let dot = seq!['.'];
    let r3 = dot + clubs;
    let r2 = dot + diamonds + r3;
    let r1 = dot + hearts + r2;
    let s = spades + seq!['.'] + hearts + seq!['.'] + diamonds + seq!['.'] + clubs;
    assert(s =~= spades + r1);
    assert(r1.drop_first() =~= hearts + r2);
    assert(r2.drop_first() =~= diamonds + r3);
    assert(r3.drop_first() =~= clubs);
    assert(r1[0] == '.' && r2[0] == '.' && r3[0] == '.');
    lemma_decode_run_then(spades, r1, Suit::Spades);
    lemma_decode_run_then(hearts, r2, Suit::Hearts);
    lemma_decode_run_then(diamonds, r3, Suit::Diamonds);
    let ds = decode(spades, Suit::Spades);
    let dh = decode(hearts, Suit::Hearts);
    let dd = decode(diamonds, Suit::Diamonds);
    let dc = decode(clubs, Suit::Clubs);
    assert(decode(r3, Suit::Diamonds) == dc);
    assert(decode(r2, Suit::Hearts) == dd + dc);
    assert(decode(r1, Suit::Spades) == dh + (dd + dc));
    assert(decode(s, Suit::Spades) == ds + (dh + (dd + dc)));
    let all = ds + (dh + (dd + dc));
    assert forall|t: Suit| #[trigger] group(all, t) == group(ds, t) + (group(dh, t) + (group(dd, t) + group(dc, t))) by {
        lemma_group_concat(dd, dc, t);
        lemma_group_concat(dh, dd + dc, t);
        lemma_group_concat(ds, dh + (dd + dc), t);
    }
    lemma_group_of_run(spades, Suit::Spades, Suit::Spades);
    lemma_group_of_run(hearts, Suit::Hearts, Suit::Spades);
    lemma_group_of_run(diamonds, Suit::Diamonds, Suit::Spades);
    lemma_group_of_run(clubs, Suit::Clubs, Suit::Spades);
    lemma_group_of_run(spades, Suit::Spades, Suit::Hearts);
    lemma_group_of_run(hearts, Suit::Hearts, Suit::Hearts);
    lemma_group_of_run(diamonds, Suit::Diamonds, Suit::Hearts);
    lemma_group_of_run(clubs, Suit::Clubs, Suit::Hearts);
    lemma_group_of_run(spades, Suit::Spades, Suit::Diamonds);
    lemma_group_of_run(hearts, Suit::Hearts, Suit::Diamonds);
    lemma_group_of_run(diamonds, Suit::Diamonds, Suit::Diamonds);
    lemma_group_of_run(clubs, Suit::Clubs, Suit::Diamonds);
    lemma_group_of_run(spades, Suit::Spades, Suit::Clubs);
    lemma_group_of_run(hearts, Suit::Hearts, Suit::Clubs);
    lemma_group_of_run(diamonds, Suit::Diamonds, Suit::Clubs);
    lemma_group_of_run(clubs, Suit::Clubs, Suit::Clubs);
    assert(group(all, Suit::Spades) =~= spades);
    assert(group(all, Suit::Hearts) =~= hearts);
    assert(group(all, Suit::Diamonds) =~= diamonds);
    assert(group(all, Suit::Clubs) =~= clubs);
    assert(encode(all) =~= s);
    assert forall|i: int| 0 <= i < s.len() implies !is_bad_hand_char(#[trigger] s[i]) by {
        if i < spades.len() {
            assert(s[i] == spades[i]);
        } else if i < spades.len() + 1 + hearts.len() && i > spades.len() {
            assert(s[i] == hearts[i - spades.len() - 1]);
        } else if i < spades.len() + 2 + hearts.len() + diamonds.len() && i > spades.len() + 1
            + hearts.len() {
            assert(s[i] == diamonds[i - spades.len() - 2 - hearts.len()]);
        } else if i > spades.len() + 2 + hearts.len() + diamonds.len() {
            assert(s[i] == clubs[i - spades.len() - 3 - hearts.len() - diamonds.len()]);
        }
    }
}

/// The cards one player holds.
#[derive(Clone, Debug)]
pub struct Hand {
    cards: Vec<Card>,
}

impl View for Hand {
    type V = Seq<Card>;

    closed spec fn view(&self) -> Seq<Card> {
        self.cards@
    }
}

impl Default for Hand {
    fn default() -> (r: Hand)
        ensures
            r@ == Seq::<Card>::empty(),
    {
        Hand { cards: Vec::new() }
    }
}

impl Hand {
    /// Adds a card, then puts the whole hand in descending packed-byte order.
    pub fn add(&mut self, card: Card)
        ensures
            final(self)@.to_multiset() == old(self)@.push(card).to_multiset(),
            is_sorted(final(self)@, true),
    {
        self.cards.push(card);
        self.cards = sort_cards(&self.cards, true);
    }

    /// The next suit of the PBN cycle.
    pub fn next_suit(suit: Suit) -> (r: Suit)
        ensures
            r == next_in_cycle(suit),
    {
        match suit {
            Suit::Clubs => Suit::Spades,
            Suit::Diamonds => Suit::Clubs,
            Suit::Hearts => Suit::Diamonds,
            Suit::Spades => Suit::Hearts,
        }
    }

    /// The cards, in the order the hand holds them.
    pub fn cards(&self) -> (r: &Vec<Card>)
        ensures
            r@ == self@,
    {
        &self.cards
    }

    /// Reads a hand in PBN notation, starting with Spades; the cards keep the order of the text.
    pub fn from_str(s: &str) -> (r: Result<Hand, CardError>)
        ensures
            r is Ok <==> hand_text_ok(s@),
            r is Ok ==> r->Ok_0@ == decode(s@, Suit::Spades),
            r is Err ==> exists|i: int|
                0 <= i < s@.len() && is_bad_hand_char(s@[i]) && (forall|j: int|
                    0 <= j < i ==> !is_bad_hand_char(#[trigger] s@[j])) && r
                    == Err::<Hand, CardError>(CardError::InvalidInput(BadInput::Char(s@[i]))),
    {
        let n = s.unicode_len();
        let mut cards: Vec<Card> = Vec::new();
        let mut suit = Suit::Spades;
        let mut i: usize = 0;
        proof {
            assert(s@.skip(0) =~= s@);
            assert(cards@ + decode(s@, suit) =~= decode(s@, suit));
        }
        while i < n
            invariant
                n == s@.len(),
                i <= n,
                cards@ + decode(s@.skip(i as int), suit) == decode(s@, Suit::Spades),
                forall|j: int| 0 <= j < i ==> !is_bad_hand_char(#[trigger] s@[j]),
            decreases n - i,
        {
            let ch = s.get_char(i);
            let ghost rest = s@.skip(i as int);
            proof {
                assert(rest[0] == ch);
                assert(rest.drop_first() =~= s@.skip(i + 1));
            }
            if ch == '.' {
                suit = Hand::next_suit(suit);
            } else {
                let rank = match Rank::from_char(ch) {
                    Ok(x) => x,
                    Err(e) => {
                        return Err(e);
                    },
                };
                let c = Card::new(rank, suit);
                let ghost before = cards@;
                cards.push(c);
                proof {
                    assert(cards@ + decode(s@.skip(i + 1), suit) =~= before + decode(rest, suit));
                }
            }
            i = i + 1;
        }
        proof {
            assert(s@.skip(n as int) =~= Seq::<char>::empty());
            assert(cards@ =~= cards@ + decode(s@.skip(n as int), suit));
        }
        Ok(Hand { cards })
    }

    /// Appends the ranks of this hand's cards of `suit`, in the hand's order.
    fn push_group(&self, out: &mut String, suit: Suit)
        ensures
            final(out)@ == old(out)@ + group(self@, suit),
    {
        let mut i: usize = 0;
        while i < self.cards.len()
            invariant
                i <= self.cards@.len(),
                out@ == old(out)@ + group(self.cards@.take(i as int), suit),
            decreases self.cards.len() - i,
        {
            let c = self.cards[i];
            proof {
                assert(self.cards@.take(i + 1).drop_last() =~= self.cards@.take(i as int));
                assert(self.cards@.take(i + 1).last() == c);
            }
            if c.suit() == suit {
                push_char(out, c.rank().to_char());
            }
            i = i + 1;
        }
        proof {
            assert(self.cards@.take(self.cards@.len() as int) =~= self.cards@);
        }
    }

    /// The PBN text: the Spades, Hearts, Diamonds and Clubs groups joined by dots.
    pub fn to_string(&self) -> (r: String)
        ensures
            r@ == encode(self@),
    {
        let mut out = String::new();
        self.push_group(&mut out, Suit::Spades);
        push_char(&mut out, '.');
        self.push_group(&mut out, Suit::Hearts);
        push_char(&mut out, '.');
        self.push_group(&mut out, Suit::Diamonds);
        push_char(&mut out, '.');
        self.push_group(&mut out, Suit::Clubs);
        out
    }
}

} // verus!
