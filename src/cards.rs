//! Suits, ranks and cards packed into a single byte.
use vstd::prelude::*;
use vstd::string::*;

verus! {

/// What made a piece of text or a numeric code unacceptable.
#[derive(Clone, Copy, Debug, PartialEq, Eq, Structural)]
pub enum BadInput {
    /// The text held no character at all.
    Empty,
    /// The text held fewer characters than needed.
    Short,
    /// This character is not a recognised suit or rank.
    Char(char),
    /// This numeric code is not a recognised suit or rank.
    Code(u8),
}

/// The ways an operation on cards can fail.
#[derive(Clone, Copy, Debug, PartialEq, Eq, Structural)]
pub enum CardError {
    /// Parsing failed; carries the offending input.
    InvalidInput(BadInput),
    /// The deck ran out before a deal was complete.
    OutOfCards,
}

/// The four suits, ordered Clubs < Diamonds < Hearts < Spades.
#[derive(Clone, Copy, Debug, PartialEq, Eq, Structural, PartialOrd, Ord, Hash)]
pub enum Suit {
    Clubs,
    Diamonds,
    Hearts,
    Spades,
}

/// The suits in ascending order.
pub open spec fn all_suits() -> Seq<Suit> {
    seq![Suit::Clubs, Suit::Diamonds, Suit::Hearts, Suit::Spades]
}

impl Suit {
    /// Position in the order Clubs < Diamonds < Hearts < Spades; also the 2-bit code.
    pub open spec fn index(self) -> u8 {
        match self {
            Suit::Clubs => 0,
            Suit::Diamonds => 1,
            Suit::Hearts => 2,
            Suit::Spades => 3,
        }
    }

    pub open spec fn char_spec(self) -> char {
        match self {
            Suit::Clubs => 'c',
            Suit::Diamonds => 'd',
            Suit::Hearts => 'h',
            Suit::Spades => 's',
        }
    }

    pub open spec fn parse_char_spec(c: char) -> Option<Suit> {
        if c == 'c' || c == 'C' {
            Some(Suit::Clubs)
        } else if c == 'd' || c == 'D' {
            Some(Suit::Diamonds)
        } else if c == 'h' || c == 'H' {
            Some(Suit::Hearts)
        } else if c == 's' || c == 'S' {
            Some(Suit::Spades)
        } else {
            None
        }
    }

    pub open spec fn from_code_spec(v: u8) -> Option<Suit> {
        if v == 0 {
            Some(Suit::Clubs)
        } else if v == 1 {
            Some(Suit::Diamonds)
        } else if v == 2 {
            Some(Suit::Hearts)
        } else if v == 3 {
            Some(Suit::Spades)
        } else {
            None
        }
    }

    /// All suits in ascending order.
    pub fn iter() -> (r: Vec<Suit>)
        ensures
            r@ == all_suits(),
    {
        let r = vec![Suit::Clubs, Suit::Diamonds, Suit::Hearts, Suit::Spades];
        assert(r@ =~= all_suits());
        r
    }

    /// Reads a suit from one character, either case.
    pub fn from_char(c: char) -> (r: Result<Suit, CardError>)
        ensures
            r == match Suit::parse_char_spec(c) {
                Some(s) => Ok(s),
                None => Err(CardError::InvalidInput(BadInput::Char(c))),
            },
    {
        if c == 'c' || c == 'C' {
            Ok(Suit::Clubs)
        } else if c == 'd' || c == 'D' {
            Ok(Suit::Diamonds)
        } else if c == 'h' || c == 'H' {
            Ok(Suit::Hearts)
        } else if c == 's' || c == 'S' {
            Ok(Suit::Spades)
        } else {
            Err(CardError::InvalidInput(BadInput::Char(c)))
        }
    }

    /// Reads a suit from its 2-bit code 0..=3.
    pub fn from_code(v: u8) -> (r: Result<Suit, CardError>)
        ensures
            r == match Suit::from_code_spec(v) {
                Some(s) => Ok(s),
                None => Err(CardError::InvalidInput(BadInput::Code(v))),
            },
    {
        match v {
            0 => Ok(Suit::Clubs),
            1 => Ok(Suit::Diamonds),
            2 => Ok(Suit::Hearts),
            3 => Ok(Suit::Spades),
            _ => Err(CardError::InvalidInput(BadInput::Code(v))),
        }
    }

    /// Reads a suit from the first character of `s`.
    pub fn from_str(s: &str) -> (r: Result<Suit, CardError>)
        ensures
            s@.len() == 0 ==> r == Err::<Suit, CardError>(CardError::InvalidInput(BadInput::Empty)),
            s@.len() > 0 ==> r == match Suit::parse_char_spec(s@[0]) {
                Some(x) => Ok(x),
                None => Err(CardError::InvalidInput(BadInput::Char(s@[0]))),
            },
    {
        if s.unicode_len() == 0 {
            Err(CardError::InvalidInput(BadInput::Empty))
        } else {
            Suit::from_char(s.get_char(0))
        }
    }

    pub fn to_char(self) -> (r: char)
        ensures
            r == self.char_spec(),
    {
        match self {
            Suit::Clubs => 'c',
            Suit::Diamonds => 'd',
            Suit::Hearts => 'h',
            Suit::Spades => 's',
        }
    }

    /// The one-character text form, always lower case.
    pub fn to_string(self) -> (r: String)
        ensures
            r@ == seq![self.char_spec()],
    {
        let mut r = String::new();
        push_char(&mut r, self.to_char());
        r
    }
}

/// The thirteen ranks, Two lowest and Ace highest.
#[derive(Clone, Copy, Debug, PartialEq, Eq, Structural, PartialOrd, Ord, Hash)]
pub enum Rank {
    Two,
    Three,
    Four,
    Five,
    Six,
    Seven,
    Eight,
    Nine,
    Ten,
    Jack,
    Queen,
    King,
    Ace,
}

/// The ranks in ascending order.
pub open spec fn all_ranks() -> Seq<Rank> {
    seq![
        Rank::Two,
        Rank::Three,
        Rank::Four,
        Rank::Five,
        Rank::Six,
        Rank::Seven,
        Rank::Eight,
        Rank::Nine,
        Rank::Ten,
        Rank::Jack,
        Rank::Queen,
        Rank::King,
        Rank::Ace,
    ]
}

impl Rank {
    /// Numeric value, Two = 2 up to Ace = 14.
    pub open spec fn value(self) -> u8 {
        match self {
            Rank::Two => 2,
            Rank::Three => 3,
            Rank::Four => 4,
            Rank::Five => 5,
            Rank::Six => 6,
            Rank::Seven => 7,
            Rank::Eight => 8,
            Rank::Nine => 9,
            Rank::Ten => 10,
            Rank::Jack => 11,
            Rank::Queen => 12,
            Rank::King => 13,
            Rank::Ace => 14,
        }
    }

    pub open spec fn char_spec(self) -> char {
        match self {
            Rank::Two => '2',
            Rank::Three => '3',
            Rank::Four => '4',
            Rank::Five => '5',
            Rank::Six => '6',
            Rank::Seven => '7',
            Rank::Eight => '8',
            Rank::Nine => '9',
            Rank::Ten => 'T',
            Rank::Jack => 'J',
            Rank::Queen => 'Q',
            Rank::King => 'K',
            Rank::Ace => 'A',
        }
    }

    pub open spec fn parse_char_spec(c: char) -> Option<Rank> {
        if c == '2' {
            Some(Rank::Two)
        } else if c == '3' {
            Some(Rank::Three)
        } else if c == '4' {
            Some(Rank::Four)
        } else if c == '5' {
            Some(Rank::Five)
        } else if c == '6' {
            Some(Rank::Six)
        } else if c == '7' {
            Some(Rank::Seven)
        } else if c == '8' {
            Some(Rank::Eight)
        } else if c == '9' {
            Some(Rank::Nine)
        } else if c == 'T' || c == 't' {
            Some(Rank::Ten)
        } else if c == 'J' || c == 'j' {
            Some(Rank::Jack)
        } else if c == 'Q' || c == 'q' {
            Some(Rank::Queen)
        } else if c == 'K' || c == 'k' {
            Some(Rank::King)
        } else if c == 'A' || c == 'a' {
            Some(Rank::Ace)
        } else {
            None
        }
    }

    pub open spec fn from_code_spec(v: u8) -> Option<Rank> {
        if 2 <= v <= 14 {
            Some(all_ranks()[v - 2])
        } else {
            None
        }
    }

    /// All ranks in ascending order.
    pub fn iter() -> (r: Vec<Rank>)
        ensures
            r@ == all_ranks(),
    {
        let r = vec![
            Rank::Two,
            Rank::Three,
            Rank::Four,
            Rank::Five,
            Rank::Six,
            Rank::Seven,
            Rank::Eight,
            Rank::Nine,
            Rank::Ten,
            Rank::Jack,
            Rank::Queen,
            Rank::King,
            Rank::Ace,
        ];
        assert(r@ =~= all_ranks());
        r
    }

    /// Reads a rank from one character: a digit 2-9 or T, J, Q, K, A in either case.
    pub fn from_char(c: char) -> (r: Result<Rank, CardError>)
        ensures
            r == match Rank::parse_char_spec(c) {
                Some(x) => Ok(x),
                None => Err(CardError::InvalidInput(BadInput::Char(c))),
            },
    {
        match c {
            '2' => Ok(Rank::Two),
            '3' => Ok(Rank::Three),
            '4' => Ok(Rank::Four),
            '5' => Ok(Rank::Five),
            '6' => Ok(Rank::Six),
            '7' => Ok(Rank::Seven),
            '8' => Ok(Rank::Eight),
            '9' => Ok(Rank::Nine),
            'T' | 't' => Ok(Rank::Ten),
            'J' | 'j' => Ok(Rank::Jack),
            'Q' | 'q' => Ok(Rank::Queen),
            'K' | 'k' => Ok(Rank::King),
            'A' | 'a' => Ok(Rank::Ace),
            _ => Err(CardError::InvalidInput(BadInput::Char(c))),
        }
    }

    /// Reads a rank from its numeric value 2..=14.
    pub fn from_code(v: u8) -> (r: Result<Rank, CardError>)
        ensures
            r == match Rank::from_code_spec(v) {
                Some(x) => Ok(x),
                None => Err(CardError::InvalidInput(BadInput::Code(v))),
            },
            r is Ok ==> r->Ok_0.value() == v,
    {
        match v {
            2 => Ok(Rank::Two),
            3 => Ok(Rank::Three),
            4 => Ok(Rank::Four),
            5 => Ok(Rank::Five),
            6 => Ok(Rank::Six),
            7 => Ok(Rank::Seven),
            8 => Ok(Rank::Eight),
            9 => Ok(Rank::Nine),
            10 => Ok(Rank::Ten),
            11 => Ok(Rank::Jack),
            12 => Ok(Rank::Queen),
            13 => Ok(Rank::King),
            14 => Ok(Rank::Ace),
            _ => Err(CardError::InvalidInput(BadInput::Code(v))),
        }
    }

    /// Reads a rank from the first character of `s`.
    pub fn from_str(s: &str) -> (r: Result<Rank, CardError>)
        ensures
            s@.len() == 0 ==> r == Err::<Rank, CardError>(CardError::InvalidInput(BadInput::Empty)),
            s@.len() > 0 ==> r == match Rank::parse_char_spec(s@[0]) {
                Some(x) => Ok(x),
                None => Err(CardError::InvalidInput(BadInput::Char(s@[0]))),
            },
    {
        if s.unicode_len() == 0 {
            Err(CardError::InvalidInput(BadInput::Empty))
        } else {
            Rank::from_char(s.get_char(0))
        }
    }

    pub fn value_of(self) -> (r: u8)
        ensures
            r == self.value(),
    {
        match self {
            Rank::Two => 2,
            Rank::Three => 3,
            Rank::Four => 4,
            Rank::Five => 5,
            Rank::Six => 6,
            Rank::Seven => 7,
            Rank::Eight => 8,
            Rank::Nine => 9,
            Rank::Ten => 10,
            Rank::Jack => 11,
            Rank::Queen => 12,
            Rank::King => 13,
            Rank::Ace => 14,
        }
    }

    pub fn to_char(self) -> (r: char)
        ensures
            r == self.char_spec(),
    {
        match self {
            Rank::Two => '2',
            Rank::Three => '3',
            Rank::Four => '4',
            Rank::Five => '5',
            Rank::Six => '6',
            Rank::Seven => '7',
            Rank::Eight => '8',
            Rank::Nine => '9',
            Rank::Ten => 'T',
            Rank::Jack => 'J',
            Rank::Queen => 'Q',
            Rank::King => 'K',
            Rank::Ace => 'A',
        }
    }

    /// The one-character text form: a digit, or T, J, Q, K, A.
    pub fn to_string(self) -> (r: String)
        ensures
            r@ == seq![self.char_spec()],
    {
        let mut r = String::new();
        push_char(&mut r, self.to_char());
        r
    }
}

impl TryFrom<char> for Suit {
    type Error = CardError;

    fn try_from(c: char) -> Result<Suit, CardError> {
        Suit::from_char(c)
    }
}

impl TryFrom<u8> for Suit {
    type Error = CardError;

    fn try_from(v: u8) -> Result<Suit, CardError> {
        Suit::from_code(v)
    }
}

impl TryFrom<char> for Rank {
    type Error = CardError;

    fn try_from(c: char) -> Result<Rank, CardError> {
        Rank::from_char(c)
    }
}

impl TryFrom<u8> for Rank {
    type Error = CardError;

    fn try_from(v: u8) -> Result<Rank, CardError> {
        Rank::from_code(v)
    }
}

impl vstd::std_specs::convert::TryFromSpecImpl<char> for Suit {
    open spec fn obeys_try_from_spec() -> bool {
        true
    }

    open spec fn try_from_spec(c: char) -> Result<Suit, CardError> {
        match Suit::parse_char_spec(c) {
            Some(x) => Ok(x),
            None => Err(CardError::InvalidInput(BadInput::Char(c))),
        }
    }
}

impl vstd::std_specs::convert::TryFromSpecImpl<u8> for Suit {
    open spec fn obeys_try_from_spec() -> bool {
        true
    }

    open spec fn try_from_spec(v: u8) -> Result<Suit, CardError> {
        match Suit::from_code_spec(v) {
            Some(x) => Ok(x),
            None => Err(CardError::InvalidInput(BadInput::Code(v))),
        }
    }
}

impl vstd::std_specs::convert::TryFromSpecImpl<char> for Rank {
    open spec fn obeys_try_from_spec() -> bool {
        true
    }

    open spec fn try_from_spec(c: char) -> Result<Rank, CardError> {
        match Rank::parse_char_spec(c) {
            Some(x) => Ok(x),
            None => Err(CardError::InvalidInput(BadInput::Char(c))),
        }
    }
}

impl vstd::std_specs::convert::TryFromSpecImpl<u8> for Rank {
    open spec fn obeys_try_from_spec() -> bool {
        true
    }

    open spec fn try_from_spec(v: u8) -> Result<Rank, CardError> {
        match Rank::from_code_spec(v) {
            Some(x) => Ok(x),
            None => Err(CardError::InvalidInput(BadInput::Code(v))),
        }
    }
}

/// The packed byte of a card: suit index in the two high bits, rank value in the low four.
pub open spec fn pack(rank: Rank, suit: Suit) -> u8 {
    (suit.index() * 64 + rank.value()) as u8
}

/// A byte that some card packs to.
pub open spec fn valid_byte(b: u8) -> bool {
    2 <= b % 64 <= 14
}

/// The rank held in the low four bits of a packed byte.
pub open spec fn rank_of(b: u8) -> Rank {
    match Rank::from_code_spec(b % 16) {
        Some(r) => r,
        None => Rank::Two,
    }
}

/// The suit held in the two high bits of a packed byte.
pub open spec fn suit_of(b: u8) -> Suit {
    match Suit::from_code_spec(b / 64) {
        Some(s) => s,
        None => Suit::Clubs,
    }
}

/// The two characters of a card's text form: rank, then lower-case suit.
pub open spec fn card_text(b: u8) -> Seq<char> {
    seq![rank_of(b).char_spec(), suit_of(b).char_spec()]
}

/// A rank and a suit packed into one byte; cards order by that byte.
#[derive(Clone, Copy, Debug, PartialEq, Eq, Structural, PartialOrd, Ord, Hash)]
pub struct Card(u8);

/// The card of the given rank and suit.
pub closed spec fn card(rank: Rank, suit: Suit) -> Card {
    Card(pack(rank, suit))
}

impl Card {
    /// The packed byte.
    pub closed spec fn byte(self) -> u8 {
        self.0
    }

    #[verifier::type_invariant]
    closed spec fn byte_is_valid(self) -> bool {
        valid_byte(self.0)
    }

    pub open spec fn rank_spec(self) -> Rank {
        rank_of(self.byte())
    }

    pub open spec fn suit_spec(self) -> Suit {
        suit_of(self.byte())
    }

    pub fn new(rank: Rank, suit: Suit) -> (r: Card)
        ensures
            r == card(rank, suit),
            r.byte() == pack(rank, suit),
    {
        let s: u8 = match suit {
            Suit::Clubs => 0b00_00_0000,
            Suit::Diamonds => 0b01_00_0000,
            Suit::Hearts => 0b10_00_0000,
            Suit::Spades => 0b11_00_0000,
        };
        let v = rank.value_of();
        proof {
            lemma_or_is_sum(s, v);
            lemma_pack_valid(rank, suit);
        }
        Card(s | v)
    }

    /// Builds a card from a rank character and a suit character, either case.
    pub fn try_new(rank: char, suit: char) -> (r: Result<Card, CardError>)
        ensures
            match (Rank::parse_char_spec(rank), Suit::parse_char_spec(suit)) {
                (Some(x), Some(y)) => r == Ok::<Card, CardError>(card(x, y)),
                (None, _) => r == Err::<Card, CardError>(
                    CardError::InvalidInput(BadInput::Char(rank)),
                ),
                (Some(_), None) => r == Err::<Card, CardError>(
                    CardError::InvalidInput(BadInput::Char(suit)),
                ),
            },
    {
        let x = match Rank::from_char(rank) {
            Ok(x) => x,
            Err(e) => return Err(e),
        };
        let y = match Suit::from_char(suit) {
            Ok(y) => y,
            Err(e) => return Err(e),
        };
        Ok(Card::new(x, y))
    }

    /// The packed byte; always one that some rank and suit pack to.
    pub fn packed(&self) -> (r: u8)
        ensures
            r == self.byte(),
            valid_byte(r),
            r == pack(self.rank_spec(), self.suit_spec()),
    {
        proof {
            use_type_invariant(self);
            lemma_valid_byte_unpacks(self.0);
        }
        self.0
    }

    pub fn rank(&self) -> (r: Rank)
        ensures
            r == self.rank_spec(),
    {
        proof {
            use_type_invariant(self);
            lemma_low_bits(self.0);
        }
        Rank::from_code(self.0 & 0b1111).unwrap()
    }

    pub fn suit(&self) -> (r: Suit)
        ensures
            r == self.suit_spec(),
    {
        proof {
            lemma_low_bits(self.0);
        }
        Suit::from_code(self.0 >> 6).unwrap()
    }

    /// Reads a card from its first two characters: rank, then suit, either case.
    pub fn from_str(s: &str) -> (r: Result<Card, CardError>)
        ensures
            s@.len() == 0 ==> r == Err::<Card, CardError>(CardError::InvalidInput(BadInput::Empty)),
            s@.len() == 1 ==> r == Err::<Card, CardError>(CardError::InvalidInput(BadInput::Short)),
            s@.len() >= 2 ==> r == match (
                Rank::parse_char_spec(s@[0]),
                Suit::parse_char_spec(s@[1]),
            ) {
                (Some(x), Some(y)) => Ok::<Card, CardError>(card(x, y)),
                (None, _) => Err(CardError::InvalidInput(BadInput::Char(s@[0]))),
                (Some(_), None) => Err(CardError::InvalidInput(BadInput::Char(s@[1]))),
            },
    {
        let n = s.unicode_len();
        if n == 0 {
            return Err(CardError::InvalidInput(BadInput::Empty));
        }
        if n == 1 {
            return Err(CardError::InvalidInput(BadInput::Short));
        }
        Card::try_new(s.get_char(0), s.get_char(1))
    }

    /// The two-character text form, e.g. "2h" or "As".
    pub fn to_string(&self) -> (r: String)
        ensures
            r@ == card_text(self.byte()),
    {
        let mut r = String::new();
        push_char(&mut r, self.rank().to_char());
        push_char(&mut r, self.suit().to_char());
        r
    }
}

proof fn lemma_or_is_sum(s: u8, v: u8)
    requires
        s % 64 == 0,
        v < 16,
    ensures
        s | v == s + v,
{
    assert(s % 64 == 0 && v < 16 ==> s | v == s + v) by (bit_vector);
}

proof fn lemma_low_bits(b: u8)
    ensures
        b & 0b1111 == b % 16,
        b >> 6 == b / 64,
{
    assert(b & 0b1111 == b % 16) by (bit_vector);
    assert(b >> 6 == b / 64) by (bit_vector);
}

proof fn lemma_valid_byte_unpacks(b: u8)
    requires
        valid_byte(b),
    ensures
        b == pack(rank_of(b), suit_of(b)),
{
}

proof fn lemma_pack_valid(rank: Rank, suit: Suit)
    ensures
        valid_byte(pack(rank, suit)),
        rank_of(pack(rank, suit)) == rank,
        suit_of(pack(rank, suit)) == suit,
{
}

/// What `card(rank, suit)` packs to.
pub broadcast proof fn lemma_card_byte(rank: Rank, suit: Suit)
    ensures
        #[trigger] card(rank, suit).byte() == pack(rank, suit),
{
}

/// Two cards with the same packed byte are the same card.
pub proof fn lemma_byte_determines_card(a: Card, b: Card)
    ensures
        a.byte() == b.byte() <==> a == b,
{
}

/// A suit's text form reads back as the same suit.
pub proof fn lemma_suit_text_round_trip(suit: Suit)
    ensures
        Suit::parse_char_spec(suit.char_spec()) == Some(suit),
{
}

/// A rank's text form reads back as the same rank.
pub proof fn lemma_rank_text_round_trip(rank: Rank)
    ensures
        Rank::parse_char_spec(rank.char_spec()) == Some(rank),
{
}

/// A card built from a rank and a suit gives back that rank and that suit.
pub proof fn lemma_card_decodes(rank: Rank, suit: Suit)
    ensures
        card(rank, suit).rank_spec() == rank,
        card(rank, suit).suit_spec() == suit,
{
    lemma_pack_valid(rank, suit);
}

/// A two-character token that reads as a card, with its rank written as the card writes
/// it, comes back unchanged from the card's text form, but for the suit, which is
/// written in lower case.
pub proof fn lemma_card_text_round_trip(t: Seq<char>)
    requires
        t.len() == 2,
        Rank::parse_char_spec(t[0]) is Some,
        Suit::parse_char_spec(t[1]) is Some,
        t[0] == Rank::parse_char_spec(t[0])->Some_0.char_spec(),
    ensures
        ({
            let c = card(Rank::parse_char_spec(t[0])->Some_0, Suit::parse_char_spec(t[1])->Some_0);
            &&& card_text(c.byte()) == seq![t[0], Suit::parse_char_spec(t[1])->Some_0.char_spec()]
            &&& Suit::parse_char_spec(card_text(c.byte())[1]) == Suit::parse_char_spec(t[1])
        }),
{
    let r = Rank::parse_char_spec(t[0])->Some_0;
    let u = Suit::parse_char_spec(t[1])->Some_0;
    lemma_pack_valid(r, u);
    lemma_suit_text_round_trip(u);
}

/// Different ranks or suits give different cards.
pub proof fn lemma_card_injective(r1: Rank, s1: Suit, r2: Rank, s2: Suit)
    ensures
        card(r1, s1) == card(r2, s2) ==> r1 == r2 && s1 == s2,
{
    lemma_pack_valid(r1, s1);
    lemma_pack_valid(r2, s2);
}

/// `a` may come before `b`: by packed byte, high to low when `descending`, else low to high.
pub open spec fn in_order(a: Card, b: Card, descending: bool) -> bool {
    if descending {
        a.byte() >= b.byte()
    } else {
        a.byte() <= b.byte()
    }
}

pub open spec fn is_sorted(s: Seq<Card>, descending: bool) -> bool {
    forall|i: int, j: int| 0 <= i < j < s.len() ==> in_order(s[i], s[j], descending)
}

/// The same cards, ordered by packed byte.
pub(crate) fn sort_cards(v: &Vec<Card>, descending: bool) -> (r: Vec<Card>)
    ensures
        r@.to_multiset() == v@.to_multiset(),
        is_sorted(r@, descending),
{
    let mut out: Vec<Card> = Vec::new();
    let mut i: usize = 0;
    proof {
        assert(v@.take(0) =~= out@);
    }
    while i < v.len()
        invariant
            i <= v.len(),
            out@.to_multiset() == v@.take(i as int).to_multiset(),
            is_sorted(out@, descending),
        decreases v.len() - i,
    {
        let x = v[i];
        let xb = x.packed();
        let mut p: usize = 0;
        let mut found = false;
        while !found && p < out.len()
            invariant
                i < v.len(),
                x == v@[i as int],
                xb == x.byte(),
                out@.to_multiset() == v@.take(i as int).to_multiset(),
                is_sorted(out@, descending),
                p <= out.len(),
                forall|q: int| 0 <= q < p ==> in_order(out@[q], x, descending),
                found ==> p < out.len() && !in_order(out@[p as int], x, descending),
            decreases out.len() - p + (if found { 0int } else { 1int }),
        {
            let b = out[p].packed();
            let keep = if descending {
                b >= xb
            } else {
                b <= xb
            };
            if keep {
                p = p + 1;
            } else {
                found = true;
            }
        }
        let ghost before = out@;
        out.insert(p, x);
        proof {
            assert(out@ == before.insert(p as int, x));
            assert forall|a: int, b: int| 0 <= a < b < out@.len() implies in_order(
                out@[a],
                out@[b],
                descending,
            ) by {
                if b < p {
                    assert(out@[a] == before[a] && out@[b] == before[b]);
                } else if a < p && b == p {
                    assert(out@[a] == before[a]);
                } else if a < p {
                    assert(out@[a] == before[a] && out@[b] == before[b - 1]);
                } else if a == p {
                    assert(found);
                    assert(out@[b] == before[b - 1]);
                    if b - 1 > p {
                        assert(in_order(before[p as int], before[b - 1], descending));
                    }
                } else {
                    assert(out@[a] == before[a - 1] && out@[b] == before[b - 1]);
                }
            }
            vstd::seq_lib::to_multiset_insert(before, p as int, x);
            assert(out@.to_multiset() == before.to_multiset().insert(x));
            assert(v@.take(i + 1) =~= v@.take(i as int).push(x));
            vstd::seq_lib::to_multiset_build(v@.take(i as int), x);
            assert(v@.take(i + 1).to_multiset() == v@.take(i as int).to_multiset().insert(x));
        }
        i = i + 1;
    }
    proof {
        assert(v@.take(v@.len() as int) =~= v@);
    }
    out
}

/// Relies on String::push: appends one character.
#[verifier::external_body]
pub(crate) fn push_char(s: &mut String, c: char)
    ensures
        final(s)@ == old(s)@.push(c),
{
    s.push(c)
}

} // verus!
