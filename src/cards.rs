use vstd::prelude::*;
use vstd::string::is_ascii;
use vstd::utf8::is_ascii_chars;

verus! {

/// Number of cards in a standard deck.
pub const CARD_COUNT: u8 = 52;

/// Largest number of cards a ranked hand may hold.
pub const MAX_CARDS: usize = 7;

/// Hole cards held by each player once a trial is complete.
pub const HOLE_CARDS: usize = 2;

/// Community cards on a complete board.
pub const BOARD_CARDS: usize = 5;

/// Every element is a card index.
pub open spec fn all_cards(s: Seq<u8>) -> bool {
    forall|i: int| 0 <= i < s.len() ==> s[i] < CARD_COUNT
}

/// `a` and `b` share no card.
pub open spec fn disjoint(a: Seq<u8>, b: Seq<u8>) -> bool {
    forall|i: int, j: int| 0 <= i < a.len() && 0 <= j < b.len() ==> #[trigger] a[i] != #[trigger] b[j]
}

/// A duplicate-free collection of at most seven cards.
pub open spec fn valid_cards(s: Seq<u8>) -> bool {
    &&& s.no_duplicates()
    &&& s.len() <= MAX_CARDS
    &&& all_cards(s)
}

/// Characters other than whitespace that a text may hold and still be read
/// as a hand: a card is written in two, and more than twelve cards could
/// never make a valid hand.
pub const MAX_CARD_CHARS: usize = 25;

/// ASCII whitespace, which is what trimming an ASCII text removes.
pub open spec fn is_blank(c: char) -> bool {
    c == ' ' || c == '\t' || c == '\n' || c == '\x0B' || c == '\x0C' || c == '\r'
}

/// How many of the first `n` characters are not whitespace.
pub open spec fn card_chars(s: Seq<char>, n: int) -> int
    decreases n,
{
    if n <= 0 {
        0
    } else {
        card_chars(s, n - 1) + if is_blank(s[n - 1]) {
            0int
        } else {
            1int
        }
    }
}

/// How many characters of a text are not whitespace.
pub open spec fn text_card_chars(s: Seq<char>) -> int {
    card_chars(s, s.len() as int)
}

proof fn lemma_card_chars_grow(s: Seq<char>, m: int, n: int)
    requires
        0 <= m <= n,
    ensures
        card_chars(s, m) <= card_chars(s, n),
    decreases n - m,
{
    if m < n {
        lemma_card_chars_grow(s, m, n - 1);
    }
}

/// The rank written by a character, deuce (0) to ace (12), or -1.
pub open spec fn rank_of(c: char) -> int {
    if c == '2' { 0 }
    else if c == '3' { 1 }
    else if c == '4' { 2 }
    else if c == '5' { 3 }
    else if c == '6' { 4 }
    else if c == '7' { 5 }
    else if c == '8' { 6 }
    else if c == '9' { 7 }
    else if c == 'T' { 8 }
    else if c == 'J' { 9 }
    else if c == 'Q' { 10 }
    else if c == 'K' { 11 }
    else if c == 'A' { 12 }
    else { -1 }
}

/// The suit written by a character, clubs (0) to spades (3), or -1.
pub open spec fn suit_of(c: char) -> int {
    if c == 'c' { 0 }
    else if c == 'd' { 1 }
    else if c == 'h' { 2 }
    else if c == 's' { 3 }
    else { -1 }
}

/// Number of tokens in a text of two-character tokens joined by single
/// spaces.
pub open spec fn token_count(s: Seq<char>) -> int {
    (s.len() as int + 1) / 3
}

/// The card index written by token `i`.
pub open spec fn token_card(s: Seq<char>, i: int) -> int {
    4 * rank_of(s[3 * i]) + suit_of(s[3 * i + 1])
}

/// Token `i` writes a rank and then a suit.
pub open spec fn token_ok(s: Seq<char>, i: int) -> bool {
    rank_of(s[3 * i]) >= 0 && suit_of(s[3 * i + 1]) >= 0
}

/// Token `i` is followed by a single space.
pub open spec fn space_after(s: Seq<char>, i: int) -> bool {
    s[3 * i + 2] == ' '
}

/// A well-formed hand text: one or more cards such as "As 3c", joined by
/// single spaces, no card written twice.
pub open spec fn hand_text(s: Seq<char>) -> bool {
    &&& s.len() >= 2
    &&& s.len() % 3 == 2
    &&& forall|i: int| 0 <= i < token_count(s) ==> #[trigger] token_ok(s, i)
    &&& forall|i: int| 0 <= i < token_count(s) - 1 ==> #[trigger] space_after(s, i)
    &&& forall|i: int, j: int| 0 <= i < j < token_count(s) ==> token_card(s, i) != token_card(s, j)
}

/// `v` holds exactly the cards written in `s`, in ascending order.
pub open spec fn lists_cards(s: Seq<char>, v: Seq<u8>) -> bool {
    &&& v.len() == token_count(s)
    &&& forall|i: int, j: int| 0 <= i < j < v.len() ==> v[i] < v[j]
    &&& forall|x: u8| v.contains(x) <==> exists|i: int| 0 <= i < token_count(s) && token_card(s, i) == x as int
}

proof fn lemma_hand_text_chars(s: Seq<char>, n: int)
    requires
        hand_text(s),
        0 <= n <= s.len(),
    ensures
        card_chars(s, n) == n - n / 3,
        is_ascii_chars(s.take(n)),
    decreases n,
{
    if n > 0 {
        lemma_hand_text_chars(s, n - 1);
        let m = n - 1;
        let t = m / 3;
        assert(s.len() == 3 * token_count(s) - 1);
        assert(0 <= t < token_count(s));
        if m % 3 == 2 {
            assert(space_after(s, t));
        } else if m % 3 == 0 {
            assert(token_ok(s, t));
        } else {
            assert(token_ok(s, t));
        }
        assert(s.take(n) =~= s.take(m).push(s[m]));
    }
}

/// What `aya_poker` parses a text into: the card indices, or `None` where
/// the text is not a space-separated list of distinct cards.
pub uninterp spec fn parsed_cards(s: Seq<char>) -> Option<Seq<u8>>;

/// Strength of the best five-card poker hand within a set of cards; higher
/// is stronger.
pub uninterp spec fn hand_rank(cards: Set<u8>) -> u16;

#[verifier::external_type_specification]
#[verifier::external_body]
pub struct ExParseError(aya_poker::base::ParseError);

/// Relies on `FromStr for aya_poker::base::Hand`: a blank text is the empty
/// hand; otherwise each space-separated token must be a card, and the result
/// is refused if a card repeats or there are more than seven. Cards come back
/// as `Card::idx` (four times the rank plus the suit, below 52), in
/// ascending order, which is the order the hand's iterator walks. A token
/// must be two bytes and is sliced after its first, which panics inside a
/// two-byte character: an ASCII text rules that out. Each card parsed adds
/// to a `u64` key whose sum overflows from the thirteenth card on; a card
/// token is two characters other than whitespace, so a text with fewer
/// than 26 such characters never gets there.
#[verifier::external_body]
fn parse_cards(s: &str) -> (r: Result<Vec<u8>, aya_poker::base::ParseError>)
    requires
        is_ascii_chars(s@),
        text_card_chars(s@) <= MAX_CARD_CHARS,
    ensures
        r.is_ok() == parsed_cards(s@).is_some(),
        r.is_ok() ==> r.unwrap()@ == parsed_cards(s@).unwrap() && valid_cards(r.unwrap()@),
        s@.len() == 0 ==> r.is_ok() && r.unwrap()@.len() == 0,
        hand_text(s@) && token_count(s@) <= MAX_CARDS ==> r.is_ok() && lists_cards(s@, r.unwrap()@),
        hand_text(s@) && token_count(s@) > MAX_CARDS ==> r.is_err(),
{
    s.parse::<aya_poker::base::Hand>().map(|h| h.iter().map(|c| c.idx() as u8).collect())
}

/// Relies on `aya_poker::poker_rank`, read through the `u16` inside
/// `PokerHandRank` (whose order is that of the `u16`). Index `i` is
/// `aya_poker::base::CARDS[i]`. The rank depends on the set of cards alone,
/// since an `aya_poker` hand is a set; collecting panics on a repeated card
/// or more than seven.
#[verifier::external_body]
pub(crate) fn rank_cards(cards: &Vec<u8>) -> (r: u16)
    requires
        valid_cards(cards@),
    ensures
        r == hand_rank(cards@.to_set()),
{
    let hand: aya_poker::base::Hand = cards.iter().map(|c| aya_poker::base::CARDS[*c as usize]).collect();
    aya_poker::poker_rank(&hand).0
}

/// A hand of distinct cards: hole cards, or the community cards of a board.
#[derive(Clone, Debug)]
pub struct Hand {
    cards: Vec<u8>,
}

impl View for Hand {
    type V = Seq<u8>;

    closed spec fn view(&self) -> Seq<u8> {
        self.cards@
    }
}

/// Why a text was refused as a hand.
#[derive(Clone, Copy, Debug, PartialEq, Eq, Structural)]
pub enum HandError {
    /// The text is not a list of distinct cards.
    Unparsable,
    /// More cards than the role allows.
    TooMany { max: usize },
}

impl Hand {
    /// Distinct card indices, at most seven.
    pub open spec fn wf(&self) -> bool {
        valid_cards(self@)
    }

    /// The hand with no cards: all of them unknown.
    pub fn new() -> (h: Hand)
        ensures
            h@ == Seq::<u8>::empty(),
            h.wf(),
    {
        Hand { cards: Vec::new() }
    }

    /// The cards, in the order they are held.
    pub fn cards(&self) -> (r: &Vec<u8>)
        ensures
            r@ == self@,
    {
        &self.cards
    }

    pub fn len(&self) -> (r: usize)
        ensures
            r == self@.len(),
    {
        self.cards.len()
    }

    pub fn is_empty(&self) -> (r: bool)
        ensures
            r == (self@.len() == 0),
    {
        self.cards.len() == 0
    }

    pub fn contains(&self, card: u8) -> (r: bool)
        ensures
            r == self@.contains(card),
    {
        let mut i: usize = 0;
        while i < self.cards.len()
            invariant
                0 <= i <= self.cards@.len(),
                forall|j: int| 0 <= j < i ==> self.cards@[j] != card,
            decreases self.cards@.len() - i,
        {
            if self.cards[i] == card {
                return true;
            }
            i += 1;
        }
        false
    }
}

/// What a parser that admits at most `max` cards returns for the text `s`:
/// a text that is not ASCII, or has more non-whitespace characters than
/// twelve cards would take, is unparsable; otherwise what `aya_poker` reads
/// decides, and a hand over `max` is refused. A well-formed text of at most
/// seven cards gives exactly its cards in ascending order.
pub open spec fn parser_post(s: Seq<char>, max: usize, r: Result<Hand, HandError>) -> bool {
    &&& !is_ascii_chars(s) || text_card_chars(s) > MAX_CARD_CHARS ==> r == Err::<Hand, HandError>(HandError::Unparsable)
    &&& is_ascii_chars(s) && text_card_chars(s) <= MAX_CARD_CHARS ==> {
        match parsed_cards(s) {
            None => r == Err::<Hand, HandError>(HandError::Unparsable),
            Some(cs) => if cs.len() > max {
                r == Err::<Hand, HandError>(HandError::TooMany { max })
            } else {
                r matches Ok(h) && h@ == cs && h.wf()
            },
        }
    }
    &&& hand_text(s) ==> {
        if token_count(s) > MAX_CARDS {
            r == Err::<Hand, HandError>(HandError::Unparsable)
        } else if token_count(s) > max {
            r == Err::<Hand, HandError>(HandError::TooMany { max })
        } else {
            r matches Ok(h) && lists_cards(s, h@) && h.wf()
        }
    }
}

/// Whether a text is ASCII with no more non-whitespace characters than a
/// hand could need.
fn readable(val: &str) -> (r: bool)
    ensures
        r == (is_ascii_chars(val@) && text_card_chars(val@) <= MAX_CARD_CHARS),
{
    if !val.is_ascii() {
        return false;
    }
    let bytes = val.as_bytes();
    let ghost s = val@;
    proof {
        broadcast use vstd::string::is_ascii_spec_bytes;
        assert(is_ascii(val));
        assert(bytes@ =~= Seq::new(s.len(), |i: int| s[i] as u8));
    }
    let mut count: usize = 0;
    let mut i: usize = 0;
    while i < bytes.len()
        invariant
            s == val@,
            is_ascii_chars(s),
            bytes@ == Seq::new(s.len(), |i: int| s[i] as u8),
            0 <= i <= s.len(),
            count == card_chars(s, i as int),
            count <= MAX_CARD_CHARS,
        decreases s.len() - i,
    {
        let c = bytes[i];
        assert(c == s[i as int] as u8);
        assert('\0' <= s[i as int] <= '\u{7f}');
        if !(c == 32u8 || (9u8 <= c && c <= 13u8)) {
            assert(!is_blank(s[i as int]));
            count += 1;
        } else {
            assert(is_blank(s[i as int]));
        }
        i += 1;
        assert(count == card_chars(s, i as int));
        if count > MAX_CARD_CHARS {
            proof {
                lemma_card_chars_grow(s, i as int, s.len() as int);
            }
            return false;
        }
    }
    true
}

/// Parses a space-separated list of cards ("As Kd") holding at most `max`
/// of them; a blank text is the empty hand. A text that is not ASCII, or
/// holds more non-whitespace characters than twelve cards would take, is
/// refused outright.
pub fn hand_parser(val: &str, max: usize) -> (r: Result<Hand, HandError>)
    ensures
        parser_post(val@, max, r),
{
    proof {
        if hand_text(val@) {
            lemma_hand_text_chars(val@, val@.len() as int);
            assert(val@.take(val@.len() as int) =~= val@);
        }
    }
    if !readable(val) {
        return Err(HandError::Unparsable);
    }
    match parse_cards(val) {
        Ok(cards) => {
            if cards.len() > max {
                Err(HandError::TooMany { max })
            } else {
                Ok(Hand { cards })
            }
        },
        Err(_) => Err(HandError::Unparsable),
    }
}

/// A player's hole cards: at most two.
pub fn player_parser(val: &str) -> (r: Result<Hand, HandError>)
    ensures
        parser_post(val@, HOLE_CARDS, r),
{
    hand_parser(val, HOLE_CARDS)
}

/// The community cards: at most five.
pub fn board_parser(val: &str) -> (r: Result<Hand, HandError>)
    ensures
        parser_post(val@, BOARD_CARDS, r),
{
    hand_parser(val, BOARD_CARDS)
}

} // verus!
