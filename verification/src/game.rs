//! Cards, hands, the shoe and the blackjack rules that score and settle a round.

use rand::seq::SliceRandom;
use vstd::prelude::*;

verus! {

/// The four French suits.
#[derive(Clone, Copy, Debug, PartialEq, Eq, Structural)]
pub enum Suit {
    Spades,
    Hearts,
    Diamonds,
    Clubs,
}

/// A playing card: its rank as printed ("A", "2" .. "10", "J", "Q", "K") and its suit.
#[derive(Debug, PartialEq)]
pub struct Card {
    pub rank: String,
    pub suit: Suit,
}

/// What a card is, as a mathematical value: its rank's characters and its suit.
pub type CardView = (Seq<char>, Suit);

impl View for Card {
    type V = CardView;

    open spec fn view(&self) -> CardView {
        (self.rank@, self.suit)
    }
}

pub open spec fn is_ascii_digit(c: char) -> bool {
    '0' <= c && c <= '9'
}

/// The number that a string of decimal digits denotes.
pub open spec fn decimal_value(digits: Seq<char>) -> int
    decreases digits.len(),
{
    if digits.len() == 0 {
        0
    } else {
        10 * decimal_value(digits.drop_last()) + (digits.last() as int - '0' as int)
    }
}

/// The string without one leading `+`, if it has one.
pub open spec fn without_plus(s: Seq<char>) -> Seq<char> {
    if s.len() > 0 && s[0] == '+' {
        s.drop_first()
    } else {
        s
    }
}

pub open spec fn all_ascii_digits(s: Seq<char>) -> bool {
    forall|i: int| 0 <= i < s.len() ==> is_ascii_digit(#[trigger] s[i])
}

/// How `str::parse::<u8>` reads a string: an optional `+`, then one or more ASCII
/// digits whose value is at most 255; anything else is an error.
pub open spec fn parse_u8_spec(s: Seq<char>) -> Option<u8> {
    let digits = without_plus(s);
    if digits.len() > 0 && all_ascii_digits(digits) && decimal_value(digits) <= 255 {
        Some(decimal_value(digits) as u8)
    } else {
        None
    }
}

/// Reads a decimal `u8` as `str::parse::<u8>` does: an optional `+`, then one or
/// more ASCII digits whose value is at most 255; `None` for anything else.
fn parse_u8(s: &str) -> (res: Option<u8>)
    ensures
        res == parse_u8_spec(s@),
{
    let n = s.unicode_len();
    let start: usize = if n > 0 && s.get_char(0) == '+' {
        1
    } else {
        0
    };
    let ghost digits = if start == 1 {
        s@.drop_first()
    } else {
        s@
    };
    assert(digits =~= s@.subrange(start as int, n as int));
    if start == n {
        return None;
    }
    let mut value: u16 = 0;
    let mut over = false;
    let mut i: usize = start;
    assert(s@.subrange(start as int, start as int) =~= Seq::<char>::empty());
    while i < n
        invariant
            n == s@.len(),
            start <= i <= n,
            digits == s@.subrange(start as int, n as int),
            digits == without_plus(s@),
            forall|j: int| start <= j < i ==> is_ascii_digit(#[trigger] s@[j]),
            !over ==> value == decimal_value(s@.subrange(start as int, i as int)) && value <= 255,
            over ==> decimal_value(s@.subrange(start as int, i as int)) > 255,
        decreases n - i,
    {
        let c = s.get_char(i);
        if !('0' <= c && c <= '9') {
            assert(digits[i - start] == c);
            assert(!is_ascii_digit(digits[i - start]));
            assert(!all_ascii_digits(digits));
            return None;
        }
        let d = (c as u32 - 48) as u16;
        assert(s@.subrange(start as int, i + 1).drop_last() =~= s@.subrange(start as int, i as int));
        if !over {
            let next = value * 10 + d;
            if next > 255 {
                over = true;
            } else {
                value = next;
            }
        }
        i = i + 1;
    }
    assert(forall|j: int| 0 <= j < digits.len() ==> digits[j] == s@[start + j]);
    if over {
        None
    } else {
        Some(value as u8)
    }
}

pub open spec fn is_ace_rank(rank: Seq<char>) -> bool {
    rank == seq!['A']
}

pub open spec fn is_face_rank(rank: Seq<char>) -> bool {
    rank == seq!['K'] || rank == seq!['Q'] || rank == seq!['J']
}

/// The points a card of this rank counts for, before any ace is counted low:
/// an ace 11, a face card 10, a numeral its number, and anything unreadable 0.
pub open spec fn rank_value(rank: Seq<char>) -> u8 {
    if is_ace_rank(rank) {
        11
    } else if is_face_rank(rank) {
        10
    } else {
        match parse_u8_spec(rank) {
            Some(n) => n,
            None => 0,
        }
    }
}

/// Whether `s` is the one-character string `c`.
fn is_single_char(s: &str, c: char) -> (res: bool)
    ensures
        res == (s@ == seq![c]),
{
    if s.unicode_len() == 1 {
        let first = s.get_char(0);
        if first == c {
            assert(s@ =~= seq![c]);
            true
        } else {
            false
        }
    } else {
        false
    }
}

impl Clone for Card {
    fn clone(&self) -> (res: Self)
        ensures
            res@ == self@,
    {
        Card { rank: self.rank.clone(), suit: self.suit }
    }
}

impl Card {
    pub fn value(&self) -> (v: u8)
        ensures
            v == rank_value(self.rank@),
    {
        let rank = self.rank.as_str();
        if is_single_char(rank, 'A') {
            11
        } else if is_single_char(rank, 'K') || is_single_char(rank, 'Q') || is_single_char(rank, 'J') {
            10
        } else {
            match parse_u8(rank) {
                Some(n) => n,
                None => 0,
            }
        }
    }

    pub fn is_ace(&self) -> (res: bool)
        ensures
            res == is_ace_rank(self.rank@),
    {
        is_single_char(self.rank.as_str(), 'A')
    }
}


/// The sum of the cards' points with every ace counted as 11.
pub open spec fn raw_sum(cards: Seq<CardView>) -> int
    decreases cards.len(),
{
    if cards.len() == 0 {
        0
    } else {
        raw_sum(cards.drop_last()) + rank_value(cards.last().0)
    }
}

/// How many aces the cards hold.
pub open spec fn ace_count(cards: Seq<CardView>) -> int
    decreases cards.len(),
{
    if cards.len() == 0 {
        0
    } else {
        ace_count(cards.drop_last()) + if is_ace_rank(cards.last().0) {
            1int
        } else {
            0int
        }
    }
}

/// Counts aces low (1 in place of 11), one at a time, while the sum is over 21
/// and more than `keep` aces are still counted high. Gives the sum and the
/// number of aces still counted high.
pub open spec fn count_aces_low(sum: int, aces: int, keep: int) -> (int, int)
    decreases aces - keep,
{
    if sum > 21 && aces > keep {
        count_aces_low(sum - 10, aces - 1, keep)
    } else {
        (sum, aces)
    }
}

/// The hand's blackjack total: aces are counted low only as far as needed to
/// stay at 21 or under; the result is capped at 255.
pub open spec fn hand_total(cards: Seq<CardView>) -> int {
    let t = count_aces_low(raw_sum(cards), ace_count(cards), 0).0;
    if t > 255 {
        255
    } else {
        t
    }
}

/// A hand is soft when, counting aces low only as far as needed, one ace is
/// still counted as 11 and the hand is not over 21.
pub open spec fn hand_is_soft(cards: Seq<CardView>) -> bool {
    let (s, a) = count_aces_low(raw_sum(cards), ace_count(cards), 1);
    a > 0 && s <= 21
}

pub open spec fn hand_is_busted(cards: Seq<CardView>) -> bool {
    hand_total(cards) > 21
}

pub open spec fn hand_is_blackjack(cards: Seq<CardView>) -> bool {
    cards.len() == 2 && hand_total(cards) == 21
}

/// The hand's sums fit the counters that scoring uses (16 bits of points, 8 bits of aces).
pub open spec fn hand_fits(cards: Seq<CardView>) -> bool {
    raw_sum(cards) <= u16::MAX && ace_count(cards) <= u8::MAX
}

/// One more card of any standard rank still fits the hand's counters.
pub open spec fn hand_has_room(cards: Seq<CardView>) -> bool {
    raw_sum(cards) + 11 <= u16::MAX && ace_count(cards) + 1 <= u8::MAX
}

/// The sums over a prefix of the cards are at most those over all of them.
pub proof fn lemma_prefix_sums(cards: Seq<CardView>, i: int)
    requires
        0 <= i <= cards.len(),
    ensures
        0 <= raw_sum(cards.take(i)) <= raw_sum(cards),
        0 <= ace_count(cards.take(i)) <= ace_count(cards),
    decreases cards.len() - i,
{
    if i == cards.len() {
        assert(cards.take(i) =~= cards);
        lemma_sums_nonnegative(cards);
    } else {
        lemma_prefix_sums(cards, i + 1);
        assert(cards.take(i + 1).drop_last() =~= cards.take(i));
        lemma_sums_nonnegative(cards.take(i));
    }
}

pub proof fn lemma_sums_nonnegative(cards: Seq<CardView>)
    ensures
        raw_sum(cards) >= 0,
        ace_count(cards) >= 0,
    decreases cards.len(),
{
    if cards.len() > 0 {
        lemma_sums_nonnegative(cards.drop_last());
    }
}

/// A hand of cards.
pub struct Hand {
    pub cards: Vec<Card>,
}

impl View for Hand {
    type V = Seq<CardView>;

    open spec fn view(&self) -> Seq<CardView> {
        self.cards@.map_values(|c: Card| c@)
    }
}

impl Hand {
    pub fn new() -> (hand: Hand)
        ensures
            hand@ == Seq::<CardView>::empty(),
    {
        let hand = Hand { cards: Vec::new() };
        assert(hand@ =~= Seq::<CardView>::empty());
        hand
    }

    pub fn add_card(&mut self, card: Card)
        ensures
            final(self)@ == old(self)@.push(card@),
    {
        self.cards.push(card);
        assert(self@ =~= old(self)@.push(card@));
    }

    /// The raw sum and the ace count of the cards.
    fn sums(&self) -> (res: (u16, u8))
        requires
            hand_fits(self@),
        ensures
            res.0 == raw_sum(self@),
            res.1 == ace_count(self@),
    {
        let ghost cards = self@;
        let mut sum: u16 = 0;
        let mut aces: u8 = 0;
        let mut i: usize = 0;
        assert(cards.take(0) =~= Seq::<CardView>::empty());
        while i < self.cards.len()
            invariant
                cards == self@,
                hand_fits(cards),
                0 <= i <= self.cards.len(),
                sum == raw_sum(cards.take(i as int)),
                aces == ace_count(cards.take(i as int)),
            decreases self.cards.len() - i,
        {
            let card = &self.cards[i];
            proof {
                assert(cards.take(i + 1).drop_last() =~= cards.take(i as int));
                assert(cards.take(i + 1).last() == card@);
                lemma_prefix_sums(cards, i + 1);
            }
            sum = sum + card.value() as u16;
            if card.is_ace() {
                aces = aces + 1;
            }
            i = i + 1;
        }
        assert(cards.take(i as int) =~= cards);
        (sum, aces)
    }

    /// Whether the raw sum is at most `max_sum` and the ace count at most `max_aces`.
    fn sums_within(&self, max_sum: u64, max_aces: u64) -> (res: bool)
        requires
            max_sum <= u16::MAX,
            max_aces <= u8::MAX,
        ensures
            res == (raw_sum(self@) <= max_sum && ace_count(self@) <= max_aces),
    {
        let ghost cards = self@;
        let mut sum: u64 = 0;
        let mut aces: u64 = 0;
        let mut i: usize = 0;
        assert(cards.take(0) =~= Seq::<CardView>::empty());
        while i < self.cards.len()
            invariant
                cards == self@,
                max_sum <= u16::MAX,
                max_aces <= u8::MAX,
                0 <= i <= self.cards.len(),
                sum == raw_sum(cards.take(i as int)),
                aces == ace_count(cards.take(i as int)),
                sum <= max_sum,
                aces <= max_aces,
            decreases self.cards.len() - i,
        {
            let card = &self.cards[i];
            proof {
                assert(cards.take(i + 1).drop_last() =~= cards.take(i as int));
                assert(cards.take(i + 1).last() == card@);
                lemma_prefix_sums(cards, i + 1);
            }
            sum = sum + card.value() as u64;
            if card.is_ace() {
                aces = aces + 1;
            }
            i = i + 1;
            if sum > max_sum || aces > max_aces {
                return false;
            }
        }
        assert(cards.take(i as int) =~= cards);
        true
    }

    /// Whether the hand can be scored: its sums fit the counters that scoring uses.
    pub fn counters_fit(&self) -> (res: bool)
        ensures
            res == hand_fits(self@),
    {
        self.sums_within(65535, 255)
    }

    /// Whether the hand can take one more card and still be scored.
    pub fn has_room(&self) -> (res: bool)
        ensures
            res == hand_has_room(self@),
    {
        self.sums_within(65535 - 11, 255 - 1)
    }

    pub fn total(&self) -> (t: u8)
        requires
            hand_fits(self@),
        ensures
            t == hand_total(self@),
    {
        let (s, a) = self.sums();
        let mut sum: u16 = s;
        let mut aces: u8 = a;
        while sum > 21 && aces > 0
            invariant
                count_aces_low(sum as int, aces as int, 0) == count_aces_low(
                    raw_sum(self@),
                    ace_count(self@),
                    0,
                ),
            decreases aces,
        {
            sum = sum - 10;
            aces = aces - 1;
        }
        if sum > 255 {
            255
        } else {
            sum as u8
        }
    }

    pub fn is_soft(&self) -> (res: bool)
        requires
            hand_fits(self@),
        ensures
            res == hand_is_soft(self@),
    {
        let (s, a) = self.sums();
        let mut sum: u16 = s;
        let mut aces: u8 = a;
        while sum > 21 && aces > 1
            invariant
                count_aces_low(sum as int, aces as int, 1) == count_aces_low(
                    raw_sum(self@),
                    ace_count(self@),
                    1,
                ),
            decreases aces,
        {
            sum = sum - 10;
            aces = aces - 1;
        }
        aces > 0 && sum <= 21
    }

    pub fn is_busted(&self) -> (res: bool)
        requires
            hand_fits(self@),
        ensures
            res == hand_is_busted(self@),
    {
        self.total() > 21
    }

    pub fn is_blackjack(&self) -> (res: bool)
        requires
            hand_fits(self@),
        ensures
            res == hand_is_blackjack(self@),
    {
        self.cards.len() == 2 && self.total() == 21
    }
}


/// The views of a sequence of cards.
pub open spec fn views(cards: Seq<Card>) -> Seq<CardView> {
    cards.map_values(|c: Card| c@)
}

/// The rank printed on the `k`-th card of a suit, in the order A, 2 .. 10, J, Q, K.
pub open spec fn rank_chars(k: int) -> Seq<char> {
    if k == 0 {
        seq!['A']
    } else if k == 1 {
        seq!['2']
    } else if k == 2 {
        seq!['3']
    } else if k == 3 {
        seq!['4']
    } else if k == 4 {
        seq!['5']
    } else if k == 5 {
        seq!['6']
    } else if k == 6 {
        seq!['7']
    } else if k == 7 {
        seq!['8']
    } else if k == 8 {
        seq!['9']
    } else if k == 9 {
        seq!['1', '0']
    } else if k == 10 {
        seq!['J']
    } else if k == 11 {
        seq!['Q']
    } else {
        seq!['K']
    }
}

/// The suits in the order a fresh deck holds them.
pub open spec fn suit_at(k: int) -> Suit {
    if k == 0 {
        Suit::Spades
    } else if k == 1 {
        Suit::Hearts
    } else if k == 2 {
        Suit::Diamonds
    } else {
        Suit::Clubs
    }
}

/// The `i`-th card of a shoe of fresh decks, before it is shuffled: decks one after
/// another, each suit by suit, each suit rank by rank.
pub open spec fn fresh_card(i: int) -> CardView {
    (rank_chars(i % 13), suit_at((i % 52) / 13))
}

/// The cards of `num_decks` fresh decks, in their printed order.
pub open spec fn fresh_shoe(num_decks: nat) -> Seq<CardView> {
    Seq::new(52 * num_decks, |i: int| fresh_card(i))
}

pub open spec fn is_standard_rank(rank: Seq<char>) -> bool {
    exists|k: int| 0 <= k < 13 && #[trigger] rank_chars(k) == rank
}

pub open spec fn all_standard(cards: Seq<CardView>) -> bool {
    forall|i: int| 0 <= i < cards.len() ==> is_standard_rank(#[trigger] cards[i].0)
}

/// `draw` took `card` from a shoe that held `before` and left `after`: the last card
/// when there was one; otherwise the shoe was first refilled with six fresh decks in
/// an order that chance decides, and `card` together with `after` are those decks.
pub open spec fn drew(before: Seq<CardView>, after: Seq<CardView>, card: CardView) -> bool {
    if before.len() > 0 {
        card == before.last() && after == before.drop_last()
    } else {
        after.push(card).to_multiset() == fresh_shoe(6).to_multiset()
    }
}

/// `rand::seq::SliceRandom::shuffle`, driven by `rand::thread_rng()`. Its source
/// swaps pairs of elements in place (Fisher-Yates), so the same cards come back in
/// an order that chance decides. The contract claims only that: the cards, taken
/// as a multiset, are unchanged.
#[verifier::external_body]
fn shuffle_cards(cards: &mut Vec<Card>)
    ensures
        views(final(cards)@).to_multiset() == views(old(cards)@).to_multiset(),
{
    cards.shuffle(&mut rand::thread_rng());
}

/// The rank label of the `k`-th card of a suit.
fn rank_label(k: usize) -> (label: &'static str)
    requires
        k < 13,
    ensures
        label@ == rank_chars(k as int),
{
    proof {
        reveal_strlit("A");
        reveal_strlit("2");
        reveal_strlit("3");
        reveal_strlit("4");
        reveal_strlit("5");
        reveal_strlit("6");
        reveal_strlit("7");
        reveal_strlit("8");
        reveal_strlit("9");
        reveal_strlit("10");
        reveal_strlit("J");
        reveal_strlit("Q");
        reveal_strlit("K");
    }
    if k == 0 {
        "A"
    } else if k == 1 {
        "2"
    } else if k == 2 {
        "3"
    } else if k == 3 {
        "4"
    } else if k == 4 {
        "5"
    } else if k == 5 {
        "6"
    } else if k == 6 {
        "7"
    } else if k == 7 {
        "8"
    } else if k == 8 {
        "9"
    } else if k == 9 {
        "10"
    } else if k == 10 {
        "J"
    } else if k == 11 {
        "Q"
    } else {
        "K"
    }
}

fn suit_label(k: usize) -> (suit: Suit)
    requires
        k < 4,
    ensures
        suit == suit_at(k as int),
{
    if k == 0 {
        Suit::Spades
    } else if k == 1 {
        Suit::Hearts
    } else if k == 2 {
        Suit::Diamonds
    } else {
        Suit::Clubs
    }
}

proof fn lemma_fresh_card_at(d: int, s: int, r: int)
    requires
        0 <= d,
        0 <= s < 4,
        0 <= r < 13,
    ensures
        fresh_card(52 * d + 13 * s + r) == (rank_chars(r), suit_at(s)),
{
    assert((52 * d + 13 * s + r) % 13 == r) by (nonlinear_arith)
        requires
            0 <= d,
            0 <= s < 4,
            0 <= r < 13,
    ;
    assert((52 * d + 13 * s + r) % 52 == 13 * s + r) by (nonlinear_arith)
        requires
            0 <= d,
            0 <= s < 4,
            0 <= r < 13,
    ;
}

proof fn lemma_fresh_shoe_standard(num_decks: nat)
    ensures
        all_standard(fresh_shoe(num_decks)),
{
    assert forall|i: int| 0 <= i < fresh_shoe(num_decks).len() implies is_standard_rank(
        #[trigger] fresh_shoe(num_decks)[i].0,
    ) by {
        let k = i % 13;
        assert(rank_chars(k) == fresh_shoe(num_decks)[i].0);
    }
}

/// Every card of `after` is one of `before`, when the two hold the same cards.
proof fn lemma_same_cards_standard(before: Seq<CardView>, after: Seq<CardView>)
    requires
        all_standard(before),
        after.to_multiset() == before.to_multiset(),
    ensures
        all_standard(after),
{
    broadcast use vstd::seq_lib::group_to_multiset_ensures;

    assert forall|i: int| 0 <= i < after.len() implies is_standard_rank(#[trigger] after[i].0) by {
        assert(after.contains(after[i]));
        assert(before.to_multiset().count(after[i]) > 0);
        assert(before.contains(after[i]));
        let j = choose|j: int| 0 <= j < before.len() && before[j] == after[i];
        assert(is_standard_rank(before[j].0));
    }
}

/// The shoe the dealer draws from.
pub struct Shoe {
    cards: Vec<Card>,
}

impl View for Shoe {
    type V = Seq<CardView>;

    closed spec fn view(&self) -> Seq<CardView> {
        views(self.cards@)
    }
}

impl Shoe {
    /// Only cards of fresh decks are ever in a shoe.
    #[verifier::type_invariant]
    spec fn holds_standard_cards(self) -> bool {
        all_standard(views(self.cards@))
    }

    /// A shoe of `num_decks` fresh decks, shuffled.
    pub fn new(num_decks: u8) -> (shoe: Shoe)
        ensures
            shoe@.len() == 52 * num_decks,
            shoe@.to_multiset() == fresh_shoe(num_decks as nat).to_multiset(),
    {
        let mut cards: Vec<Card> = Vec::new();
        let mut d: u8 = 0;
        while d < num_decks
            invariant
                d <= num_decks,
                views(cards@) =~= fresh_shoe(num_decks as nat).take(52 * d),
            decreases num_decks - d,
        {
            let mut s: usize = 0;
            while s < 4
                invariant
                    d < num_decks,
                    s <= 4,
                    views(cards@) =~= fresh_shoe(num_decks as nat).take(52 * d + 13 * s),
                decreases 4 - s,
            {
                let mut r: usize = 0;
                while r < 13
                    invariant
                        d < num_decks,
                        s < 4,
                        r <= 13,
                        views(cards@) =~= fresh_shoe(num_decks as nat).take(52 * d + 13 * s + r),
                    decreases 13 - r,
                {
                    let ghost before = cards@;
                    cards.push(Card { rank: String::from_str(rank_label(r)), suit: suit_label(s) });
                    proof {
                        lemma_fresh_card_at(d as int, s as int, r as int);
                        assert(52 * d + 13 * s + r < 52 * num_decks) by (nonlinear_arith)
                            requires
                                d < num_decks,
                                s < 4,
                                r < 13,
                        ;
                        assert(views(cards@) =~= views(before).push(
                            (rank_chars(r as int), suit_at(s as int)),
                        ));
                    }
                    r = r + 1;
                }
                s = s + 1;
            }
            d = d + 1;
        }
        assert(fresh_shoe(num_decks as nat).take(52 * num_decks) =~= fresh_shoe(num_decks as nat));
        proof {
            lemma_fresh_shoe_standard(num_decks as nat);
        }
        let mut shoe = Shoe { cards };
        shoe.shuffle();
        proof {
            broadcast use vstd::seq_lib::group_to_multiset_ensures;

            assert(shoe@.to_multiset().len() == fresh_shoe(num_decks as nat).to_multiset().len());
        }
        shoe
    }

    /// Puts the cards in an order that chance decides.
    pub fn shuffle(&mut self)
        ensures
            final(self)@.to_multiset() == old(self)@.to_multiset(),
    {
        proof {
            use_type_invariant(&*self);
        }
        let mut cards: Vec<Card> = Vec::new();
        std::mem::swap(&mut cards, &mut self.cards);
        let ghost before = views(cards@);
        shuffle_cards(&mut cards);
        proof {
            lemma_same_cards_standard(before, views(cards@));
        }
        self.cards = cards;
    }

    /// Takes the last card of the shoe; an empty shoe is first refilled with six
    /// fresh decks, shuffled.
    pub fn draw(&mut self) -> (card: Card)
        ensures
            drew(old(self)@, final(self)@, card@),
            is_standard_rank(card@.0),
    {
        proof {
            use_type_invariant(&*self);
        }
        let mut cards: Vec<Card> = Vec::new();
        std::mem::swap(&mut cards, &mut self.cards);
        if cards.len() == 0 {
            let mut fresh = Shoe::new(6);
            fresh.shuffle();
            proof {
                use_type_invariant(&fresh);
            }
            std::mem::swap(&mut cards, &mut fresh.cards);
            proof {
                broadcast use vstd::seq_lib::group_to_multiset_ensures;

                assert(views(cards@).to_multiset().len() == fresh_shoe(6).to_multiset().len());
            }
        }
        let ghost full = views(cards@);
        let card = cards.pop().unwrap();
        proof {
            assert(views(cards@) =~= full.drop_last());
            assert(full[full.len() - 1] == card@);
            broadcast use vstd::seq_lib::group_to_multiset_ensures;
            assert(full =~= views(cards@).push(card@));
        }
        self.cards = cards;
        card
    }

    pub fn needs_reshuffle(&self) -> (res: bool)
        ensures
            res == (self@.len() < 60),
    {
        self.cards.len() < 60
    }

    pub fn remaining(&self) -> (n: usize)
        ensures
            n == self@.len(),
    {
        self.cards.len()
    }
}


/// The hand's total with every ace counted low.
pub open spec fn hard_total(cards: Seq<CardView>) -> int {
    raw_sum(cards) - 10 * ace_count(cards)
}

pub(crate) proof fn lemma_push_sums(cards: Seq<CardView>, card: CardView)
    ensures
        raw_sum(cards.push(card)) == raw_sum(cards) + rank_value(card.0),
        ace_count(cards.push(card)) == ace_count(cards) + if is_ace_rank(card.0) {
            1int
        } else {
            0int
        },
{
    assert(cards.push(card).drop_last() =~= cards);
}

/// Every ace counts 11 in the raw sum, and no card counts less than nothing.
proof fn lemma_aces_in_raw_sum(cards: Seq<CardView>)
    ensures
        raw_sum(cards) >= 11 * ace_count(cards),
        ace_count(cards) >= 0,
    decreases cards.len(),
{
    if cards.len() > 0 {
        lemma_aces_in_raw_sum(cards.drop_last());
    }
}

/// The points of each standard rank.
pub(crate) proof fn lemma_standard_rank_value(rank: Seq<char>)
    requires
        is_standard_rank(rank),
    ensures
        is_ace_rank(rank) ==> rank_value(rank) == 11,
        !is_ace_rank(rank) ==> 2 <= rank_value(rank) <= 10,
{
    let k = choose|k: int| 0 <= k < 13 && #[trigger] rank_chars(k) == rank;
    reveal_with_fuel(decimal_value, 3);
    if 1 <= k <= 8 {
        assert(rank.len() == 1);
        assert(rank.drop_last() =~= Seq::<char>::empty());
        assert(is_ascii_digit(rank[0]));
        assert(!(rank.len() > 0 && rank[0] == '+'));
        assert(parse_u8_spec(rank) == Some((k + 1) as u8));
    } else if k == 9 {
        assert(rank.drop_last() =~= seq!['1']);
        assert(seq!['1'].drop_last() =~= Seq::<char>::empty());
        assert(is_ascii_digit(rank[0]) && is_ascii_digit(rank[1]));
        assert(parse_u8_spec(rank) == Some(10u8));
    }
}

/// Counting aces low keeps a legal count: it stops at 21 or under unless no ace
/// beyond `keep` is left, and it only counts an ace low while over 21.
proof fn lemma_count_aces_low_bounds(sum: int, aces: int, keep: int)
    requires
        0 <= keep <= aces,
    ensures
        ({
            let (t, left) = count_aces_low(sum, aces, keep);
            &&& keep <= left <= aces
            &&& t == sum - 10 * (aces - left)
            &&& (t > 21 ==> left == keep)
            &&& (left < aces ==> t > 11)
        }),
    decreases aces,
{
    if sum > 21 && aces > keep {
        lemma_count_aces_low_bounds(sum - 10, aces - 1, keep);
    }
}

/// Counting aces low down to one ace, then on down to none, is counting them low down to none.
proof fn lemma_count_aces_low_in_two_steps(sum: int, aces: int)
    requires
        1 <= aces,
    ensures
        ({
            let (s1, a1) = count_aces_low(sum, aces, 1);
            count_aces_low(s1, a1, 0) == count_aces_low(sum, aces, 0)
        }),
    decreases aces,
{
    if sum > 21 && aces > 1 {
        lemma_count_aces_low_in_two_steps(sum - 10, aces - 1);
    }
}

/// The hand's points with `low` of its aces counted as 1 and the rest as 11.
pub open spec fn count_with_low_aces(cards: Seq<CardView>, low: int) -> int {
    raw_sum(cards) - 10 * low
}

/// Totals over 255 read as 255.
pub open spec fn capped(t: int) -> int {
    if t > 255 {
        255
    } else {
        t
    }
}

/// The total counts each ace as 1 or 11 so as to reach the highest total that is not
/// over 21; when every way is over 21, every ace counts 1. Totals over 255 read 255.
pub proof fn lemma_total_is_best_count(cards: Seq<CardView>)
    ensures
        exists|low: int|
            0 <= low <= ace_count(cards) && hand_total(cards) == capped(
                #[trigger] count_with_low_aces(cards, low),
            ),
        hand_total(cards) <= 21 ==> forall|low: int|
            0 <= low <= ace_count(cards) && #[trigger] count_with_low_aces(cards, low) <= 21
                ==> count_with_low_aces(cards, low) <= hand_total(cards),
        hand_total(cards) > 21 ==> hand_total(cards) == capped(hard_total(cards)),
{
    lemma_aces_in_raw_sum(cards);
    let s = raw_sum(cards);
    let a = ace_count(cards);
    lemma_count_aces_low_bounds(s, a, 0);
    let (t, left) = count_aces_low(s, a, 0);
    assert(hand_total(cards) == capped(count_with_low_aces(cards, a - left)));
}

/// The total in closed form: one ace counts 11 exactly when the hand holds an ace and
/// its total with every ace counted 1 is at most 11; every other ace counts 1. The
/// hand is soft exactly then.
pub proof fn lemma_total_closed_form(cards: Seq<CardView>)
    ensures
        hand_total(cards) == capped(
            if ace_count(cards) > 0 && hard_total(cards) <= 11 {
                hard_total(cards) + 10
            } else {
                hard_total(cards)
            },
        ),
        hand_is_soft(cards) == (ace_count(cards) > 0 && hard_total(cards) <= 11),
{
    lemma_aces_in_raw_sum(cards);
    let s = raw_sum(cards);
    let a = ace_count(cards);
    lemma_count_aces_low_bounds(s, a, 0);
    if a > 0 {
        lemma_count_aces_low_bounds(s, a, 1);
    } else {
        assert(count_aces_low(s, a, 1) == (s, a));
    }
}

/// A soft hand holds an ace counted as 11: it is not busted and totals at least 11.
pub proof fn lemma_soft_hand(cards: Seq<CardView>)
    requires
        hand_is_soft(cards),
    ensures
        ace_count(cards) >= 1,
        11 <= hand_total(cards) <= 21,
        !hand_is_busted(cards),
{
    lemma_aces_in_raw_sum(cards);
    let s = raw_sum(cards);
    let a = ace_count(cards);
    if a == 0 {
        assert(count_aces_low(s, a, 1) == (s, a));
    } else {
        lemma_count_aces_low_bounds(s, a, 1);
        lemma_count_aces_low_in_two_steps(s, a);
        let (s1, a1) = count_aces_low(s, a, 1);
        assert(count_aces_low(s1, a1, 0) == (s1, a1));
    }
}

/// A blackjack is two cards totalling 21, so it is never busted.
pub proof fn lemma_blackjack_not_busted(cards: Seq<CardView>)
    requires
        hand_is_blackjack(cards),
    ensures
        !hand_is_busted(cards),
        cards.len() == 2,
{
}

/// The dealer's turn took the hand from `before` to `after`: cards were added one at
/// a time while the total was under 17, and not once it reached 17.
pub open spec fn dealer_stood(before: Seq<CardView>, after: Seq<CardView>) -> bool {
    &&& before.len() <= after.len()
    &&& after.take(before.len() as int) == before
    &&& hand_total(after) >= 17
    &&& forall|k: int| before.len() <= k < after.len() ==> hand_total(#[trigger] after.take(k)) < 17
}

/// `shoes` are the states a shoe went through from `first` to `last` while the
/// cards `drawn` were drawn from it, one after another.
pub open spec fn draws_through(
    shoes: Seq<Seq<CardView>>,
    drawn: Seq<CardView>,
    first: Seq<CardView>,
    last: Seq<CardView>,
) -> bool {
    &&& shoes.len() == drawn.len() + 1
    &&& shoes[0] == first
    &&& shoes.last() == last
    &&& forall|k: int| 0 <= k < drawn.len() ==> drew(#[trigger] shoes[k], shoes[k + 1], drawn[k])
}

/// The hand's hard total, cut off at 17: what is left before the dealer must stand.
spec fn dealer_room(cards: Seq<CardView>) -> int {
    if hard_total(cards) >= 17 {
        0
    } else {
        17 - hard_total(cards)
    }
}

/// The dealer draws from the shoe until the hand's total is 17 or more.
pub fn dealer_play(shoe: &mut Shoe, dealer_hand: &mut Hand)
    requires
        hand_fits(old(dealer_hand)@),
    ensures
        dealer_stood(old(dealer_hand)@, final(dealer_hand)@),
        hand_fits(final(dealer_hand)@),
        forall|k: int|
            old(dealer_hand)@.len() <= k < final(dealer_hand)@.len() ==> is_standard_rank(
                #[trigger] final(dealer_hand)@[k].0,
            ),
        final(dealer_hand)@.len() <= old(dealer_hand)@.len() + 17,
        exists|shoes: Seq<Seq<CardView>>|
            draws_through(
                shoes,
                final(dealer_hand)@.skip(old(dealer_hand)@.len() as int),
                old(shoe)@,
                final(shoe)@,
            ),
{
    let ghost start = dealer_hand@;
    let ghost mut shoes: Seq<Seq<CardView>> = seq![shoe@];
    assert(dealer_hand@.take(start.len() as int) =~= start);
    assert(dealer_hand@.skip(start.len() as int) =~= Seq::<CardView>::empty());
    proof {
        lemma_aces_in_raw_sum(start);
    }
    while dealer_hand.total() < 17
        invariant
            hand_fits(dealer_hand@),
            start.len() <= dealer_hand@.len(),
            dealer_hand@.take(start.len() as int) == start,
            forall|k: int|
                start.len() <= k < dealer_hand@.len() ==> hand_total(#[trigger] dealer_hand@.take(k))
                    < 17,
            draws_through(shoes, dealer_hand@.skip(start.len() as int), shoes[0], shoe@),
            shoes[0] == old(shoe)@,
            forall|k: int|
                start.len() <= k < dealer_hand@.len() ==> is_standard_rank(
                    #[trigger] dealer_hand@[k].0,
                ),
            hard_total(start) >= 0,
            hard_total(dealer_hand@) >= hard_total(start) + (dealer_hand@.len() - start.len()),
            dealer_hand@.len() <= start.len() + 17,
        decreases dealer_room(dealer_hand@),
    {
        let ghost before = dealer_hand@;
        let ghost shoe_before = shoe@;
        proof {
            lemma_aces_in_raw_sum(before);
            lemma_count_aces_low_bounds(raw_sum(before), ace_count(before), 0);
        }
        let card = shoe.draw();
        dealer_hand.add_card(card);
        proof {
            let after = dealer_hand@;
            lemma_push_sums(before, card@);
            lemma_standard_rank_value(card@.0);
            shoes = shoes.push(shoe@);
            assert(after.take(before.len() as int) =~= before);
            assert(after[before.len() as int] == card@);
            assert forall|k: int| start.len() <= k < after.len() implies is_standard_rank(
                #[trigger] after[k].0,
            ) by {
                if k < before.len() {
                    assert(after[k] == before[k]);
                }
            }
            assert(after.take(start.len() as int) =~= start) by {
                assert(before.take(start.len() as int) =~= start);
            }
            assert forall|k: int| start.len() <= k < after.len() implies hand_total(
                #[trigger] after.take(k),
            ) < 17 by {
                if k < before.len() {
                    assert(after.take(k) =~= before.take(k));
                }
            }
            let drawn = after.skip(start.len() as int);
            assert(drawn =~= before.skip(start.len() as int).push(card@));
            assert forall|k: int| 0 <= k < drawn.len() implies drew(
                #[trigger] shoes[k],
                shoes[k + 1],
                drawn[k],
            ) by {
                if k < drawn.len() - 1 {
                    assert(shoes[k] == shoes.drop_last()[k]);
                    assert(shoes[k + 1] == shoes.drop_last()[k + 1]);
                }
            }
        }
    }
    proof {
        let after = dealer_hand@;
        assert(after.take(after.len() as int) =~= after);
    }
}

/// A dealer's hand that already totals 17 or more gets no card.
pub proof fn lemma_dealer_stands_on_17(before: Seq<CardView>, after: Seq<CardView>)
    requires
        dealer_stood(before, after),
        hand_total(before) >= 17,
    ensures
        after == before,
{
    if after.len() > before.len() {
        assert(hand_total(after.take(before.len() as int)) < 17);
    }
    assert(after =~= after.take(before.len() as int));
}

/// The dealer stands on a soft 17 to 21: a hand with an ace whose total with every
/// ace counted 1 is 7 to 11 (such as A,7) gets no card.
pub proof fn lemma_dealer_stands_on_soft_17(before: Seq<CardView>, after: Seq<CardView>)
    requires
        dealer_stood(before, after),
        ace_count(before) >= 1,
        7 <= hard_total(before) <= 11,
    ensures
        after == before,
{
    lemma_total_closed_form(before);
    lemma_dealer_stands_on_17(before, after);
}

/// A dealer's hand under 17 gets at least one card, and every card is taken while the
/// hand is under 17: the hand ends at 17 or more.
pub proof fn lemma_dealer_draws_under_17(before: Seq<CardView>, after: Seq<CardView>)
    requires
        dealer_stood(before, after),
        hand_total(before) < 17,
    ensures
        after.len() > before.len(),
        hand_total(after) >= 17,
{
    if after.len() == before.len() {
        assert(after =~= after.take(before.len() as int));
    }
}

/// How a round ends.
#[derive(Debug, Clone, Copy, PartialEq, Eq, Structural)]
pub enum GameResult {
    Playing,
    PlayerBust,
    DealerBust,
    PlayerWins,
    DealerWins,
    Push,
    Blackjack,
}

/// The result of a finished round: a busted player loses whatever the dealer holds;
/// a player's blackjack beats anything but a dealer's blackjack; then a busted dealer
/// loses; two blackjacks push; otherwise the higher total wins and equal totals push.
pub open spec fn round_result(player: Seq<CardView>, dealer: Seq<CardView>) -> GameResult {
    if hand_is_busted(player) {
        GameResult::PlayerBust
    } else if hand_is_blackjack(player) && !hand_is_blackjack(dealer) {
        GameResult::Blackjack
    } else if hand_is_busted(dealer) {
        GameResult::DealerBust
    } else if hand_is_blackjack(player) && hand_is_blackjack(dealer) {
        GameResult::Push
    } else if hand_total(player) > hand_total(dealer) {
        GameResult::PlayerWins
    } else if hand_total(dealer) > hand_total(player) {
        GameResult::DealerWins
    } else {
        GameResult::Push
    }
}

/// When neither hand is busted nor a blackjack, the higher total wins and equal totals
/// push, whatever the totals are.
pub proof fn lemma_higher_total_wins(player: Seq<CardView>, dealer: Seq<CardView>)
    requires
        !hand_is_busted(player),
        !hand_is_busted(dealer),
        !hand_is_blackjack(player),
        !hand_is_blackjack(dealer),
    ensures
        hand_total(player) == hand_total(dealer) ==> round_result(player, dealer) == GameResult::Push,
        hand_total(player) > hand_total(dealer) ==> round_result(player, dealer)
            == GameResult::PlayerWins,
        hand_total(player) < hand_total(dealer) ==> round_result(player, dealer)
            == GameResult::DealerWins,
{
}

/// Between two hands that are neither busted nor blackjacks, swapping the hands swaps
/// the winner and keeps a push.
pub proof fn lemma_result_swaps_with_hands(a: Seq<CardView>, b: Seq<CardView>)
    requires
        !hand_is_busted(a),
        !hand_is_busted(b),
        !hand_is_blackjack(a),
        !hand_is_blackjack(b),
    ensures
        (round_result(a, b) == GameResult::PlayerWins) == (round_result(b, a)
            == GameResult::DealerWins),
        (round_result(a, b) == GameResult::Push) == (round_result(b, a) == GameResult::Push),
{
    lemma_higher_total_wins(a, b);
    lemma_higher_total_wins(b, a);
}

/// A busted player loses whatever the dealer holds; a player's blackjack against a
/// dealer without one is paid as a blackjack.
pub proof fn lemma_bust_and_blackjack(player: Seq<CardView>, dealer: Seq<CardView>)
    ensures
        hand_is_busted(player) ==> round_result(player, dealer) == GameResult::PlayerBust,
        hand_is_blackjack(player) && !hand_is_blackjack(dealer) ==> round_result(player, dealer)
            == GameResult::Blackjack,
{
}

pub fn determine_result(player: &Hand, dealer: &Hand) -> (res: GameResult)
    requires
        hand_fits(player@),
        hand_is_busted(player@) || hand_fits(dealer@),
    ensures
        res == round_result(player@, dealer@),
{
    if player.is_busted() {
        return GameResult::PlayerBust;
    }
    if player.is_blackjack() && !dealer.is_blackjack() {
        return GameResult::Blackjack;
    }
    if dealer.is_busted() {
        return GameResult::DealerBust;
    }
    if player.is_blackjack() && dealer.is_blackjack() {
        return GameResult::Push;
    }
    let player_total = player.total();
    let dealer_total = dealer.total();

    if player_total > dealer_total {
        GameResult::PlayerWins
    } else if dealer_total > player_total {
        GameResult::DealerWins
    } else {
        GameResult::Push
    }
}

} // verus!
