//! What the table's web service decides: bets it accepts, session ids it reads and
//! writes, and the view of a session that it hands back.

use crate::game::{self, Card, CardView, GameResult, Hand, Suit};
use crate::state::{self, GameSession};
use std::collections::HashMap;
use vstd::prelude::*;

verus! {

/// Why a request is turned down.
#[derive(Debug, Clone, Copy, PartialEq, Eq, Structural)]
pub enum ApiError {
    /// The request is malformed: an unreadable session id, or a bet above the balance.
    BadRequest,
    /// No session has that id.
    NotFound,
}

/// A request to open a session, with an optional bet for its first round.
pub struct NewGameRequest {
    pub bet: Option<i64>,
}

/// A request that names a session.
pub struct SessionRequest {
    pub session_id: String,
}

/// A request to deal a new round in a session.
pub struct DealRequest {
    pub session_id: String,
    pub bet: i64,
}

/// A card as the service shows it: its rank and its suit's symbol.
pub struct CardResponse {
    pub rank: String,
    pub suit: String,
}

impl View for CardResponse {
    type V = (Seq<char>, Seq<char>);

    open spec fn view(&self) -> (Seq<char>, Seq<char>) {
        (self.rank@, self.suit@)
    }
}

/// The view of a session that the service hands back.
pub struct GameStateResponse {
    pub session_id: String,
    pub player_cards: Vec<CardResponse>,
    pub player_total: u8,
    pub player_soft: bool,
    pub dealer_cards: Vec<CardResponse>,
    pub dealer_total: Option<u8>,
    pub status: GameResult,
    pub balance: i64,
    pub current_bet: i64,
    pub can_double: bool,
}

/// The symbol that names a suit: ♠ ♥ ♦ ♣.
pub open spec fn suit_symbol(suit: Suit) -> Seq<char> {
    match suit {
        Suit::Spades => seq!['\u{2660}'],
        Suit::Hearts => seq!['\u{2665}'],
        Suit::Diamonds => seq!['\u{2666}'],
        Suit::Clubs => seq!['\u{2663}'],
    }
}

/// How a card is shown: its rank and its suit's symbol.
pub open spec fn shown_card(card: CardView) -> (Seq<char>, Seq<char>) {
    (card.0, suit_symbol(card.1))
}

pub open spec fn shown_cards(cards: Seq<CardView>) -> Seq<(Seq<char>, Seq<char>)> {
    cards.map_values(|c: CardView| shown_card(c))
}

pub open spec fn response_views(cards: Seq<CardResponse>) -> Seq<(Seq<char>, Seq<char>)> {
    cards.map_values(|c: CardResponse| c@)
}

/// The symbol of a suit, as text.
pub fn suit_text(suit: Suit) -> (text: String)
    ensures
        text@ == suit_symbol(suit),
{
    proof {
        reveal_strlit("\u{2660}");
        reveal_strlit("\u{2665}");
        reveal_strlit("\u{2666}");
        reveal_strlit("\u{2663}");
    }
    match suit {
        Suit::Spades => String::from_str("\u{2660}"),
        Suit::Hearts => String::from_str("\u{2665}"),
        Suit::Diamonds => String::from_str("\u{2666}"),
        Suit::Clubs => String::from_str("\u{2663}"),
    }
}

impl CardResponse {
    pub fn from(card: &Card) -> (res: CardResponse)
        ensures
            res@ == shown_card(card@),
    {
        CardResponse { rank: card.rank.clone(), suit: suit_text(card.suit) }
    }
}

/// The cards of a hand as shown, the first `count` of them.
fn show_cards(hand: &Hand, count: usize) -> (res: Vec<CardResponse>)
    requires
        count <= hand@.len(),
    ensures
        response_views(res@) == shown_cards(hand@).take(count as int),
{
    let mut res: Vec<CardResponse> = Vec::new();
    let mut i: usize = 0;
    while i < count
        invariant
            count <= hand@.len(),
            i <= count,
            response_views(res@) =~= shown_cards(hand@).take(i as int),
        decreases count - i,
    {
        let shown = CardResponse::from(&hand.cards[i]);
        let ghost before = res@;
        res.push(shown);
        proof {
            assert(hand@[i as int] == hand.cards@[i as int]@);
            assert(response_views(res@) =~= response_views(before).push(shown@));
            assert(shown_cards(hand@).take(i + 1) =~= shown_cards(hand@).take(i as int).push(
                shown_card(hand@[i as int]),
            ));
        }
        i = i + 1;
    }
    res
}

/// The lower-case hexadecimal digit of `n`, for `0 <= n < 16`.
pub open spec fn hex_digit(n: int) -> char {
    if n < 10 {
        (('0' as int) + n) as char
    } else {
        (('a' as int) + n - 10) as char
    }
}

/// The `k`-th of the 32 hexadecimal digits of `id`, most significant first.
pub open spec fn id_nibble(id: u128, k: int) -> int {
    (id as int / vstd::arithmetic::power::pow(16, (31 - k) as nat)) % 16
}

/// A session id as text: its 32 hexadecimal digits, lower case, most significant first,
/// with hyphens after the 8th, 12th, 16th and 20th digit.
pub open spec fn id_text(id: u128) -> Seq<char> {
    Seq::new(
        36,
        |p: int|
            if p == 8 || p == 13 || p == 18 || p == 23 {
                '-'
            } else {
                let hyphens = (if p > 8 { 1int } else { 0int }) + (if p > 13 { 1int } else { 0int }) + (
                if p > 18 { 1int } else { 0int }) + (if p > 23 { 1int } else { 0int });
                hex_digit(id_nibble(id, p - hyphens))
            },
    )
}

/// `uuid::Uuid::from_u128` then `ToString::to_string` (its `Display`). The id's
/// 16 bytes are taken most significant first, and the text is the hyphenated
/// lower-case form, e.g. `a1a2a3a4-b1b2-c1c2-d1d2-d3d4d5d6d7d8`. The contract
/// claims that form.
#[verifier::external_body]
fn uuid_to_text(id: u128) -> (text: String)
    ensures
        text@ == id_text(id),
{
    uuid::Uuid::from_u128(id).to_string()
}

/// What `uuid::Uuid::parse_str` reads from a text, as the id's 128-bit value;
/// `None` where it reports an error.
pub uninterp spec fn uuid_parse(text: Seq<char>) -> Option<u128>;

/// `uuid::Uuid::parse_str` then `as_u128`. The contract names the result; beside the
/// name it claims that the hyphenated form that `uuid_to_text` writes is read back
/// to the same id (the crate documents that every format it writes is parsed).
#[verifier::external_body]
fn uuid_from_text(text: &str) -> (id: Option<u128>)
    ensures
        id == uuid_parse(text@),
        forall|n: u128| text@ == id_text(n) ==> id == Some(n),
{
    uuid::Uuid::parse_str(text).ok().map(|u| u.as_u128())
}

/// The session id that a request names.
pub fn parse_session_id(text: &str) -> (res: Result<u128, ApiError>)
    ensures
        res == match uuid_parse(text@) {
            Some(id) => Ok(id),
            None => Err(ApiError::BadRequest),
        },
        forall|n: u128| text@ == id_text(n) ==> res == Ok::<u128, ApiError>(n),
{
    match uuid_from_text(text) {
        Some(id) => Ok(id),
        None => Err(ApiError::BadRequest),
    }
}

/// The text form of a session id.
pub fn session_id_text(id: u128) -> (text: String)
    ensures
        text@ == id_text(id),
{
    uuid_to_text(id)
}

/// A bet held between the table limits of 10 and 500.
pub open spec fn table_bet(bet: int) -> int {
    if bet < 10 {
        10
    } else if bet > 500 {
        500
    } else {
        bet
    }
}

/// The bet the table takes for a requested bet: raised to 10, lowered to 500.
pub fn clamp_bet(bet: i64) -> (res: i64)
    ensures
        res == table_bet(bet as int),
{
    let raised = if bet < 10 {
        10
    } else {
        bet
    };
    if raised > 500 {
        500
    } else {
        raised
    }
}

/// The bet for a session's first round: 50 when none is asked for, held to the limits.
pub fn opening_bet(requested: Option<i64>) -> (res: i64)
    ensures
        res == table_bet(
            match requested {
                Some(b) => b as int,
                None => 50,
            },
        ),
{
    let bet = match requested {
        Some(b) => b,
        None => 50,
    };
    clamp_bet(bet)
}

/// `session` is a new session whose first round was dealt with the opening bet for
/// `requested_bet`: six fresh decks, 1000 less the bet, two cards each, and a player's
/// blackjack settled at once.
pub open spec fn session_started(session: GameSession, requested_bet: Option<i64>) -> bool {
    let bet = table_bet(
        match requested_bet {
            Some(b) => b as int,
            None => 50,
        },
    );
    let player = session.player_hand@;
    let dealer = session.dealer_hand@;
    let dealt = session.shoe@ + seq![dealer[1], player[1], dealer[0], player[0]];
    &&& player.len() == 2
    &&& dealer.len() == 2
    &&& game::hand_fits(player)
    &&& game::hand_fits(dealer)
    &&& dealt.to_multiset() == game::fresh_shoe(6).to_multiset()
    &&& session.current_bet == bet
    &&& game::hand_is_blackjack(player) ==> session.status == game::round_result(player, dealer)
        && session.balance == 1000 - bet + state::payout(session.status, bet)
    &&& !game::hand_is_blackjack(player) ==> session.status == GameResult::Playing
        && session.balance == 1000 - bet
}

/// A new session whose first round is dealt with the opening bet for `requested_bet`.
pub fn start_session(requested_bet: Option<i64>) -> (session: GameSession)
    ensures
        session_started(session, requested_bet),
{
    let bet = opening_bet(requested_bet);
    let mut session = GameSession::new();
    session.deal_round(bet);
    session
}

/// Deals a new round in `session` with the table bet for `requested_bet`; a bet above
/// the balance is refused and leaves the session as it was.
pub fn deal_in_session(session: &mut GameSession, requested_bet: i64) -> (res: Result<(), ApiError>)
    requires
        old(session).balance < table_bet(requested_bet as int) || state::payout_fits(
            GameResult::Blackjack,
            old(session).balance - table_bet(requested_bet as int),
            table_bet(requested_bet as int),
        ),
    ensures
        old(session).balance < table_bet(requested_bet as int) ==> res == Err::<(), ApiError>(
            ApiError::BadRequest,
        ) && *final(session) == *old(session),
        old(session).balance >= table_bet(requested_bet as int) ==> res is Ok && state::round_dealt(
            *old(session),
            *final(session),
            table_bet(requested_bet as int),
        ),
{
    let bet = clamp_bet(requested_bet);
    if session.balance < bet {
        return Err(ApiError::BadRequest);
    }
    session.deal_round(bet);
    Ok(())
}

/// The dealer's hole card stays hidden while the round is in play.
pub open spec fn hides_dealer(session: &GameSession) -> bool {
    session.status == GameResult::Playing && session.dealer_hand@.len() >= 2
}

/// The session can be described: its hands can be scored where they are shown.
pub open spec fn can_describe(session: GameSession) -> bool {
    game::hand_fits(session.player_hand@) && (hides_dealer(&session) || game::hand_fits(
        session.dealer_hand@,
    ))
}

/// `res` is the view of `session` under the id `session_id`: the id's text, both hands
/// as shown with their totals, the dealer's second card and total hidden while the
/// round is in play, the status and money as they are, and doubling offered on a
/// two-card hand in play when the balance covers the bet.
pub open spec fn describes(res: GameStateResponse, session_id: u128, session: GameSession) -> bool {
    &&& res.session_id@ == id_text(session_id)
    &&& response_views(res.player_cards@) == shown_cards(session.player_hand@)
    &&& res.player_total == game::hand_total(session.player_hand@)
    &&& res.player_soft == game::hand_is_soft(session.player_hand@)
    &&& response_views(res.dealer_cards@) == if hides_dealer(&session) {
        shown_cards(session.dealer_hand@).take(1)
    } else {
        shown_cards(session.dealer_hand@)
    }
    &&& res.dealer_total == if hides_dealer(&session) {
        None
    } else {
        Some(game::hand_total(session.dealer_hand@) as u8)
    }
    &&& res.status == session.status
    &&& res.balance == session.balance
    &&& res.current_bet == session.current_bet
    &&& res.can_double == (session.status == GameResult::Playing && session.player_hand@.len() == 2
        && session.balance >= session.current_bet)
}

/// Once the round is over (any status but `Playing`) the view shows every dealer card
/// and the dealer's total; while it is in play with two or more dealer cards, it shows
/// the first dealer card only and no total.
pub proof fn lemma_dealer_hidden_only_in_play(res: GameStateResponse, session_id: u128, session: GameSession)
    requires
        describes(res, session_id, session),
    ensures
        session.status != GameResult::Playing ==> {
            &&& response_views(res.dealer_cards@) == shown_cards(session.dealer_hand@)
            &&& res.dealer_cards@.len() == session.dealer_hand@.len()
            &&& res.dealer_total == Some(game::hand_total(session.dealer_hand@) as u8)
        },
        session.status == GameResult::Playing && session.dealer_hand@.len() >= 2 ==> {
            &&& res.dealer_cards@.len() == 1
            &&& response_views(res.dealer_cards@)[0] == shown_card(session.dealer_hand@[0])
            &&& res.dealer_total is None
        },
{
    assert(res.dealer_cards@.len() == response_views(res.dealer_cards@).len());
}

/// The view of `session`, under the id `session_id`: the dealer's second card and
/// total are hidden while the round is in play, and doubling is offered on a two-card
/// hand in play when the balance covers the bet.
pub fn build_response(session_id: u128, session: &GameSession) -> (res: GameStateResponse)
    requires
        can_describe(*session),
    ensures
        describes(res, session_id, *session),
{
    let hide_dealer = session.status == GameResult::Playing && session.dealer_hand.cards.len() >= 2;

    let dealer_cards = if hide_dealer {
        show_cards(&session.dealer_hand, 1)
    } else {
        show_cards(&session.dealer_hand, session.dealer_hand.cards.len())
    };
    let dealer_total = if hide_dealer {
        None
    } else {
        Some(session.dealer_hand.total())
    };
    let player_cards = show_cards(&session.player_hand, session.player_hand.cards.len());
    proof {
        assert(shown_cards(session.player_hand@).take(session.player_hand@.len() as int)
            =~= shown_cards(session.player_hand@));
        assert(shown_cards(session.dealer_hand@).take(session.dealer_hand@.len() as int)
            =~= shown_cards(session.dealer_hand@));
    }

    GameStateResponse {
        session_id: session_id_text(session_id),
        player_cards,
        player_total: session.player_hand.total(),
        player_soft: session.player_hand.is_soft(),
        dealer_cards,
        dealer_total,
        status: session.status,
        balance: session.balance,
        current_bet: session.current_bet,
        can_double: session.status == GameResult::Playing && session.player_hand.cards.len() == 2
            && session.balance >= session.current_bet,
    }
}

/// `uuid::Uuid::new_v4`, taken as its 128-bit value. The id is random: the contract
/// claims nothing of it.
#[verifier::external_body]
fn new_session_id() -> (id: u128) {
    uuid::Uuid::new_v4().as_u128()
}

/// A hit in this session, and the answer to it, stay within the machine's arithmetic.
pub open spec fn hit_request_fits(session: GameSession) -> bool {
    &&& state::hit_fits(session)
    &&& session.status == GameResult::Playing ==> game::hand_fits(session.dealer_hand@)
    &&& session.status != GameResult::Playing ==> can_describe(session)
}

/// Standing in this session, and the answer to it, stay within the machine's arithmetic.
pub open spec fn stand_request_fits(session: GameSession) -> bool {
    &&& state::stand_fits(session)
    &&& session.status != GameResult::Playing ==> can_describe(session)
}

/// Doubling down in this session, and the answer to it, stay within the machine's
/// arithmetic.
pub open spec fn double_down_request_fits(session: GameSession) -> bool {
    &&& state::double_down_fits(session)
    &&& !state::may_double(session) ==> can_describe(session)
}

/// Dealing with `bet` in this session stays within the machine's arithmetic, or is refused.
pub open spec fn deal_request_fits(session: GameSession, bet: int) -> bool {
    session.balance < bet || state::deal_fits(session, bet)
}

/// Whether the session can be described.
pub fn describable(session: &GameSession) -> (res: bool)
    ensures
        res == can_describe(*session),
{
    let hide = session.status == GameResult::Playing && session.dealer_hand.cards.len() >= 2;
    session.player_hand.counters_fit() && (hide || session.dealer_hand.counters_fit())
}

/// Whether a hit in the session, and the answer to it, stay within the machine's arithmetic.
pub fn can_answer_hit(session: &GameSession) -> (res: bool)
    ensures
        res == hit_request_fits(*session),
{
    if session.status == GameResult::Playing {
        session.within_limits_for_hit() && session.dealer_hand.counters_fit()
    } else {
        describable(session)
    }
}

/// Whether standing in the session, and the answer to it, stay within the machine's
/// arithmetic.
pub fn can_answer_stand(session: &GameSession) -> (res: bool)
    ensures
        res == stand_request_fits(*session),
{
    session.within_limits_for_stand() && (session.status == GameResult::Playing || describable(
        session,
    ))
}

/// Whether doubling down in the session, and the answer to it, stay within the
/// machine's arithmetic.
pub fn can_answer_double_down(session: &GameSession) -> (res: bool)
    ensures
        res == double_down_request_fits(*session),
{
    let may_double = session.status == GameResult::Playing && session.player_hand.cards.len() == 2;
    session.within_limits_for_double_down() && (may_double || describable(session))
}

/// Whether dealing with the table bet for `requested_bet` in the session stays within
/// the machine's arithmetic, or is refused.
pub fn can_answer_deal(session: &GameSession, requested_bet: i64) -> (res: bool)
    ensures
        res == deal_request_fits(*session, table_bet(requested_bet as int)),
{
    let bet = clamp_bet(requested_bet);
    session.balance < bet || session.within_limits_for_deal(bet)
}

/// Opens a session under a fresh random id: its first round is dealt with the opening
/// bet for `requested_bet`, it joins `sessions`, and its view is the answer.
pub fn open_session(sessions: &mut HashMap<u128, GameSession>, requested_bet: Option<i64>) -> (res:
    GameStateResponse)
    ensures
        exists|id: u128|
            {
                &&& final(sessions)@ == old(sessions)@.insert(id, final(sessions)@[id])
                &&& session_started(final(sessions)@[id], requested_bet)
                &&& #[trigger] describes(res, id, final(sessions)@[id])
            },
{
    broadcast use vstd::std_specs::hash::group_hash_axioms;

    let id = new_session_id();
    let session = start_session(requested_bet);
    let res = build_response(id, &session);
    let ghost s = session;
    sessions.insert(id, session);
    assert(final(sessions)@[id] == s);
    res
}

/// Answers a hit in the session `id` of `sessions`. An unknown id is answered
/// `NotFound` and leaves the sessions as they were; otherwise the session takes the hit
/// and its view is the answer.
pub fn hit_session(sessions: &mut HashMap<u128, GameSession>, id: u128) -> (res: Result<
    GameStateResponse,
    ApiError,
>)
    requires
        old(sessions)@.contains_key(id) ==> hit_request_fits(old(sessions)@[id]),
    ensures
        !old(sessions)@.contains_key(id) ==> res == Err::<GameStateResponse, ApiError>(
            ApiError::NotFound,
        ) && final(sessions)@ == old(sessions)@,
        old(sessions)@.contains_key(id) ==> {
            let after = final(sessions)@[id];
            &&& final(sessions)@ == old(sessions)@.insert(id, after)
            &&& state::hit_result(old(sessions)@[id], after)
            &&& (res matches Ok(r) && describes(r, id, after))
        },
{
    broadcast use vstd::std_specs::hash::group_hash_axioms;

    match sessions.remove(&id) {
        None => {
            assert(old(sessions)@.remove(id) =~= old(sessions)@);
            Err(ApiError::NotFound)
        },
        Some(mut session) => {
            session.hit();
            let res = build_response(id, &session);
            let ghost after = session;
            sessions.insert(id, session);
            assert(final(sessions)@ =~= old(sessions)@.insert(id, after));
            Ok(res)
        },
    }
}

/// Answers standing in the session `id` of `sessions`. An unknown id is answered
/// `NotFound` and leaves the sessions as they were; otherwise the session stands and
/// its view is the answer.
pub fn stand_session(sessions: &mut HashMap<u128, GameSession>, id: u128) -> (res: Result<
    GameStateResponse,
    ApiError,
>)
    requires
        old(sessions)@.contains_key(id) ==> stand_request_fits(old(sessions)@[id]),
    ensures
        !old(sessions)@.contains_key(id) ==> res == Err::<GameStateResponse, ApiError>(
            ApiError::NotFound,
        ) && final(sessions)@ == old(sessions)@,
        old(sessions)@.contains_key(id) ==> {
            let after = final(sessions)@[id];
            &&& final(sessions)@ == old(sessions)@.insert(id, after)
            &&& state::stand_result(old(sessions)@[id], after)
            &&& (res matches Ok(r) && describes(r, id, after))
        },
{
    broadcast use vstd::std_specs::hash::group_hash_axioms;

    match sessions.remove(&id) {
        None => {
            assert(old(sessions)@.remove(id) =~= old(sessions)@);
            Err(ApiError::NotFound)
        },
        Some(mut session) => {
            session.stand();
            let res = build_response(id, &session);
            let ghost after = session;
            sessions.insert(id, session);
            assert(final(sessions)@ =~= old(sessions)@.insert(id, after));
            Ok(res)
        },
    }
}

/// Answers doubling down in the session `id` of `sessions`. An unknown id is answered
/// `NotFound` and leaves the sessions as they were; otherwise the session doubles down
/// and its view is the answer.
pub fn double_down_session(sessions: &mut HashMap<u128, GameSession>, id: u128) -> (res: Result<
    GameStateResponse,
    ApiError,
>)
    requires
        old(sessions)@.contains_key(id) ==> double_down_request_fits(old(sessions)@[id]),
    ensures
        !old(sessions)@.contains_key(id) ==> res == Err::<GameStateResponse, ApiError>(
            ApiError::NotFound,
        ) && final(sessions)@ == old(sessions)@,
        old(sessions)@.contains_key(id) ==> {
            let after = final(sessions)@[id];
            &&& final(sessions)@ == old(sessions)@.insert(id, after)
            &&& state::double_down_result(old(sessions)@[id], after)
            &&& (res matches Ok(r) && describes(r, id, after))
        },
{
    broadcast use vstd::std_specs::hash::group_hash_axioms;

    match sessions.remove(&id) {
        None => {
            assert(old(sessions)@.remove(id) =~= old(sessions)@);
            Err(ApiError::NotFound)
        },
        Some(mut session) => {
            session.double_down();
            let res = build_response(id, &session);
            let ghost after = session;
            sessions.insert(id, session);
            assert(final(sessions)@ =~= old(sessions)@.insert(id, after));
            Ok(res)
        },
    }
}

/// Answers a deal in the session `id` of `sessions` with the table bet for
/// `requested_bet`. An unknown id is answered `NotFound`, a bet above the balance
/// `BadRequest`, and either refusal leaves the sessions as they were; otherwise a new
/// round is dealt and the session's view is the answer.
pub fn deal_session(sessions: &mut HashMap<u128, GameSession>, id: u128, requested_bet: i64) -> (res:
    Result<GameStateResponse, ApiError>)
    requires
        old(sessions)@.contains_key(id) ==> deal_request_fits(
            old(sessions)@[id],
            table_bet(requested_bet as int),
        ),
    ensures
        !old(sessions)@.contains_key(id) ==> res == Err::<GameStateResponse, ApiError>(
            ApiError::NotFound,
        ) && final(sessions)@ == old(sessions)@,
        old(sessions)@.contains_key(id) && old(sessions)@[id].balance < table_bet(
            requested_bet as int,
        ) ==> res == Err::<GameStateResponse, ApiError>(ApiError::BadRequest)
            && final(sessions)@ == old(sessions)@,
        old(sessions)@.contains_key(id) && old(sessions)@[id].balance >= table_bet(
            requested_bet as int,
        ) ==> {
            let after = final(sessions)@[id];
            &&& final(sessions)@ == old(sessions)@.insert(id, after)
            &&& state::round_dealt(old(sessions)@[id], after, table_bet(requested_bet as int))
            &&& (res matches Ok(r) && describes(r, id, after))
        },
{
    broadcast use vstd::std_specs::hash::group_hash_axioms;

    match sessions.remove(&id) {
        None => {
            assert(old(sessions)@.remove(id) =~= old(sessions)@);
            Err(ApiError::NotFound)
        },
        Some(mut session) => {
            let ghost before = session;
            match deal_in_session(&mut session, requested_bet) {
                Err(e) => {
                    sessions.insert(id, session);
                    assert(final(sessions)@ =~= old(sessions)@);
                    Err(e)
                },
                Ok(()) => {
                    let res = build_response(id, &session);
                    let ghost after = session;
                    sessions.insert(id, session);
                    assert(final(sessions)@ =~= old(sessions)@.insert(id, after));
                    Ok(res)
                },
            }
        },
    }
}

/// Answers a look at the session `id` of `sessions`: `NotFound` for an unknown id,
/// else the session's view.
pub fn view_session(sessions: &HashMap<u128, GameSession>, id: u128) -> (res: Result<
    GameStateResponse,
    ApiError,
>)
    requires
        sessions@.contains_key(id) ==> can_describe(sessions@[id]),
    ensures
        !sessions@.contains_key(id) ==> res == Err::<GameStateResponse, ApiError>(
            ApiError::NotFound,
        ),
        sessions@.contains_key(id) ==> (res matches Ok(r) && describes(r, id, sessions@[id])),
{
    broadcast use vstd::std_specs::hash::group_hash_axioms;

    match sessions.get(&id) {
        None => Err(ApiError::NotFound),
        Some(session) => Ok(build_response(id, session)),
    }
}

} // verus!
