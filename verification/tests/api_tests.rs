use vibes::api::{
    build_response, clamp_bet, deal_in_session, opening_bet, parse_session_id, session_id_text,
    start_session, suit_text, ApiError, CardResponse,
};
use vibes::game::{Card, GameResult, Hand, Shoe, Suit};
use vibes::state::GameSession;

fn hand(ranks: &[&str]) -> Hand {
    let mut h = Hand::new();
    for r in ranks {
        h.add_card(Card { rank: r.to_string(), suit: Suit::Diamonds });
    }
    h
}

#[test]
fn bets_are_held_to_the_table_limits() {
    assert_eq!(clamp_bet(5), 10);
    assert_eq!(clamp_bet(-100), 10);
    assert_eq!(clamp_bet(10), 10);
    assert_eq!(clamp_bet(250), 250);
    assert_eq!(clamp_bet(500), 500);
    assert_eq!(clamp_bet(501), 500);
    assert_eq!(opening_bet(None), 50);
    assert_eq!(opening_bet(Some(1000)), 500);
    assert_eq!(opening_bet(Some(1)), 10);
}

#[test]
fn session_ids_are_written_hyphenated() {
    assert_eq!(
        session_id_text(0xa1a2a3a4b1b2c1c2d1d2d3d4d5d6d7d8),
        "a1a2a3a4-b1b2-c1c2-d1d2-d3d4d5d6d7d8"
    );
    assert_eq!(session_id_text(0), "00000000-0000-0000-0000-000000000000");
}

#[test]
fn session_ids_are_read_back() {
    let id = 0x67e5504410b1426f9247bb680e5fe0c8u128;
    assert_eq!(parse_session_id(&session_id_text(id)), Ok(id));
    assert_eq!(parse_session_id("67e55044-10b1-426f-9247-bb680e5fe0c8"), Ok(id));
    assert_eq!(parse_session_id("not an id"), Err(ApiError::BadRequest));
    assert_eq!(parse_session_id(""), Err(ApiError::BadRequest));
}

#[test]
fn suits_are_shown_as_symbols() {
    assert_eq!(suit_text(Suit::Spades), "\u{2660}");
    assert_eq!(suit_text(Suit::Hearts), "\u{2665}");
    assert_eq!(suit_text(Suit::Diamonds), "\u{2666}");
    assert_eq!(suit_text(Suit::Clubs), "\u{2663}");
    let shown = CardResponse::from(&Card { rank: "10".to_string(), suit: Suit::Clubs });
    assert_eq!(shown.rank, "10");
    assert_eq!(shown.suit, "\u{2663}");
}

#[test]
fn response_hides_the_hole_card_in_play() {
    let s = GameSession {
        shoe: Shoe::new(1),
        player_hand: hand(&["A", "6"]),
        dealer_hand: hand(&["K", "9"]),
        balance: 950,
        current_bet: 50,
        status: GameResult::Playing,
    };
    let r = build_response(7, &s);
    assert_eq!(r.session_id, "00000000-0000-0000-0000-000000000007");
    assert_eq!(r.player_cards.len(), 2);
    assert_eq!(r.player_total, 17);
    assert!(r.player_soft);
    assert_eq!(r.dealer_cards.len(), 1);
    assert_eq!(r.dealer_cards[0].rank, "K");
    assert_eq!(r.dealer_total, None);
    assert_eq!(r.status, GameResult::Playing);
    assert_eq!(r.balance, 950);
    assert_eq!(r.current_bet, 50);
    assert!(r.can_double);
}

#[test]
fn response_shows_everything_after_the_round() {
    let s = GameSession {
        shoe: Shoe::new(1),
        player_hand: hand(&["K", "6", "5"]),
        dealer_hand: hand(&["K", "9"]),
        balance: 1050,
        current_bet: 50,
        status: GameResult::PlayerWins,
    };
    let r = build_response(1, &s);
    assert_eq!(r.dealer_cards.len(), 2);
    assert_eq!(r.dealer_total, Some(19));
    assert_eq!(r.player_total, 21);
    assert!(!r.player_soft);
    assert!(!r.can_double);
}

#[test]
fn doubling_is_not_offered_without_the_money() {
    let s = GameSession {
        shoe: Shoe::new(1),
        player_hand: hand(&["5", "6"]),
        dealer_hand: hand(&["K", "9"]),
        balance: 40,
        current_bet: 50,
        status: GameResult::Playing,
    };
    assert!(!build_response(1, &s).can_double);
}

#[test]
fn start_session_deals_the_opening_bet() {
    let s = start_session(None);
    assert_eq!(s.current_bet, 50);
    assert_eq!(s.player_hand.cards.len(), 2);
    let big = start_session(Some(10_000));
    assert_eq!(big.current_bet, 500);
}

#[test]
fn deal_refuses_a_bet_above_the_balance() {
    let mut s = GameSession::new();
    s.balance = 20;
    assert_eq!(deal_in_session(&mut s, 50), Err(ApiError::BadRequest));
    assert_eq!(s.balance, 20);
    assert!(s.player_hand.cards.is_empty());
    assert_eq!(deal_in_session(&mut s, 15), Ok(()));
    assert_eq!(s.current_bet, 15);
    assert_eq!(s.player_hand.cards.len(), 2);
}

use std::collections::HashMap;
use vibes::api::{
    deal_session, double_down_session, hit_session, open_session, stand_session, view_session,
    can_answer_deal, can_answer_hit, describable,
};

fn store_with(id: u128, session: GameSession) -> HashMap<u128, GameSession> {
    let mut store = HashMap::new();
    store.insert(id, session);
    store
}

fn playing(player: &[&str], dealer: &[&str], balance: i64, bet: i64) -> GameSession {
    GameSession {
        shoe: Shoe::new(6),
        player_hand: hand(player),
        dealer_hand: hand(dealer),
        balance,
        current_bet: bet,
        status: GameResult::Playing,
    }
}

#[test]
fn open_session_adds_one_session() {
    let mut store = HashMap::new();
    let r = open_session(&mut store, Some(100));
    assert_eq!(store.len(), 1);
    assert_eq!(r.current_bet, 100);
    let id = parse_session_id(&r.session_id).unwrap();
    assert!(store.contains_key(&id));
}

#[test]
fn unknown_sessions_are_not_found_and_left_alone() {
    let mut store = store_with(1, playing(&["5", "6"], &["K", "8"], 950, 50));
    assert_eq!(hit_session(&mut store, 2).err(), Some(ApiError::NotFound));
    assert_eq!(stand_session(&mut store, 2).err(), Some(ApiError::NotFound));
    assert_eq!(double_down_session(&mut store, 2).err(), Some(ApiError::NotFound));
    assert_eq!(deal_session(&mut store, 2, 50).err(), Some(ApiError::NotFound));
    assert_eq!(view_session(&store, 2).err(), Some(ApiError::NotFound));
    assert_eq!(store.len(), 1);
    assert_eq!(store[&1].player_hand.cards.len(), 2);
    assert_eq!(store[&1].balance, 950);
}

#[test]
fn hit_in_store_updates_the_session() {
    let mut store = store_with(3, playing(&["2", "3"], &["K", "8"], 950, 50));
    let r = hit_session(&mut store, 3).unwrap();
    assert_eq!(r.player_cards.len(), 3);
    assert_eq!(store[&3].player_hand.cards.len(), 3);
    assert_eq!(store[&3].shoe.remaining(), 311);
    assert_eq!(r.session_id, "00000000-0000-0000-0000-000000000003");
}

#[test]
fn stand_in_store_settles_the_round() {
    let mut store = store_with(4, playing(&["K", "Q"], &["K", "8"], 950, 50));
    let r = stand_session(&mut store, 4).unwrap();
    assert_eq!(r.status, GameResult::PlayerWins);
    assert_eq!(r.balance, 1050);
    assert_eq!(r.dealer_total, Some(18));
    assert_eq!(store[&4].balance, 1050);
}

#[test]
fn deal_in_store_refuses_a_bet_above_the_balance() {
    let mut store = store_with(5, playing(&["K", "Q"], &["K", "8"], 20, 50));
    assert_eq!(deal_session(&mut store, 5, 100).err(), Some(ApiError::BadRequest));
    assert_eq!(store[&5].balance, 20);
    assert_eq!(store[&5].player_hand.cards.len(), 2);
    let r = deal_session(&mut store, 5, 15).unwrap();
    assert_eq!(r.current_bet, 15);
    assert_eq!(store[&5].current_bet, 15);
}

#[test]
fn view_in_store_hides_the_hole_card() {
    let store = store_with(6, playing(&["K", "Q"], &["K", "8"], 950, 50));
    let r = view_session(&store, 6).unwrap();
    assert_eq!(r.dealer_cards.len(), 1);
    assert_eq!(r.dealer_total, None);
}

#[test]
fn request_limit_checks() {
    let s = playing(&["K", "Q"], &["K", "8"], 950, 50);
    assert!(can_answer_hit(&s));
    assert!(describable(&s));
    assert!(can_answer_deal(&s, 50));
    let broke = playing(&["K", "Q"], &["K", "8"], i64::MIN + 5, 50);
    assert!(can_answer_deal(&broke, 50));
    let rich = playing(&["K", "Q"], &["K", "8"], i64::MAX, 50);
    assert!(!can_answer_deal(&rich, 50));
}
