use vibes::game::{Card, GameResult, Hand, Shoe, Suit};
use vibes::state::{payout_within_limits, GameSession};

fn hand(ranks: &[&str]) -> Hand {
    let mut h = Hand::new();
    for r in ranks {
        h.add_card(Card { rank: r.to_string(), suit: Suit::Hearts });
    }
    h
}

fn session(player: &[&str], dealer: &[&str], status: GameResult, balance: i64, bet: i64) -> GameSession {
    GameSession {
        shoe: Shoe::new(6),
        player_hand: hand(player),
        dealer_hand: hand(dealer),
        balance,
        current_bet: bet,
        status,
    }
}

#[test]
fn new_session_starts_at_one_thousand() {
    let s = GameSession::new();
    assert_eq!(s.balance, 1000);
    assert_eq!(s.current_bet, 0);
    assert_eq!(s.status, GameResult::Playing);
    assert_eq!(s.shoe.remaining(), 312);
    assert!(s.player_hand.cards.is_empty());
    assert!(s.dealer_hand.cards.is_empty());
}

#[test]
fn deal_round_takes_the_bet_and_deals_four_cards() {
    let mut s = GameSession::new();
    s.deal_round(50);
    assert_eq!(s.player_hand.cards.len(), 2);
    assert_eq!(s.dealer_hand.cards.len(), 2);
    assert_eq!(s.current_bet, 50);
    assert_eq!(s.shoe.remaining(), 308);
    if s.player_hand.is_blackjack() {
        assert_ne!(s.status, GameResult::Playing);
        assert!(s.balance == 1075 || s.balance == 1000);
    } else {
        assert_eq!(s.status, GameResult::Playing);
        assert_eq!(s.balance, 950);
    }
}

#[test]
fn low_shoe_is_replaced_before_dealing() {
    let mut s = GameSession::new();
    s.shoe = Shoe::new(1);
    s.deal_round(10);
    assert_eq!(s.shoe.remaining(), 308);
}

#[test]
fn stand_pays_a_win_twice_the_bet() {
    let mut s = session(&["K", "Q"], &["K", "8"], GameResult::Playing, 950, 50);
    s.stand();
    assert_eq!(s.status, GameResult::PlayerWins);
    assert_eq!(s.balance, 1050);
}

#[test]
fn stand_returns_the_bet_on_a_push() {
    let mut s = session(&["K", "8"], &["Q", "8"], GameResult::Playing, 950, 50);
    s.stand();
    assert_eq!(s.status, GameResult::Push);
    assert_eq!(s.balance, 1000);
}

#[test]
fn stand_pays_nothing_on_a_loss() {
    let mut s = session(&["K", "7"], &["Q", "9"], GameResult::Playing, 950, 50);
    s.stand();
    assert_eq!(s.status, GameResult::DealerWins);
    assert_eq!(s.balance, 950);
}

#[test]
fn blackjack_pays_three_to_two() {
    let mut s = session(&["A", "K"], &["Q", "9"], GameResult::Playing, 950, 50);
    s.stand();
    assert_eq!(s.status, GameResult::Blackjack);
    assert_eq!(s.balance, 950 + 50 + 75);
}

#[test]
fn blackjack_payout_rounds_toward_zero() {
    let mut s = session(&["A", "K"], &["Q", "9"], GameResult::Playing, 0, 15);
    s.stand();
    assert_eq!(s.balance, 15 + 22);
    let mut neg = session(&["A", "K"], &["Q", "9"], GameResult::Playing, 0, -15);
    neg.stand();
    assert_eq!(neg.balance, -15 - 22);
}

#[test]
fn actions_after_the_round_change_nothing() {
    let mut s = session(&["K", "Q"], &["K", "8"], GameResult::PlayerWins, 1050, 50);
    s.hit();
    s.stand();
    s.double_down();
    assert_eq!(s.player_hand.cards.len(), 2);
    assert_eq!(s.dealer_hand.cards.len(), 2);
    assert_eq!(s.balance, 1050);
    assert_eq!(s.status, GameResult::PlayerWins);
    assert_eq!(s.shoe.remaining(), 312);
}

#[test]
fn hit_adds_one_card() {
    let mut s = session(&["2", "3"], &["K", "8"], GameResult::Playing, 950, 50);
    s.hit();
    assert_eq!(s.player_hand.cards.len(), 3);
    assert_eq!(s.shoe.remaining(), 311);
    assert_eq!(s.status, GameResult::Playing);
    assert_eq!(s.balance, 950);
}

#[test]
fn hit_over_21_busts() {
    let mut s = session(&["K", "Q"], &["K", "8"], GameResult::Playing, 950, 50);
    // 20 plus any card other than an ace busts; an ace makes 21.
    s.hit();
    if s.player_hand.total() > 21 {
        assert_eq!(s.status, GameResult::PlayerBust);
    } else {
        assert_eq!(s.status, GameResult::Playing);
    }
}

#[test]
fn double_down_needs_two_cards() {
    let mut s = session(&["2", "3", "4"], &["K", "8"], GameResult::Playing, 950, 50);
    s.double_down();
    assert_eq!(s.player_hand.cards.len(), 3);
    assert_eq!(s.current_bet, 50);
    assert_eq!(s.balance, 950);
}

#[test]
fn double_down_doubles_the_bet_and_settles() {
    let mut s = session(&["5", "6"], &["K", "8"], GameResult::Playing, 950, 50);
    s.double_down();
    assert_eq!(s.player_hand.cards.len(), 3);
    assert_eq!(s.current_bet, 100);
    assert_ne!(s.status, GameResult::Playing);
    let expected = match s.status {
        GameResult::PlayerWins | GameResult::DealerBust => 900 + 200,
        GameResult::Push => 900 + 100,
        _ => 900,
    };
    assert_eq!(s.balance, expected);
}

#[test]
fn limits_checks() {
    assert!(payout_within_limits(GameResult::Blackjack, 0, 1000));
    assert!(!payout_within_limits(GameResult::Blackjack, 0, i64::MAX / 2));
    assert!(!payout_within_limits(GameResult::PlayerWins, i64::MAX, 1));
    assert!(payout_within_limits(GameResult::DealerWins, i64::MAX, i64::MAX));
    let s = session(&["K", "Q"], &["K", "8"], GameResult::Playing, 950, 50);
    assert!(s.within_limits_for_hit());
    assert!(s.within_limits_for_stand());
    assert!(s.within_limits_for_double_down());
    assert!(s.within_limits_for_deal(50));
    assert!(!s.within_limits_for_deal(i64::MIN));
}
