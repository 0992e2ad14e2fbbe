use vibes::game::{dealer_play, determine_result, Card, GameResult, Hand, Shoe, Suit};

fn card(rank: &str) -> Card {
    Card { rank: rank.to_string(), suit: Suit::Spades }
}

fn hand(ranks: &[&str]) -> Hand {
    let mut h = Hand::new();
    for r in ranks {
        h.add_card(card(r));
    }
    h
}

#[test]
fn card_values() {
    assert_eq!(card("A").value(), 11);
    assert_eq!(card("K").value(), 10);
    assert_eq!(card("Q").value(), 10);
    assert_eq!(card("J").value(), 10);
    assert_eq!(card("7").value(), 7);
    assert_eq!(card("10").value(), 10);
    assert_eq!(card("2").value(), 2);
}

#[test]
fn unreadable_ranks_count_nothing() {
    assert_eq!(card("X").value(), 0);
    assert_eq!(card("").value(), 0);
    assert_eq!(card("300").value(), 0);
    assert_eq!(card("-5").value(), 0);
    assert_eq!(card("+5").value(), 5);
    assert_eq!(card("a").value(), 0);
}

#[test]
fn only_the_ace_is_an_ace() {
    assert!(card("A").is_ace());
    assert!(!card("a").is_ace());
    assert!(!card("K").is_ace());
    assert!(!card("AA").is_ace());
}

#[test]
fn totals_count_aces_low_only_as_needed() {
    assert_eq!(hand(&["A", "K"]).total(), 21);
    assert_eq!(hand(&["A", "A"]).total(), 12);
    assert_eq!(hand(&["A", "9", "5"]).total(), 15);
    assert_eq!(hand(&["A", "A", "A", "A"]).total(), 14);
    assert_eq!(hand(&["K", "Q", "5"]).total(), 25);
    assert_eq!(hand(&[]).total(), 0);
}

#[test]
fn total_is_capped_at_255() {
    let ranks = vec!["K"; 30];
    assert_eq!(hand(&ranks).total(), 255);
}

#[test]
fn soft_hands() {
    assert!(hand(&["A", "6"]).is_soft());
    assert!(hand(&["A", "A"]).is_soft());
    assert!(!hand(&["A", "9", "5"]).is_soft());
    assert!(!hand(&["K", "7"]).is_soft());
    assert!(hand(&["A", "A", "9"]).is_soft());
}

#[test]
fn busted_and_blackjack() {
    assert!(hand(&["K", "Q", "5"]).is_busted());
    assert!(!hand(&["K", "Q", "A"]).is_busted());
    assert!(hand(&["A", "K"]).is_blackjack());
    assert!(!hand(&["7", "7", "7"]).is_blackjack());
    assert!(!hand(&["K", "Q"]).is_blackjack());
}

#[test]
fn hand_counter_checks() {
    assert!(hand(&["A", "K"]).counters_fit());
    assert!(hand(&["A", "K"]).has_room());
    let aces = vec!["A"; 255];
    assert!(hand(&aces).counters_fit());
    assert!(!hand(&aces).has_room());
    let more = vec!["A"; 256];
    assert!(!hand(&more).counters_fit());
}

#[test]
fn fresh_shoe_sizes() {
    let one = Shoe::new(1);
    assert_eq!(one.remaining(), 52);
    assert!(one.needs_reshuffle());
    let six = Shoe::new(6);
    assert_eq!(six.remaining(), 312);
    assert!(!six.needs_reshuffle());
}

#[test]
fn fresh_shoe_holds_each_card_once_per_deck() {
    let mut shoe = Shoe::new(2);
    let mut counts = std::collections::HashMap::new();
    for _ in 0..104 {
        let c = shoe.draw();
        *counts.entry((c.rank.clone(), format!("{:?}", c.suit))).or_insert(0) += 1;
    }
    assert_eq!(shoe.remaining(), 0);
    assert_eq!(counts.len(), 52);
    assert!(counts.values().all(|&n| n == 2));
}

#[test]
fn draw_takes_one_card() {
    let mut shoe = Shoe::new(1);
    let _ = shoe.draw();
    assert_eq!(shoe.remaining(), 51);
}

#[test]
fn empty_shoe_refills_with_six_decks() {
    let mut shoe = Shoe::new(0);
    assert_eq!(shoe.remaining(), 0);
    let c = shoe.draw();
    assert_eq!(shoe.remaining(), 311);
    assert!(c.value() >= 2);
}

#[test]
fn shuffle_keeps_the_cards() {
    let mut shoe = Shoe::new(1);
    shoe.shuffle();
    assert_eq!(shoe.remaining(), 52);
}

#[test]
fn dealer_stands_on_seventeen() {
    let mut shoe = Shoe::new(1);
    let mut dealer = hand(&["K", "7"]);
    dealer_play(&mut shoe, &mut dealer);
    assert_eq!(dealer.cards.len(), 2);
    assert_eq!(shoe.remaining(), 52);
}

#[test]
fn dealer_draws_to_seventeen() {
    let mut shoe = Shoe::new(6);
    let mut dealer = hand(&["2", "3"]);
    dealer_play(&mut shoe, &mut dealer);
    assert!(dealer.total() >= 17);
    assert_eq!(shoe.remaining() + dealer.cards.len(), 312 + 2);
}

#[test]
fn results_of_finished_rounds() {
    let bust = hand(&["K", "Q", "5"]);
    let bj = hand(&["A", "K"]);
    let twenty = hand(&["K", "Q"]);
    let nineteen = hand(&["K", "9"]);
    assert_eq!(determine_result(&bust, &bust), GameResult::PlayerBust);
    assert_eq!(determine_result(&bj, &twenty), GameResult::Blackjack);
    assert_eq!(determine_result(&bj, &bj), GameResult::Push);
    assert_eq!(determine_result(&twenty, &bust), GameResult::DealerBust);
    assert_eq!(determine_result(&twenty, &nineteen), GameResult::PlayerWins);
    assert_eq!(determine_result(&nineteen, &twenty), GameResult::DealerWins);
    assert_eq!(determine_result(&twenty, &hand(&["J", "10"])), GameResult::Push);
    // A three-card 21 against a dealer blackjack is compared on totals: a push.
    assert_eq!(determine_result(&hand(&["7", "7", "7"]), &bj), GameResult::Push);
}

#[test]
fn shuffled_shoe_is_not_in_printed_order() {
    // Drawing takes cards from the end; an unshuffled deck would give K, Q, J .. A of clubs first.
    let mut shoe = Shoe::new(1);
    let mut ranks = Vec::new();
    for _ in 0..13 {
        ranks.push(shoe.draw().rank);
    }
    let printed: Vec<String> = ["K", "Q", "J", "10", "9", "8", "7", "6", "5", "4", "3", "2", "A"]
        .iter()
        .map(|r| r.to_string())
        .collect();
    assert_ne!(ranks, printed);
}

#[test]
fn dealer_draws_at_most_seventeen_cards() {
    let mut shoe = Shoe::new(6);
    let mut dealer = Hand::new();
    dealer_play(&mut shoe, &mut dealer);
    assert!(dealer.cards.len() <= 17);
    assert!(dealer.cards.iter().all(|c| c.value() >= 2));
}
