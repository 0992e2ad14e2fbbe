//! A player's session at the table: the balance, the bet and the round in play.

use crate::game::{self, dealer_play, determine_result, CardView, GameResult, Hand, Shoe};
use vstd::prelude::*;

verus! {

/// `x / 2` rounded toward zero, as Rust divides.
pub open spec fn half_toward_zero(x: int) -> int {
    if x >= 0 {
        x / 2
    } else {
        -((-x) / 2)
    }
}

/// What the table pays back on a settled bet: a blackjack pays 3 to 2 (the stake
/// and one and a half times it, rounded toward zero), a win pays the stake twice,
/// a push returns the stake, and anything else pays nothing.
pub open spec fn payout(status: GameResult, bet: int) -> int {
    match status {
        GameResult::Blackjack => bet + half_toward_zero(bet * 3),
        GameResult::PlayerWins | GameResult::DealerBust => bet * 2,
        GameResult::Push => bet,
        _ => 0,
    }
}

/// The table's odds: over the stake, a blackjack wins one and a half times the bet
/// (rounded down), a win wins the bet, a push wins nothing, and a lost round, or one
/// still in play, loses the bet.
pub proof fn lemma_payout_odds(status: GameResult, bet: int)
    requires
        bet >= 0,
    ensures
        status == GameResult::Blackjack ==> payout(status, bet) - bet == (3 * bet) / 2,
        status == GameResult::PlayerWins || status == GameResult::DealerBust ==> payout(status, bet)
            - bet == bet,
        status == GameResult::Push ==> payout(status, bet) - bet == 0,
        status == GameResult::PlayerBust || status == GameResult::DealerWins || status
            == GameResult::Playing ==> payout(status, bet) - bet == -bet,
{
}

pub open spec fn fits_i64(x: int) -> bool {
    i64::MIN <= x <= i64::MAX
}

/// Settling `bet` with `status` on `balance` stays within 64-bit arithmetic.
pub open spec fn payout_fits(status: GameResult, balance: int, bet: int) -> bool {
    match status {
        GameResult::Blackjack => fits_i64(bet * 3) && fits_i64(bet + half_toward_zero(bet * 3))
            && fits_i64(balance + bet + half_toward_zero(bet * 3)),
        GameResult::PlayerWins | GameResult::DealerBust => fits_i64(bet * 2) && fits_i64(
            balance + bet * 2,
        ),
        GameResult::Push => fits_i64(balance + bet),
        _ => true,
    }
}

/// Settling `bet` on `balance` stays within 64-bit arithmetic whatever the round's result.
pub open spec fn any_payout_fits(balance: int, bet: int) -> bool {
    &&& payout_fits(GameResult::Blackjack, balance, bet)
    &&& payout_fits(GameResult::PlayerWins, balance, bet)
    &&& payout_fits(GameResult::Push, balance, bet)
}

/// `deal_round(bet)` stays within the machine's arithmetic.
pub open spec fn deal_fits(s: GameSession, bet: int) -> bool {
    fits_i64(s.balance - bet) && payout_fits(GameResult::Blackjack, s.balance - bet, bet)
}

/// `hit` stays within the machine's arithmetic: in play, the hand has room for any card.
pub open spec fn hit_fits(s: GameSession) -> bool {
    s.status == GameResult::Playing ==> game::hand_has_room(s.player_hand@)
}

/// `stand` stays within the machine's arithmetic, whatever the dealer draws.
pub open spec fn stand_fits(s: GameSession) -> bool {
    s.status == GameResult::Playing ==> {
        &&& game::hand_fits(s.player_hand@)
        &&& game::hand_fits(s.dealer_hand@)
        &&& any_payout_fits(s.balance as int, s.current_bet as int)
    }
}

/// Doubling down is allowed: a round in play with a two-card hand.
pub open spec fn may_double(s: GameSession) -> bool {
    s.status == GameResult::Playing && s.player_hand@.len() == 2
}

/// `double_down` stays within the machine's arithmetic, whatever is drawn.
pub open spec fn double_down_fits(s: GameSession) -> bool {
    may_double(s) ==> {
        &&& fits_i64(s.balance - s.current_bet)
        &&& fits_i64(s.current_bet * 2)
        &&& game::hand_has_room(s.player_hand@)
        &&& game::hand_fits(s.dealer_hand@)
        &&& any_payout_fits(s.balance - s.current_bet, s.current_bet * 2)
    }
}

/// `hit` took the session from `before` to `after`: outside a round in play nothing
/// changed; in play the player drew one card from the shoe, and going over 21 ended
/// the round as a bust.
pub open spec fn hit_result(before: GameSession, after: GameSession) -> bool {
    &&& before.status != GameResult::Playing ==> after == before
    &&& before.status == GameResult::Playing ==> {
        let player = after.player_hand@;
        &&& player.len() == before.player_hand@.len() + 1
        &&& player.drop_last() == before.player_hand@
        &&& game::drew(before.shoe@, after.shoe@, player.last())
        &&& game::hand_fits(player)
        &&& after.dealer_hand == before.dealer_hand
        &&& after.balance == before.balance
        &&& after.current_bet == before.current_bet
        &&& after.status == if game::hand_is_busted(player) {
            GameResult::PlayerBust
        } else {
            GameResult::Playing
        }
    }
}

/// `stand` took the session from `before` to `after`: outside a round in play nothing
/// changed; in play the dealer played out the hand from the shoe, and the round was
/// decided and settled.
pub open spec fn stand_result(before: GameSession, after: GameSession) -> bool {
    &&& before.status != GameResult::Playing ==> after == before
    &&& before.status == GameResult::Playing ==> {
        let dealer = after.dealer_hand@;
        &&& game::dealer_stood(before.dealer_hand@, dealer)
        &&& game::hand_fits(dealer)
        &&& exists|shoes: Seq<Seq<CardView>>|
            game::draws_through(
                shoes,
                dealer.skip(before.dealer_hand@.len() as int),
                before.shoe@,
                after.shoe@,
            )
        &&& after.player_hand == before.player_hand
        &&& after.status == game::round_result(after.player_hand@, dealer)
        &&& after.current_bet == before.current_bet
        &&& after.balance == before.balance + payout(after.status, before.current_bet as int)
    }
}

/// `double_down` took the session from `before` to `after`: unless doubling was
/// allowed nothing changed; else the bet was doubled (the stake taken from the
/// balance), the player drew exactly one card, and the round was decided: a bust at
/// once, otherwise after the dealer played, and settled.
pub open spec fn double_down_result(before: GameSession, after: GameSession) -> bool {
    &&& !may_double(before) ==> after == before
    &&& may_double(before) ==> {
        let player = after.player_hand@;
        let dealer = after.dealer_hand@;
        let bet = before.current_bet * 2;
        &&& player.len() == 3
        &&& player.drop_last() == before.player_hand@
        &&& game::hand_fits(player)
        &&& after.current_bet == bet
        &&& game::hand_is_busted(player) ==> {
            &&& game::drew(before.shoe@, after.shoe@, player.last())
            &&& after.dealer_hand == before.dealer_hand
            &&& after.status == GameResult::PlayerBust
            &&& after.balance == before.balance - before.current_bet
        }
        &&& !game::hand_is_busted(player) ==> {
            &&& game::dealer_stood(before.dealer_hand@, dealer)
            &&& game::hand_fits(dealer)
            &&& exists|shoes: Seq<Seq<CardView>>|
                game::draws_through(
                    shoes,
                    seq![player.last()] + dealer.skip(before.dealer_hand@.len() as int),
                    before.shoe@,
                    after.shoe@,
                )
            &&& after.status == game::round_result(player, dealer)
            &&& after.balance == before.balance - before.current_bet + payout(after.status, bet)
        }
    }
}

/// A round was dealt with `bet`, taking the session from `before` to `after`: a shoe
/// under 60 cards was first replaced by six fresh decks; the player got the last card
/// of the shoe, the dealer the next, then the player, then the dealer; the bet left the
/// balance; a player's blackjack settled the round at once, else it is in play.
pub open spec fn round_dealt(before: GameSession, after: GameSession, bet: int) -> bool {
    let player = after.player_hand@;
    let dealer = after.dealer_hand@;
    let dealt = after.shoe@ + seq![dealer[1], player[1], dealer[0], player[0]];
    &&& player.len() == 2
    &&& dealer.len() == 2
    &&& game::hand_fits(player)
    &&& game::hand_fits(dealer)
    &&& before.shoe@.len() >= 60 ==> dealt == before.shoe@
    &&& before.shoe@.len() < 60 ==> dealt.to_multiset() == game::fresh_shoe(6).to_multiset()
    &&& after.current_bet == bet
    &&& game::hand_is_blackjack(player) ==> after.status == game::round_result(player, dealer)
        && after.balance == before.balance - bet + payout(after.status, bet)
    &&& !game::hand_is_blackjack(player) ==> after.status == GameResult::Playing && after.balance
        == before.balance - bet
}

/// A player's session: the shoe, both hands, the money, and how the round stands.
pub struct GameSession {
    pub shoe: Shoe,
    pub player_hand: Hand,
    pub dealer_hand: Hand,
    pub balance: i64,
    pub current_bet: i64,
    pub status: GameResult,
}

proof fn lemma_card_fits(cards: Seq<CardView>, card: CardView)
    requires
        game::hand_has_room(cards),
        game::is_standard_rank(card.0),
    ensures
        game::hand_fits(cards.push(card)),
{
    game::lemma_push_sums(cards, card);
    game::lemma_standard_rank_value(card.0);
}

/// Whether `x` fits 64 bits.
fn in_i64(x: i128) -> (res: bool)
    ensures
        res == fits_i64(x as int),
{
    i64::MIN as i128 <= x && x <= i64::MAX as i128
}

/// Whether settling `bet` with `status` on `balance` stays within 64-bit arithmetic.
pub fn payout_within_limits(status: GameResult, balance: i64, bet: i64) -> (res: bool)
    ensures
        res == payout_fits(status, balance as int, bet as int),
{
    let bal = balance as i128;
    let b = bet as i128;
    match status {
        GameResult::Blackjack => {
            let tripled = b * 3;
            in_i64(tripled) && in_i64(b + tripled / 2) && in_i64(bal + b + tripled / 2)
        },
        GameResult::PlayerWins | GameResult::DealerBust => in_i64(b * 2) && in_i64(bal + b * 2),
        GameResult::Push => in_i64(bal + b),
        _ => true,
    }
}

fn any_payout_within_limits(balance: i64, bet: i64) -> (res: bool)
    ensures
        res == any_payout_fits(balance as int, bet as int),
{
    payout_within_limits(GameResult::Blackjack, balance, bet) && payout_within_limits(
        GameResult::PlayerWins,
        balance,
        bet,
    ) && payout_within_limits(GameResult::Push, balance, bet)
}

impl GameSession {
    /// Whether `deal_round(bet)` stays within the machine's arithmetic.
    pub fn within_limits_for_deal(&self, bet: i64) -> (res: bool)
        ensures
            res == deal_fits(*self, bet as int),
    {
        let rest = self.balance as i128 - bet as i128;
        if !in_i64(rest) {
            return false;
        }
        payout_within_limits(GameResult::Blackjack, rest as i64, bet)
    }

    /// Whether `hit` stays within the machine's arithmetic.
    pub fn within_limits_for_hit(&self) -> (res: bool)
        ensures
            res == hit_fits(*self),
    {
        self.status != GameResult::Playing || self.player_hand.has_room()
    }

    /// Whether `stand` stays within the machine's arithmetic.
    pub fn within_limits_for_stand(&self) -> (res: bool)
        ensures
            res == stand_fits(*self),
    {
        self.status != GameResult::Playing || (self.player_hand.counters_fit()
            && self.dealer_hand.counters_fit() && any_payout_within_limits(
            self.balance,
            self.current_bet,
        ))
    }

    /// Whether `double_down` stays within the machine's arithmetic.
    pub fn within_limits_for_double_down(&self) -> (res: bool)
        ensures
            res == double_down_fits(*self),
    {
        if self.status != GameResult::Playing || self.player_hand.cards.len() != 2 {
            return true;
        }
        let rest = self.balance as i128 - self.current_bet as i128;
        let doubled = self.current_bet as i128 * 2;
        if !in_i64(rest) || !in_i64(doubled) {
            return false;
        }
        self.player_hand.has_room() && self.dealer_hand.counters_fit() && any_payout_within_limits(
            rest as i64,
            doubled as i64,
        )
    }

    /// A new session: six fresh decks, empty hands, a balance of 1000 and no bet.
    pub fn new() -> (session: GameSession)
        ensures
            session.shoe@.len() == 312,
            session.shoe@.to_multiset() == game::fresh_shoe(6).to_multiset(),
            session.player_hand@.len() == 0,
            session.dealer_hand@.len() == 0,
            session.balance == 1000,
            session.current_bet == 0,
            session.status == GameResult::Playing,
    {
        GameSession {
            shoe: Shoe::new(6),
            player_hand: Hand::new(),
            dealer_hand: Hand::new(),
            balance: 1000,
            current_bet: 0,
            status: GameResult::Playing,
        }
    }

    /// Starts a round with `bet`: a shoe under 60 cards is replaced by six fresh decks,
    /// the bet is taken from the balance, and player and dealer get two cards each,
    /// alternately. A player's blackjack settles the round at once.
    pub fn deal_round(&mut self, bet: i64)
        requires
            deal_fits(*old(self), bet as int),
        ensures
            round_dealt(*old(self), *final(self), bet as int),
    {
        if self.shoe.needs_reshuffle() {
            self.shoe = Shoe::new(6);
        }
        let ghost full = self.shoe@;
        proof {
            broadcast use vstd::seq_lib::group_to_multiset_ensures;

            assert(full.to_multiset().len() == full.len());
            assert(game::fresh_shoe(6).to_multiset().len() == game::fresh_shoe(6).len());
        }
        self.current_bet = bet;
        self.balance = self.balance - bet;
        self.player_hand = Hand::new();
        self.dealer_hand = Hand::new();
        self.status = GameResult::Playing;

        let c1 = self.shoe.draw();
        self.player_hand.add_card(c1);
        let c2 = self.shoe.draw();
        self.dealer_hand.add_card(c2);
        let c3 = self.shoe.draw();
        self.player_hand.add_card(c3);
        let c4 = self.shoe.draw();
        self.dealer_hand.add_card(c4);
        proof {
            let player = self.player_hand@;
            let dealer = self.dealer_hand@;
            let n = full.len();
            assert(player =~= seq![full[n - 1], full[n - 3]]);
            assert(dealer =~= seq![full[n - 2], full[n - 4]]);
            assert(self.shoe@ + seq![dealer[1], player[1], dealer[0], player[0]] =~= full);
            game::lemma_standard_rank_value(c1@.0);
            game::lemma_standard_rank_value(c2@.0);
            game::lemma_standard_rank_value(c3@.0);
            game::lemma_standard_rank_value(c4@.0);
            reveal_with_fuel(game::raw_sum, 3);
            reveal_with_fuel(game::ace_count, 3);
        }
        if self.player_hand.is_blackjack() {
            self.status = determine_result(&self.player_hand, &self.dealer_hand);
            self.resolve_payout();
        }
    }

    /// The player takes one more card; going over 21 ends the round as a bust.
    /// Outside a round in play nothing changes.
    pub fn hit(&mut self)
        requires
            hit_fits(*old(self)),
        ensures
            hit_result(*old(self), *final(self)),
    {
        if self.status != GameResult::Playing {
            return;
        }
        let ghost before = self.player_hand@;
        let card = self.shoe.draw();
        self.player_hand.add_card(card);
        proof {
            lemma_card_fits(before, card@);
            assert(self.player_hand@.drop_last() =~= before);
        }
        if self.player_hand.is_busted() {
            self.status = GameResult::PlayerBust;
        }
    }

    /// The player stands: the dealer plays out the hand, the round is decided and
    /// settled. Outside a round in play nothing changes.
    pub fn stand(&mut self)
        requires
            stand_fits(*old(self)),
        ensures
            stand_result(*old(self), *final(self)),
    {
        if self.status != GameResult::Playing {
            return;
        }
        dealer_play(&mut self.shoe, &mut self.dealer_hand);
        self.status = determine_result(&self.player_hand, &self.dealer_hand);
        self.resolve_payout();
    }

    /// The player doubles the bet on a two-card hand, takes exactly one more card,
    /// and the round is decided: a bust at once, else after the dealer plays.
    /// Outside a round in play, or with other than two cards, nothing changes.
    pub fn double_down(&mut self)
        requires
            double_down_fits(*old(self)),
        ensures
            double_down_result(*old(self), *final(self)),
    {
        if self.status != GameResult::Playing || self.player_hand.cards.len() != 2 {
            return;
        }
        self.balance = self.balance - self.current_bet;
        self.current_bet = self.current_bet * 2;

        let ghost before = self.player_hand@;
        let ghost shoe_before = self.shoe@;
        let card = self.shoe.draw();
        self.player_hand.add_card(card);
        let ghost shoe_mid = self.shoe@;
        proof {
            lemma_card_fits(before, card@);
            assert(self.player_hand@.drop_last() =~= before);
        }
        if self.player_hand.is_busted() {
            self.status = GameResult::PlayerBust;
        } else {
            dealer_play(&mut self.shoe, &mut self.dealer_hand);
            proof {
                let dealer = self.dealer_hand@;
                let rest = dealer.skip(old(self).dealer_hand@.len() as int);
                let shoes = choose|shoes: Seq<Seq<CardView>>|
                    game::draws_through(shoes, rest, shoe_mid, self.shoe@);
                let all = seq![shoe_before] + shoes;
                assert(game::draws_through(all, seq![card@] + rest, shoe_before, self.shoe@)) by {
                    assert forall|k: int| 0 <= k < (seq![card@] + rest).len() implies game::drew(
                        #[trigger] all[k],
                        all[k + 1],
                        (seq![card@] + rest)[k],
                    ) by {
                        if k > 0 {
                            assert(all[k] == shoes[k - 1]);
                            assert(all[k + 1] == shoes[k]);
                            assert((seq![card@] + rest)[k] == rest[k - 1]);
                        }
                    }
                }
            }
            self.status = determine_result(&self.player_hand, &self.dealer_hand);
            self.resolve_payout();
        }
    }

    /// Credits the payout of the current bet for the round's result.
    fn resolve_payout(&mut self)
        requires
            payout_fits(old(self).status, old(self).balance as int, old(self).current_bet as int),
        ensures
            final(self).balance == old(self).balance + payout(
                old(self).status,
                old(self).current_bet as int,
            ),
            final(self).shoe == old(self).shoe,
            final(self).player_hand == old(self).player_hand,
            final(self).dealer_hand == old(self).dealer_hand,
            final(self).current_bet == old(self).current_bet,
            final(self).status == old(self).status,
    {
        match self.status {
            GameResult::Blackjack => {
                self.balance = self.balance + (self.current_bet + (self.current_bet * 3 / 2));
            },
            GameResult::PlayerWins | GameResult::DealerBust => {
                self.balance = self.balance + self.current_bet * 2;
            },
            GameResult::Push => {
                self.balance = self.balance + self.current_bet;
            },
            _ => {},
        }
    }
}

} // verus!
