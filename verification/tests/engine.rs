use shangyou::card::{Card, Rank, Suit};
use shangyou::deck::Deck;
use shangyou::game::{apply_action, round_complete, ActionResult, Game, RoundOutcome, TurnAction};
use shangyou::hand::Hand;
use shangyou::player::Player;
use shangyou::round::Round;

fn c(suit: Suit, rank: Rank) -> Card {
    Card::new(suit, rank)
}

fn player_with(name: &str, cards: Vec<Card>) -> Player {
    let mut p = Player::new(name.to_string());
    for card in cards {
        p.hand.add_card(card);
    }
    p
}

#[test]
fn deck_of_one_has_54_cards() {
    let deck = Deck::new(1);
    assert_eq!(deck.cards.len(), 54);
    let jokers = deck.cards.iter().filter(|c| c.rank == Rank::Joker).count();
    assert_eq!(jokers, 2);
    let reds = deck
        .cards
        .iter()
        .filter(|c| c.suit == Suit::Red && c.rank == Rank::Joker)
        .count();
    assert_eq!(reds, 1);
    let threes = deck.cards.iter().filter(|c| c.rank == Rank::Three).count();
    assert_eq!(threes, 4);
}

#[test]
fn deck_of_two_has_108_cards() {
    let deck = Deck::new(2);
    assert_eq!(deck.cards.len(), 108);
    let jokers = deck.cards.iter().filter(|c| c.rank == Rank::Joker).count();
    assert_eq!(jokers, 4);
}

#[test]
fn drawing_empties_the_deck_one_card_at_a_time() {
    let mut deck = Deck::new(1);
    let mut drawn = 0;
    while !deck.is_empty() {
        deck.draw_card();
        drawn += 1;
    }
    assert_eq!(drawn, 54);
    assert_eq!(deck.cards.len(), 0);
}

#[test]
fn deck_sort_orders_by_rank() {
    let mut deck = Deck::new(1);
    deck.sort();
    for w in deck.cards.windows(2) {
        assert!(rank_points(w[0].rank) <= rank_points(w[1].rank));
    }
}

fn rank_points(r: Rank) -> u8 {
    shangyou::card::rank_code(r)
}

#[test]
fn hand_sort_orders_by_rank() {
    let mut hand = Hand::new();
    hand.add_card(c(Suit::Spades, Rank::Two));
    hand.add_card(c(Suit::Hearts, Rank::Three));
    hand.add_card(c(Suit::Clubs, Rank::King));
    hand.sort();
    assert_eq!(hand.cards[0].rank, Rank::Three);
    assert_eq!(hand.cards[1].rank, Rank::King);
    assert_eq!(hand.cards[2].rank, Rank::Two);
}

#[test]
fn players_compare_by_name_only() {
    let mut a = Player::new("ada".to_string());
    let b = Player::new("ada".to_string());
    let other = Player::new("bob".to_string());
    a.score = 10;
    assert!(a == b);
    assert!(a != other);
}

#[test]
fn round_records_plays_in_order() {
    let mut round = Round::new();
    assert_eq!(round.plays.len(), 0);
    let mut p = shangyou::play::Play::new(Player::new("ada".to_string()));
    p.set_cards(vec![c(Suit::Spades, Rank::Five)]);
    round.add_play(p);
    assert_eq!(round.plays.len(), 1);
    assert_eq!(round.plays[0].player.name, "ada".to_string());
}

#[test]
fn round_ends_when_everyone_else_passes() {
    // P1 leads a single 5, P2 answers with a single 7, P3 and P1 pass:
    // the turn returns to P2 with no play in between, so P2 wins the round
    // and leads the next one.
    let players = vec![
        player_with("P1", vec![c(Suit::Spades, Rank::Five), c(Suit::Spades, Rank::Nine)]),
        player_with("P2", vec![c(Suit::Diamonds, Rank::Seven), c(Suit::Diamonds, Rank::Ten)]),
        player_with("P3", vec![c(Suit::Clubs, Rank::Three), c(Suit::Clubs, Rank::Four)]),
    ];
    let mut game = Game::new(players, Deck::new(0));
    let actions = vec![
        TurnAction::Submit(vec![true, false]),
        TurnAction::Submit(vec![true, false]),
        TurnAction::Pass,
        TurnAction::Pass,
    ];
    let mut pos = 0;
    let outcome = game.play_round(&actions, &mut pos);
    match outcome {
        RoundOutcome::RoundWinner(w) => assert_eq!(w.name, "P2".to_string()),
        _ => panic!("the round should have completed with a winner"),
    }
    assert_eq!(game.players[0].name, "P2".to_string());
    assert_eq!(game.rounds.len(), 1);
    let recorded = &game.rounds[0];
    assert_eq!(recorded.plays.len(), 2);
    assert_eq!(recorded.plays[1].player.name, "P2".to_string());
}

#[test]
fn emptying_a_hand_ends_the_game_immediately() {
    // P1 plays their last card mid-round: the game ends on the spot, even
    // though the round is not over.
    let players = vec![
        player_with("P1", vec![c(Suit::Spades, Rank::Five)]),
        player_with("P2", vec![c(Suit::Diamonds, Rank::Seven), c(Suit::Diamonds, Rank::Ten)]),
    ];
    let mut game = Game::new(players, Deck::new(0));
    let actions = vec![TurnAction::Submit(vec![true])];
    let mut pos = 0;
    let outcome = game.play_round(&actions, &mut pos);
    match outcome {
        RoundOutcome::GameWinner(w) => {
            assert_eq!(w.name, "P1".to_string());
            assert_eq!(w.hand.cards.len(), 0);
        }
        _ => panic!("emptying a hand must win the game at once"),
    }
}

#[test]
fn illegal_submission_is_rejected_and_player_retries() {
    // P1 tries an invalid pair first; the rejection leaves the turn with P1,
    // who then plays a proper single.
    let players = vec![
        player_with("P1", vec![c(Suit::Spades, Rank::Five), c(Suit::Spades, Rank::Nine)]),
        player_with("P2", vec![c(Suit::Diamonds, Rank::Seven)]),
    ];
    let mut game = Game::new(players, Deck::new(0));
    let actions = vec![
        TurnAction::Submit(vec![true, true]),
        TurnAction::Submit(vec![true, false]),
        TurnAction::Submit(vec![true]),
    ];
    let mut pos = 0;
    let outcome = game.play_round(&actions, &mut pos);
    match outcome {
        RoundOutcome::GameWinner(w) => assert_eq!(w.name, "P2".to_string()),
        _ => panic!("P2's last card should have won the game"),
    }
    assert_eq!(game.players[0].hand.cards.len(), 1);
    assert_eq!(game.players[0].hand.cards[0].rank, Rank::Nine);
}

#[test]
fn lower_play_is_rejected_by_the_round() {
    let players = vec![
        player_with("P1", vec![c(Suit::Spades, Rank::Nine), c(Suit::Spades, Rank::Five)]),
        player_with("P2", vec![c(Suit::Diamonds, Rank::Seven), c(Suit::Diamonds, Rank::Ten)]),
    ];
    let mut game = Game::new(players, Deck::new(0));
    // P1 leads a 9; P2 tries a 7 (too low: rejected), then plays the 10.
    let actions = vec![
        TurnAction::Submit(vec![true, false]),
        TurnAction::Submit(vec![true, false]),
        TurnAction::Submit(vec![false, true]),
    ];
    let mut pos = 0;
    let outcome = game.play_round(&actions, &mut pos);
    assert!(matches!(outcome, RoundOutcome::Incomplete));
    assert_eq!(game.players[1].hand.cards.len(), 1);
    assert_eq!(game.players[1].hand.cards[0].rank, Rank::Seven);
}

#[test]
fn turn_returning_to_the_leading_player_completes_the_round() {
    let mut leader =
        player_with("ada", vec![c(Suit::Spades, Rank::Five), c(Suit::Spades, Rank::Nine)]);
    let players = vec![
        Player::new("ada".to_string()),
        Player::new("bob".to_string()),
    ];
    let mut round = Round::new();
    assert!(!round_complete(&round, &players, 0));
    let action = TurnAction::Submit(vec![true, false]);
    let result = apply_action(&mut leader, &mut round, &action);
    assert!(matches!(result, ActionResult::Played));
    // bob (seat 1) has not played: the round goes on.
    assert!(!round_complete(&round, &players, 1));
    // The turn is back with ada, who owns the leading play: round over.
    assert!(round_complete(&round, &players, 0));
}

#[test]
fn accepted_play_that_empties_the_hand_wins_at_the_step_level() {
    let mut p = player_with("ada", vec![c(Suit::Spades, Rank::Five)]);
    let mut round = Round::new();
    let result = apply_action(&mut p, &mut round, &TurnAction::Submit(vec![true]));
    assert!(matches!(result, ActionResult::WonGame));
    assert_eq!(p.hand.cards.len(), 0);
    assert_eq!(round.plays.len(), 1);
}

#[test]
fn dealing_hands_out_every_card_and_the_leader_holds_three_of_hearts() {
    let players = vec![
        Player::new("P1".to_string()),
        Player::new("P2".to_string()),
        Player::new("P3".to_string()),
    ];
    let mut game = Game::new(players, Deck::new(1));
    let result = game.start_game(Vec::new());
    assert!(result.is_none());
    assert_eq!(game.deck.cards.len(), 0);
    let total: usize = game.players.iter().map(|p| p.hand.cards.len()).sum();
    assert_eq!(total, 54);
    let leader = &game.players[0];
    assert!(leader
        .hand
        .cards
        .iter()
        .any(|card| card.suit == Suit::Hearts && card.rank == Rank::Three));
    // Every dealt hand comes back sorted ascending by rank.
    for p in &game.players {
        for w in p.hand.cards.windows(2) {
            assert!(rank_points(w[0].rank) <= rank_points(w[1].rank));
        }
    }
    // Dealing is balanced: hand sizes differ by at most one.
    let max = game.players.iter().map(|p| p.hand.cards.len()).max().unwrap();
    let min = game.players.iter().map(|p| p.hand.cards.len()).min().unwrap();
    assert!(max - min <= 1);
}
