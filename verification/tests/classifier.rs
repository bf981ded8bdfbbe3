use shangyou::card::{Card, Rank, Suit};
use shangyou::play::{identify_class, identify_rank, legal_play, Class, Play};
use shangyou::player::Player;

fn c(suit: Suit, rank: Rank) -> Card {
    Card::new(suit, rank)
}

#[test]
fn cards_compare_by_rank_only() {
    assert_eq!(
        c(Suit::Spades, Rank::Five),
        c(Suit::Hearts, Rank::Five)
    );
    assert_ne!(
        c(Suit::Spades, Rank::Five),
        c(Suit::Spades, Rank::Six)
    );
    assert_eq!(
        c(Suit::Red, Rank::Joker),
        c(Suit::Black, Rank::Joker)
    );
}

#[test]
fn single_is_always_valid() {
    let mut cards = vec![c(Suit::Clubs, Rank::Queen)];
    assert_eq!(identify_class(&mut cards), Class::Single);
    assert_eq!(identify_rank(&mut cards), Rank::Queen);
}

#[test]
fn empty_set_is_invalid() {
    let mut cards: Vec<Card> = Vec::new();
    assert_eq!(identify_class(&mut cards), Class::Invalid);
}

#[test]
fn pair_requires_equal_ranks() {
    let mut pair = vec![c(Suit::Spades, Rank::Nine), c(Suit::Hearts, Rank::Nine)];
    assert_eq!(identify_class(&mut pair), Class::Double);
    let mut not_pair = vec![c(Suit::Spades, Rank::Nine), c(Suit::Hearts, Rank::Ten)];
    assert_eq!(identify_class(&mut not_pair), Class::Invalid);
}

#[test]
fn triple_requires_equal_ranks() {
    let mut triple = vec![
        c(Suit::Spades, Rank::Four),
        c(Suit::Hearts, Rank::Four),
        c(Suit::Clubs, Rank::Four),
    ];
    assert_eq!(identify_class(&mut triple), Class::Triple);
}

#[test]
fn quad_of_kings() {
    let mut quad = vec![
        c(Suit::Spades, Rank::King),
        c(Suit::Diamonds, Rank::King),
        c(Suit::Clubs, Rank::King),
        c(Suit::Hearts, Rank::King),
    ];
    assert_eq!(identify_class(&mut quad), Class::Quad);
    assert_eq!(identify_rank(&mut quad), Rank::King);
}

#[test]
fn single_straight_three_to_seven() {
    let mut cards = vec![
        c(Suit::Spades, Rank::Three),
        c(Suit::Diamonds, Rank::Four),
        c(Suit::Clubs, Rank::Five),
        c(Suit::Hearts, Rank::Six),
        c(Suit::Spades, Rank::Seven),
    ];
    assert_eq!(identify_class(&mut cards), Class::SingleStraight);
    assert_eq!(identify_rank(&mut cards), Rank::Seven);
}

#[test]
fn single_straight_detected_from_any_order() {
    let mut cards = vec![
        c(Suit::Hearts, Rank::Six),
        c(Suit::Spades, Rank::Three),
        c(Suit::Spades, Rank::Seven),
        c(Suit::Clubs, Rank::Five),
        c(Suit::Diamonds, Rank::Four),
    ];
    assert_eq!(identify_class(&mut cards), Class::SingleStraight);
}

#[test]
fn double_straight_three_four_five() {
    let mut cards = vec![
        c(Suit::Spades, Rank::Three),
        c(Suit::Diamonds, Rank::Three),
        c(Suit::Clubs, Rank::Four),
        c(Suit::Hearts, Rank::Four),
        c(Suit::Spades, Rank::Five),
        c(Suit::Diamonds, Rank::Five),
    ];
    assert_eq!(identify_class(&mut cards), Class::DoubleStraight);
    assert_eq!(identify_rank(&mut cards), Rank::Five);
}

#[test]
fn triple_straight_three_four() {
    let mut cards = vec![
        c(Suit::Spades, Rank::Three),
        c(Suit::Diamonds, Rank::Three),
        c(Suit::Clubs, Rank::Three),
        c(Suit::Spades, Rank::Four),
        c(Suit::Diamonds, Rank::Four),
        c(Suit::Hearts, Rank::Four),
    ];
    assert_eq!(identify_class(&mut cards), Class::TripleStraight);
}

#[test]
fn pair_plus_unrelated_single_is_invalid() {
    let mut cards = vec![
        c(Suit::Spades, Rank::Three),
        c(Suit::Diamonds, Rank::Three),
        c(Suit::Clubs, Rank::Five),
    ];
    assert_eq!(identify_class(&mut cards), Class::Invalid);
}

#[test]
fn straight_with_gap_is_invalid() {
    let mut cards = vec![
        c(Suit::Spades, Rank::Three),
        c(Suit::Diamonds, Rank::Four),
        c(Suit::Clubs, Rank::Five),
        c(Suit::Hearts, Rank::Six),
        c(Suit::Spades, Rank::Eight),
    ];
    assert_eq!(identify_class(&mut cards), Class::Invalid);
}

#[test]
fn two_outranks_ace_and_joker_tops_all() {
    let mut cards = vec![
        c(Suit::Spades, Rank::Jack),
        c(Suit::Diamonds, Rank::Queen),
        c(Suit::Clubs, Rank::King),
        c(Suit::Hearts, Rank::Ace),
        c(Suit::Spades, Rank::Two),
    ];
    assert_eq!(identify_class(&mut cards), Class::SingleStraight);
    assert_eq!(identify_rank(&mut cards), Rank::Two);

    let mut high = vec![c(Suit::Hearts, Rank::Ace), c(Suit::Spades, Rank::Two)];
    assert_eq!(identify_rank(&mut high), Rank::Two);
    let mut top = vec![c(Suit::Spades, Rank::Two), c(Suit::Red, Rank::Joker)];
    assert_eq!(identify_rank(&mut top), Rank::Joker);
}

#[test]
fn five_cards_of_mixed_pairs_are_invalid() {
    // A "double straight" needs an even count; five cards can never form one.
    let mut cards = vec![
        c(Suit::Spades, Rank::Three),
        c(Suit::Diamonds, Rank::Three),
        c(Suit::Clubs, Rank::Four),
        c(Suit::Hearts, Rank::Four),
        c(Suit::Spades, Rank::Five),
    ];
    assert_eq!(identify_class(&mut cards), Class::Invalid);
}

fn play_of(name: &str, cards: Vec<Card>) -> Play {
    let mut p = Play::new(Player::new(name.to_string()));
    p.set_cards(cards);
    p
}

#[test]
fn single_ace_beats_single_king() {
    let king = play_of("lead", vec![c(Suit::Spades, Rank::King)]);
    let ace = play_of("next", vec![c(Suit::Hearts, Rank::Ace)]);
    assert!(legal_play(&ace, Some(&king)));
}

#[test]
fn double_ace_cannot_follow_single_king() {
    let king = play_of("lead", vec![c(Suit::Spades, Rank::King)]);
    let aces = play_of(
        "next",
        vec![c(Suit::Hearts, Rank::Ace), c(Suit::Spades, Rank::Ace)],
    );
    assert!(!legal_play(&aces, Some(&king)));
}

#[test]
fn lower_single_cannot_follow_higher_single() {
    let king = play_of("lead", vec![c(Suit::Spades, Rank::King)]);
    let queen = play_of("next", vec![c(Suit::Hearts, Rank::Queen)]);
    assert!(!legal_play(&queen, Some(&king)));
}

#[test]
fn straights_of_different_lengths_never_compare() {
    let five_long = play_of(
        "lead",
        vec![
            c(Suit::Spades, Rank::Three),
            c(Suit::Diamonds, Rank::Four),
            c(Suit::Clubs, Rank::Five),
            c(Suit::Hearts, Rank::Six),
            c(Suit::Spades, Rank::Seven),
        ],
    );
    let six_long = play_of(
        "next",
        vec![
            c(Suit::Spades, Rank::Four),
            c(Suit::Diamonds, Rank::Five),
            c(Suit::Clubs, Rank::Six),
            c(Suit::Hearts, Rank::Seven),
            c(Suit::Spades, Rank::Eight),
            c(Suit::Diamonds, Rank::Nine),
        ],
    );
    assert!(!legal_play(&six_long, Some(&five_long)));
}

#[test]
fn any_valid_play_may_lead_but_invalid_may_not() {
    let single = play_of("lead", vec![c(Suit::Spades, Rank::Three)]);
    assert!(legal_play(&single, None));
    let garbage = play_of(
        "lead",
        vec![c(Suit::Spades, Rank::Three), c(Suit::Hearts, Rank::Five)],
    );
    assert!(!legal_play(&garbage, None));
}

#[test]
fn play_derives_class_and_rank_from_cards() {
    let mut p = Play::new(Player::new("ada".to_string()));
    assert_eq!(p.class, Class::Invalid);
    assert_eq!(p.rank, Rank::Three);
    p.add_card(c(Suit::Spades, Rank::Nine));
    assert_eq!(p.class, Class::Single);
    assert_eq!(p.rank, Rank::Nine);
    p.add_card(c(Suit::Hearts, Rank::Nine));
    assert_eq!(p.class, Class::Double);
    assert_eq!(p.rank, Rank::Nine);
    p.add_card(c(Suit::Clubs, Rank::Ten));
    assert_eq!(p.class, Class::Invalid);
    assert_eq!(p.rank, Rank::Ten);
}
