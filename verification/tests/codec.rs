use shangyou::card::{Card, Rank, Suit};
use shangyou::codec::{
    decode_card, decode_message, decode_play, encode_card, encode_message, encode_play,
    response_is_error, DecodeError, Message,
};
use shangyou::play::{Class, Play};
use shangyou::player::Player;

fn c(suit: Suit, rank: Rank) -> Card {
    Card::new(suit, rank)
}

fn chars(s: &str) -> Vec<char> {
    s.chars().collect()
}

fn text(v: &[char]) -> String {
    v.iter().collect()
}

#[test]
fn card_tokens_round_trip() {
    let cases = vec![
        (c(Suit::Spades, Rank::Three), "3♠"),
        (c(Suit::Diamonds, Rank::Ten), "0♦"),
        (c(Suit::Clubs, Rank::Jack), "J♣"),
        (c(Suit::Hearts, Rank::Two), "2♥"),
        (c(Suit::Red, Rank::Joker), "RO"),
        (c(Suit::Black, Rank::Joker), "BO"),
    ];
    for (card, token) in cases {
        let encoded = encode_card(&card);
        assert_eq!(text(&encoded), token.to_string());
        let decoded = decode_card(&encoded).expect("token must decode");
        assert_eq!(decoded.rank, card.rank);
        assert_eq!(decoded.suit, card.suit);
    }
}

#[test]
fn red_and_black_jokers_decode_differently() {
    let red = decode_card(&chars("RO")).unwrap();
    let black = decode_card(&chars("BO")).unwrap();
    assert_eq!(red.suit, Suit::Red);
    assert_eq!(black.suit, Suit::Black);
    assert_eq!(red.rank, Rank::Joker);
    assert_eq!(black.rank, Rank::Joker);
}

#[test]
fn malformed_tokens_fail_instead_of_defaulting() {
    assert_eq!(decode_card(&chars("X♠")), Err(DecodeError::BadRank));
    assert_eq!(decode_card(&chars("3Z")), Err(DecodeError::BadSuit));
    assert_eq!(decode_card(&chars("3")), Err(DecodeError::BadLength));
    assert_eq!(decode_card(&chars("3♠♥")), Err(DecodeError::BadLength));
}

#[test]
fn play_string_round_trip() {
    let mut play = Play::new(Player::new("ada".to_string()));
    play.set_cards(vec![
        c(Suit::Spades, Rank::Five),
        c(Suit::Hearts, Rank::Five),
    ]);
    let wire = encode_play(&play);
    assert_eq!(text(&wire), "ada 5♠5♥".to_string());
    let back = decode_play(&wire).expect("play must decode");
    assert_eq!(back.player.name, "ada".to_string());
    assert_eq!(back.class, Class::Double);
    assert_eq!(back.rank, Rank::Five);
    assert_eq!(back.cards.len(), 2);
}

#[test]
fn play_without_separator_or_cards_fails() {
    assert!(matches!(decode_play(&chars("ada")), Err(DecodeError::BadFrame)));
    assert!(matches!(decode_play(&chars("ada ")), Err(DecodeError::EmptyPlay)));
    assert!(matches!(decode_play(&chars("ada 5")), Err(DecodeError::BadLength)));
    assert!(matches!(decode_play(&chars("ada 5♠X♦")), Err(DecodeError::BadRank)));
}

#[test]
fn control_messages_round_trip() {
    let prompts = vec![
        Message::TurnPrompt,
        Message::RoundStart,
        Message::RoundEnd,
        Message::Heartbeat,
    ];
    let expected = vec!["m\0", "r\0", "e\0", "ok\0"];
    for (m, wire) in prompts.into_iter().zip(expected) {
        let encoded = encode_message(&m);
        assert_eq!(text(&encoded), wire.to_string());
        let decoded = decode_message(&encoded).expect("frame must decode");
        match (m, decoded) {
            (Message::TurnPrompt, Message::TurnPrompt) => {}
            (Message::RoundStart, Message::RoundStart) => {}
            (Message::RoundEnd, Message::RoundEnd) => {}
            (Message::Heartbeat, Message::Heartbeat) => {}
            _ => panic!("message changed identity on the wire"),
        }
    }
}

#[test]
fn registration_round_trip() {
    let m = Message::Registration("ada".to_string());
    let encoded = encode_message(&m);
    assert_eq!(text(&encoded), "name:ada\0".to_string());
    match decode_message(&encoded) {
        Ok(Message::Registration(name)) => assert_eq!(name, "ada".to_string()),
        other => panic!("expected a registration, got {:?}", other.is_ok()),
    }
}

#[test]
fn play_broadcast_round_trip() {
    let mut play = Play::new(Player::new("bob".to_string()));
    play.set_cards(vec![c(Suit::Clubs, Rank::Ace)]);
    let encoded = encode_message(&Message::PlayBroadcast(play));
    assert_eq!(text(&encoded), "pbob A♣\0".to_string());
    match decode_message(&encoded) {
        Ok(Message::PlayBroadcast(p)) => {
            assert_eq!(p.player.name, "bob".to_string());
            assert_eq!(p.class, Class::Single);
            assert_eq!(p.rank, Rank::Ace);
        }
        _ => panic!("expected a play broadcast"),
    }
}

#[test]
fn unframed_or_unknown_frames_fail() {
    // No terminator at all.
    assert!(matches!(decode_message(&chars("m")), Err(DecodeError::BadFrame)));
    // Embedded NUL before the terminator.
    assert!(matches!(decode_message(&chars("o\0k\0")), Err(DecodeError::BadFrame)));
    // Unknown tag.
    assert!(matches!(decode_message(&chars("x\0")), Err(DecodeError::BadFrame)));
    // Empty frame.
    assert!(matches!(decode_message(&chars("")), Err(DecodeError::BadFrame)));
}

#[test]
fn error_responses_are_recognised_by_substring() {
    assert!(response_is_error("err:name"));
    assert!(response_is_error("some error"));
    assert!(!response_is_error("connected"));
    assert!(!response_is_error("ok"));
    assert!(!response_is_error(""));
}

#[test]
fn decoded_plays_store_their_cards_sorted() {
    let wire = chars("ada K♠5♥9♦");
    let play = decode_play(&wire).expect("play must decode");
    assert_eq!(play.cards[0].rank, Rank::Five);
    assert_eq!(play.cards[1].rank, Rank::Nine);
    assert_eq!(play.cards[2].rank, Rank::King);
}

#[test]
fn play_broadcast_with_bad_payload_fails() {
    assert!(matches!(decode_message(&chars("pbob\0")), Err(DecodeError::BadFrame)));
    assert!(matches!(decode_message(&chars("pbob \0")), Err(DecodeError::EmptyPlay)));
}
