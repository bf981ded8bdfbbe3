//! The wire codec: cards as compact two-character tokens, plays as
//! `name tokens…`, and the NUL-terminated protocol messages that carry
//! registration, liveness, turn prompts and play broadcasts. Unrecognized
//! input decodes to an error, never to a default value.
use vstd::prelude::*;
use crate::card::{Card, Suit, Rank, card_well_formed};
use crate::play::{Play, Class, classify, play_wf, is_max_rank};
use crate::player::Player;
use crate::sorting::sorted_by_rank;
use crate::text::{str_to_chars, chars_to_string};

verus! {

/// Why a token, play or frame could not be decoded.
#[derive(Clone, Copy, Debug, PartialEq, Eq, Structural)]
pub enum DecodeError {
    /// A card token was not exactly two characters, or a token list had odd
    /// length.
    BadLength,
    /// The rank character was not one of the thirteen rank tokens.
    BadRank,
    /// The suit character was not one of the four suit glyphs.
    BadSuit,
    /// A play carried no cards at all.
    EmptyPlay,
    /// The frame had no terminator, no separator, or an unknown tag.
    BadFrame,
}

/// The token character of a rank; `'0'` stands for Ten and `'O'` for Joker.
pub open spec fn rank_char(r: Rank) -> char {
    match r {
        Rank::Three => '3',
        Rank::Four => '4',
        Rank::Five => '5',
        Rank::Six => '6',
        Rank::Seven => '7',
        Rank::Eight => '8',
        Rank::Nine => '9',
        Rank::Ten => '0',
        Rank::Jack => 'J',
        Rank::Queen => 'Q',
        Rank::King => 'K',
        Rank::Ace => 'A',
        Rank::Two => '2',
        Rank::Joker => 'O',
    }
}

/// The token character of a suit; the Joker pseudo-suits use `'R'`/`'B'`.
pub open spec fn suit_char(s: Suit) -> char {
    match s {
        Suit::Spades => '♠',
        Suit::Diamonds => '♦',
        Suit::Clubs => '♣',
        Suit::Hearts => '♥',
        Suit::Red => 'R',
        Suit::Black => 'B',
    }
}

/// The two-character token of a card: Jokers are `R`/`B` then `O`; all other
/// cards are the rank character then the suit glyph.
pub open spec fn encode_card_spec(c: Card) -> Seq<char> {
    if c.rank == Rank::Joker {
        seq![suit_char(c.suit), 'O']
    } else {
        seq![rank_char(c.rank), suit_char(c.suit)]
    }
}

/// The rank a token character names, Joker excluded (Jokers only decode from
/// the dedicated `RO`/`BO` tokens).
pub open spec fn rank_of_char(ch: char) -> Option<Rank> {
    if ch == '3' {
        Option::Some(Rank::Three)
    } else if ch == '4' {
        Option::Some(Rank::Four)
    } else if ch == '5' {
        Option::Some(Rank::Five)
    } else if ch == '6' {
        Option::Some(Rank::Six)
    } else if ch == '7' {
        Option::Some(Rank::Seven)
    } else if ch == '8' {
        Option::Some(Rank::Eight)
    } else if ch == '9' {
        Option::Some(Rank::Nine)
    } else if ch == '0' {
        Option::Some(Rank::Ten)
    } else if ch == 'J' {
        Option::Some(Rank::Jack)
    } else if ch == 'Q' {
        Option::Some(Rank::Queen)
    } else if ch == 'K' {
        Option::Some(Rank::King)
    } else if ch == 'A' {
        Option::Some(Rank::Ace)
    } else if ch == '2' {
        Option::Some(Rank::Two)
    } else {
        Option::None
    }
}

/// The playing suit a glyph names.
pub open spec fn suit_of_char(ch: char) -> Option<Suit> {
    if ch == '♠' {
        Option::Some(Suit::Spades)
    } else if ch == '♦' {
        Option::Some(Suit::Diamonds)
    } else if ch == '♣' {
        Option::Some(Suit::Clubs)
    } else if ch == '♥' {
        Option::Some(Suit::Hearts)
    } else {
        Option::None
    }
}

/// What a two-character token decodes to: the Joker tokens, or a rank
/// character and a suit glyph; anything else is an error.
pub open spec fn decode_card_spec(t: Seq<char>) -> Result<Card, DecodeError> {
    if t.len() != 2 {
        Result::Err(DecodeError::BadLength)
    } else if t[0] == 'R' && t[1] == 'O' {
        Result::Ok(Card { suit: Suit::Red, rank: Rank::Joker })
    } else if t[0] == 'B' && t[1] == 'O' {
        Result::Ok(Card { suit: Suit::Black, rank: Rank::Joker })
    } else {
        match rank_of_char(t[0]) {
            Option::None => Result::Err(DecodeError::BadRank),
            Option::Some(r) => match suit_of_char(t[1]) {
                Option::None => Result::Err(DecodeError::BadSuit),
                Option::Some(s) => Result::Ok(Card { suit: s, rank: r }),
            },
        }
    }
}

/// Encoding then decoding reproduces every well-formed card, the two Joker
/// colors included.
pub proof fn lemma_card_round_trip(c: Card)
    requires
        card_well_formed(c),
    ensures
        decode_card_spec(encode_card_spec(c)) == Result::<Card, DecodeError>::Ok(c),
{
}

/// Every decoded card is well formed.
pub proof fn lemma_decode_well_formed(t: Seq<char>)
    ensures
        decode_card_spec(t) matches Result::Ok(c) ==> card_well_formed(c),
{
}

fn rank_char_of(r: Rank) -> (ch: char)
    ensures
        ch == rank_char(r),
{
    match r {
        Rank::Three => '3',
        Rank::Four => '4',
        Rank::Five => '5',
        Rank::Six => '6',
        Rank::Seven => '7',
        Rank::Eight => '8',
        Rank::Nine => '9',
        Rank::Ten => '0',
        Rank::Jack => 'J',
        Rank::Queen => 'Q',
        Rank::King => 'K',
        Rank::Ace => 'A',
        Rank::Two => '2',
        Rank::Joker => 'O',
    }
}

fn suit_char_of(s: Suit) -> (ch: char)
    ensures
        ch == suit_char(s),
{
    match s {
        Suit::Spades => '♠',
        Suit::Diamonds => '♦',
        Suit::Clubs => '♣',
        Suit::Hearts => '♥',
        Suit::Red => 'R',
        Suit::Black => 'B',
    }
}

/// Encode one card as its two-character token.
pub fn encode_card(c: &Card) -> (t: Vec<char>)
    ensures
        t@ == encode_card_spec(*c),
{
    let mut t: Vec<char> = Vec::new();
    match c.rank {
        Rank::Joker => {
            t.push(suit_char_of(c.suit));
            t.push('O');
        },
        _ => {
            t.push(rank_char_of(c.rank));
            t.push(suit_char_of(c.suit));
        },
    }
    proof {
        assert(t@ =~= encode_card_spec(*c));
    }
    t
}

fn decode_card_chars(a: char, b: char) -> (r: Result<Card, DecodeError>)
    ensures
        r == decode_card_spec(seq![a, b]),
{
    if a == 'R' && b == 'O' {
        return Result::Ok(Card { suit: Suit::Red, rank: Rank::Joker });
    }
    if a == 'B' && b == 'O' {
        return Result::Ok(Card { suit: Suit::Black, rank: Rank::Joker });
    }
    let rank = if a == '3' {
        Rank::Three
    } else if a == '4' {
        Rank::Four
    } else if a == '5' {
        Rank::Five
    } else if a == '6' {
        Rank::Six
    } else if a == '7' {
        Rank::Seven
    } else if a == '8' {
        Rank::Eight
    } else if a == '9' {
        Rank::Nine
    } else if a == '0' {
        Rank::Ten
    } else if a == 'J' {
        Rank::Jack
    } else if a == 'Q' {
        Rank::Queen
    } else if a == 'K' {
        Rank::King
    } else if a == 'A' {
        Rank::Ace
    } else if a == '2' {
        Rank::Two
    } else {
        return Result::Err(DecodeError::BadRank);
    };
    let suit = if b == '♠' {
        Suit::Spades
    } else if b == '♦' {
        Suit::Diamonds
    } else if b == '♣' {
        Suit::Clubs
    } else if b == '♥' {
        Suit::Hearts
    } else {
        return Result::Err(DecodeError::BadSuit);
    };
    Result::Ok(Card { suit, rank })
}

/// Decode one two-character token; malformed tokens fail, they never fall
/// back to a default card.
pub fn decode_card(t: &Vec<char>) -> (r: Result<Card, DecodeError>)
    ensures
        r == decode_card_spec(t@),
{
    if t.len() != 2 {
        return Result::Err(DecodeError::BadLength);
    }
    proof {
        assert(t@ =~= seq![t@[0], t@[1]]);
    }
    decode_card_chars(t[0], t[1])
}

/// The concatenation of the cards' tokens, in order, with no separator.
pub open spec fn concat_tokens(cards: Seq<Card>) -> Seq<char>
    decreases cards.len(),
{
    if cards.len() == 0 {
        Seq::empty()
    } else {
        encode_card_spec(cards[0]) + concat_tokens(cards.drop_first())
    }
}

proof fn lemma_concat_tokens_push(cards: Seq<Card>, c: Card)
    ensures
        concat_tokens(cards.push(c)) == concat_tokens(cards) + encode_card_spec(c),
    decreases cards.len(),
{
    if cards.len() == 0 {
        assert(cards.push(c).drop_first() =~= Seq::<Card>::empty());
        assert(cards.push(c)[0] == c);
        assert(concat_tokens(Seq::<Card>::empty()) =~= Seq::<char>::empty());
        assert(concat_tokens(cards.push(c)) =~= concat_tokens(cards) + encode_card_spec(c));
    } else {
        assert(cards.push(c).drop_first() =~= cards.drop_first().push(c));
        assert(cards.push(c)[0] == cards[0]);
        lemma_concat_tokens_push(cards.drop_first(), c);
        assert(concat_tokens(cards.push(c)) =~= concat_tokens(cards) + encode_card_spec(c));
    }
}

/// What a separator-free token list decodes to: the sequence of cards of its
/// two-character chunks, or the first error.
pub open spec fn decode_tokens_spec(u: Seq<char>) -> Result<Seq<Card>, DecodeError>
    decreases u.len(),
{
    if u.len() == 0 {
        Result::Ok(Seq::empty())
    } else if u.len() == 1 {
        Result::Err(DecodeError::BadLength)
    } else {
        match decode_card_spec(u.subrange(0, 2)) {
            Result::Err(e) => Result::Err(e),
            Result::Ok(c) => match decode_tokens_spec(u.skip(2)) {
                Result::Err(e) => Result::Err(e),
                Result::Ok(rest) => Result::Ok(seq![c] + rest),
            },
        }
    }
}

/// Encoding a card list and decoding it back reproduces the list, for
/// well-formed cards.
pub proof fn lemma_tokens_round_trip(cards: Seq<Card>)
    requires
        forall|i: int| 0 <= i < cards.len() ==> card_well_formed(#[trigger] cards[i]),
    ensures
        decode_tokens_spec(concat_tokens(cards)) == Result::<Seq<Card>, DecodeError>::Ok(cards),
    decreases cards.len(),
{
    if cards.len() == 0 {
        assert(cards =~= Seq::<Card>::empty());
    } else {
        let u = concat_tokens(cards);
        let e0 = encode_card_spec(cards[0]);
        assert(u == e0 + concat_tokens(cards.drop_first()));
        assert(u.len() >= 2);
        assert(u.subrange(0, 2) =~= e0);
        lemma_card_round_trip(cards[0]);
        assert(u.skip(2) =~= concat_tokens(cards.drop_first()));
        assert(forall|i: int|
            0 <= i < cards.drop_first().len() ==> card_well_formed(
                #[trigger] cards.drop_first()[i],
            ));
        lemma_tokens_round_trip(cards.drop_first());
        assert(decode_card_spec(u.subrange(0, 2)) == Result::<Card, DecodeError>::Ok(cards[0]));
        assert(decode_tokens_spec(u.skip(2)) == Result::<Seq<Card>, DecodeError>::Ok(
            cards.drop_first(),
        ));
        assert(seq![cards[0]] + cards.drop_first() =~= cards);
        assert(decode_tokens_spec(u) == Result::<Seq<Card>, DecodeError>::Ok(
            seq![cards[0]] + cards.drop_first(),
        ));
    }
}

/// Encode a card list as its concatenated tokens.
pub fn encode_cards(cards: &Vec<Card>) -> (v: Vec<char>)
    ensures
        v@ == concat_tokens(cards@),
{
    let mut v: Vec<char> = Vec::new();
    let mut i: usize = 0;
    while i < cards.len()
        invariant
            i <= cards@.len(),
            v@ == concat_tokens(cards@.subrange(0, i as int)),
        decreases cards.len() - i,
    {
        let ghost pre = cards@.subrange(0, i as int);
        let mut t = encode_card(&cards[i]);
        v.append(&mut t);
        proof {
            lemma_concat_tokens_push(pre, cards@[i as int]);
            assert(cards@.subrange(0, i + 1) =~= pre.push(cards@[i as int]));
        }
        i = i + 1;
    }
    proof {
        assert(cards@.subrange(0, cards@.len() as int) =~= cards@);
    }
    v
}

/// Decode a separator-free token list into cards; the first malformed chunk
/// fails the whole list.
pub fn decode_cards(u: &Vec<char>) -> (r: Result<Vec<Card>, DecodeError>)
    ensures
        match r {
            Result::Ok(v) => decode_tokens_spec(u@) == Result::<Seq<Card>, DecodeError>::Ok(v@),
            Result::Err(e) => decode_tokens_spec(u@) == Result::<Seq<Card>, DecodeError>::Err(e),
        },
{
    let mut acc: Vec<Card> = Vec::new();
    let mut i: usize = 0;
    proof {
        assert(u@.skip(0) =~= u@);
        match decode_tokens_spec(u@) {
            Result::Ok(rest) => {
                assert(Seq::<Card>::empty() + rest =~= rest);
            },
            Result::Err(_) => {},
        }
    }
    while i < u.len()
        invariant
            i <= u@.len(),
            match decode_tokens_spec(u@.skip(i as int)) {
                Result::Ok(rest) => decode_tokens_spec(u@) == Result::<Seq<Card>,
                    DecodeError,
                >::Ok(acc@ + rest),
                Result::Err(e) => decode_tokens_spec(u@) == Result::<Seq<Card>,
                    DecodeError,
                >::Err(e),
            },
        decreases u.len() - i,
    {
        let ghost tail = u@.skip(i as int);
        if i + 1 == u.len() {
            proof {
                assert(tail.len() == 1);
            }
            return Result::Err(DecodeError::BadLength);
        }
        proof {
            assert(tail.subrange(0, 2) =~= seq![u@[i as int], u@[i as int + 1]]);
        }
        let c = match decode_card_chars(u[i], u[i + 1]) {
            Result::Ok(c) => c,
            Result::Err(e) => {
                return Result::Err(e);
            },
        };
        let ghost acc_pre = acc@;
        acc.push(c);
        proof {
            assert(tail.len() >= 2);
            assert(u@.skip(i as int + 2) =~= tail.skip(2));
            assert(decode_card_spec(tail.subrange(0, 2)) == Result::<Card, DecodeError>::Ok(c));
            match decode_tokens_spec(tail.skip(2)) {
                Result::Ok(rest) => {
                    assert(decode_tokens_spec(tail) == Result::<Seq<Card>, DecodeError>::Ok(
                        seq![c] + rest,
                    ));
                    assert(acc_pre + (seq![c] + rest) =~= acc@ + rest);
                },
                Result::Err(e) => {
                    assert(decode_tokens_spec(tail) == Result::<Seq<Card>, DecodeError>::Err(e));
                },
            }
        }
        i = i + 2;
    }
    proof {
        assert(u@.skip(i as int) =~= Seq::<char>::empty());
        assert(acc@ + Seq::<Card>::empty() =~= acc@);
    }
    Result::Ok(acc)
}

/// No character of a card token is a space: tokens are rank characters,
/// suit glyphs and the Joker letters.
proof fn lemma_token_chars_no_space(c: Card)
    ensures
        forall|i: int|
            0 <= i < encode_card_spec(c).len() ==> #[trigger] encode_card_spec(c)[i] != ' ',
{
}

/// No character of a concatenated token list is a space.
proof fn lemma_concat_tokens_no_space(cards: Seq<Card>)
    ensures
        forall|i: int|
            0 <= i < concat_tokens(cards).len() ==> #[trigger] concat_tokens(cards)[i] != ' ',
    decreases cards.len(),
{
    if cards.len() > 0 {
        lemma_token_chars_no_space(cards[0]);
        lemma_concat_tokens_no_space(cards.drop_first());
        let e0 = encode_card_spec(cards[0]);
        let rest = concat_tokens(cards.drop_first());
        assert forall|i: int|
            0 <= i < concat_tokens(cards).len() implies #[trigger] concat_tokens(cards)[i]
            != ' ' by {
            assert(concat_tokens(cards) == e0 + rest);
            if i < e0.len() {
                assert(concat_tokens(cards)[i] == e0[i]);
            } else {
                assert(concat_tokens(cards)[i] == rest[i - e0.len()]);
            }
        }
    }
}

/// The wire round trip of a play: for a space-free name and a non-empty list
/// of well-formed cards, the encoded `name tokens` line splits back at the
/// name's end and its token part decodes to exactly the same cards. Together
/// with `decode_play`'s contract this pins the decoded play: same name, and
/// class, rank and card multiset derived from the same cards.
pub proof fn lemma_play_wire_round_trip(name: Seq<char>, cards: Seq<Card>)
    requires
        !name.contains(' '),
        cards.len() > 0,
        forall|i: int| 0 <= i < cards.len() ==> card_well_formed(#[trigger] cards[i]),
    ensures
        ({
            let wire = name + seq![' '] + concat_tokens(cards);
            &&& first_space(wire) == name.len()
            &&& wire.subrange(0, name.len() as int) == name
            &&& decode_tokens_spec(wire.skip(name.len() as int + 1)) == Result::<
                Seq<Card>,
                DecodeError,
            >::Ok(cards)
        }),
{
    let wire = name + seq![' '] + concat_tokens(cards);
    assert forall|j: int| 0 <= j < name.len() implies wire[j] != ' ' by {
        assert(wire[j] == name[j]);
        if name[j] == ' ' {
            assert(name.contains(' '));
        }
    }
    assert(wire[name.len() as int] == ' ');
    lemma_first_space_at(wire, name.len() as int);
    assert(wire.subrange(0, name.len() as int) =~= name);
    assert(wire.skip(name.len() as int + 1) =~= concat_tokens(cards));
    lemma_tokens_round_trip(cards);
}

/// The index of the first space in `t`, or -1 when there is none.
pub open spec fn first_space(t: Seq<char>) -> int
    decreases t.len(),
{
    if t.len() == 0 {
        -1
    } else if t[0] == ' ' {
        0
    } else {
        let r = first_space(t.drop_first());
        if r == -1 {
            -1
        } else {
            1 + r
        }
    }
}

proof fn lemma_first_space_at(t: Seq<char>, i: int)
    requires
        0 <= i < t.len(),
        t[i] == ' ',
        forall|j: int| 0 <= j < i ==> t[j] != ' ',
    ensures
        first_space(t) == i,
    decreases i,
{
    if i == 0 {
    } else {
        assert(forall|j: int| 0 <= j < i - 1 ==> t.drop_first()[j] != ' ');
        assert(t.drop_first()[i - 1] == ' ');
        lemma_first_space_at(t.drop_first(), i - 1);
    }
}

proof fn lemma_first_space_none(t: Seq<char>)
    requires
        forall|j: int| 0 <= j < t.len() ==> t[j] != ' ',
    ensures
        first_space(t) == -1,
    decreases t.len(),
{
    if t.len() > 0 {
        assert(forall|j: int| 0 <= j < t.drop_first().len() ==> t.drop_first()[j] != ' ');
        lemma_first_space_none(t.drop_first());
    }
}

fn find_space(t: &Vec<char>) -> (r: Option<usize>)
    ensures
        match r {
            Option::Some(i) => first_space(t@) == i as int && i < t@.len(),
            Option::None => first_space(t@) == -1,
        },
{
    let mut i: usize = 0;
    while i < t.len()
        invariant
            i <= t@.len(),
            forall|j: int| 0 <= j < i ==> t@[j] != ' ',
        decreases t.len() - i,
    {
        if t[i] == ' ' {
            proof {
                lemma_first_space_at(t@, i as int);
            }
            return Option::Some(i);
        }
        i = i + 1;
    }
    proof {
        lemma_first_space_none(t@);
    }
    Option::None
}

/// Encode a play as the player's name, a space, then the concatenated card
/// tokens.
pub fn encode_play(p: &Play) -> (v: Vec<char>)
    ensures
        v@ == p.player.name@ + seq![' '] + concat_tokens(p.cards@),
{
    let mut v = str_to_chars(p.player.name.as_str());
    v.push(' ');
    let mut t = encode_cards(&p.cards);
    v.append(&mut t);
    proof {
        assert(v@ =~= p.player.name@ + seq![' '] + concat_tokens(p.cards@));
    }
    v
}

/// Decode a play: the name before the first space, then the card tokens. The
/// decoded play is rebuilt through the classifier, so its class and rank are
/// derived from the decoded cards exactly as for a locally built play.
pub fn decode_play(t: &Vec<char>) -> (r: Result<Play, DecodeError>)
    ensures
        first_space(t@) == -1 ==> r == Result::<Play, DecodeError>::Err(DecodeError::BadFrame),
        first_space(t@) >= 0 ==> match decode_tokens_spec(t@.skip(first_space(t@) + 1)) {
            Result::Err(e) => r == Result::<Play, DecodeError>::Err(e),
            Result::Ok(cs) => {
                if cs.len() == 0 {
                    r == Result::<Play, DecodeError>::Err(DecodeError::EmptyPlay)
                } else {
                    match r {
                        Result::Ok(p) => {
                            &&& play_wf(p)
                            &&& sorted_by_rank(p.cards@)
                            &&& p.player.name@ == t@.subrange(0, first_space(t@))
                            &&& p.cards@.len() == cs.len()
                            &&& p.cards@.to_multiset() == cs.to_multiset()
                            &&& p.class == classify(cs)
                            &&& is_max_rank(p.rank, cs)
                        },
                        Result::Err(_) => false,
                    }
                }
            },
        },
{
    let sp = match find_space(t) {
        Option::Some(i) => i,
        Option::None => {
            return Result::Err(DecodeError::BadFrame);
        },
    };
    let n = t.len();
    let mut name_chars: Vec<char> = Vec::new();
    let mut i: usize = 0;
    while i < sp
        invariant
            i <= sp,
            sp < t@.len(),
            name_chars@ =~= t@.subrange(0, i as int),
        decreases sp - i,
    {
        name_chars.push(t[i]);
        proof {
            assert(name_chars@ =~= t@.subrange(0, i + 1));
        }
        i = i + 1;
    }
    let mut token_chars: Vec<char> = Vec::new();
    let mut j: usize = sp + 1;
    while j < n
        invariant
            sp + 1 <= j <= n,
            n == t@.len(),
            token_chars@ =~= t@.subrange(sp + 1, j as int),
        decreases n - j,
    {
        token_chars.push(t[j]);
        proof {
            assert(token_chars@ =~= t@.subrange(sp + 1, j + 1));
        }
        j = j + 1;
    }
    proof {
        assert(token_chars@ =~= t@.skip(sp + 1));
    }
    let cards = match decode_cards(&token_chars) {
        Result::Ok(cs) => cs,
        Result::Err(e) => {
            return Result::Err(e);
        },
    };
    if cards.len() == 0 {
        return Result::Err(DecodeError::EmptyPlay);
    }
    let name = chars_to_string(&name_chars);
    let mut play = Play::new(Player::new(name));
    play.set_cards(cards);
    Result::Ok(play)
}

/// A protocol message, decoded from its wire tag before any game logic
/// touches it.
pub enum Message {
    /// `m`: the server prompts this client for its move.
    TurnPrompt,
    /// `r`: a new round is starting.
    RoundStart,
    /// `e`: the round has ended.
    RoundEnd,
    /// `ok`: a client liveness heartbeat.
    Heartbeat,
    /// `name:<username>`: a client registers under a name.
    Registration(String),
    /// `p<name> <tokens>`: an accepted play, broadcast to all clients.
    PlayBroadcast(Play),
}

/// A well-framed wire message: one terminating NUL, and none inside.
pub open spec fn framed(t: Seq<char>) -> bool {
    &&& t.len() > 0
    &&& t[t.len() - 1] == '\0'
    &&& forall|i: int| 0 <= i < t.len() - 1 ==> t[i] != '\0'
}

/// The tag prefix of a registration message.
pub open spec fn reg_prefix() -> Seq<char> {
    seq!['n', 'a', 'm', 'e', ':']
}

/// Encode a message as a NUL-terminated frame.
pub fn encode_message(m: &Message) -> (v: Vec<char>)
    ensures
        match *m {
            Message::TurnPrompt => v@ == seq!['m', '\0'],
            Message::RoundStart => v@ == seq!['r', '\0'],
            Message::RoundEnd => v@ == seq!['e', '\0'],
            Message::Heartbeat => v@ == seq!['o', 'k', '\0'],
            Message::Registration(name) => v@ == reg_prefix() + name@ + seq!['\0'],
            Message::PlayBroadcast(p) => v@ == seq!['p'] + p.player.name@ + seq![' ']
                + concat_tokens(p.cards@) + seq!['\0'],
        },
{
    let mut v: Vec<char> = Vec::new();
    match m {
        Message::TurnPrompt => {
            v.push('m');
            v.push('\0');
            proof {
                assert(v@ =~= seq!['m', '\0']);
            }
        },
        Message::RoundStart => {
            v.push('r');
            v.push('\0');
            proof {
                assert(v@ =~= seq!['r', '\0']);
            }
        },
        Message::RoundEnd => {
            v.push('e');
            v.push('\0');
            proof {
                assert(v@ =~= seq!['e', '\0']);
            }
        },
        Message::Heartbeat => {
            v.push('o');
            v.push('k');
            v.push('\0');
            proof {
                assert(v@ =~= seq!['o', 'k', '\0']);
            }
        },
        Message::Registration(name) => {
            v.push('n');
            v.push('a');
            v.push('m');
            v.push('e');
            v.push(':');
            let mut nc = str_to_chars(name.as_str());
            v.append(&mut nc);
            v.push('\0');
            proof {
                assert(v@ =~= reg_prefix() + name@ + seq!['\0']);
            }
        },
        Message::PlayBroadcast(p) => {
            v.push('p');
            let mut pc = encode_play(p);
            v.append(&mut pc);
            v.push('\0');
            proof {
                assert(v@ =~= seq!['p'] + p.player.name@ + seq![' '] + concat_tokens(p.cards@)
                    + seq!['\0']);
            }
        },
    }
    v
}

fn check_framed(frame: &Vec<char>) -> (r: bool)
    ensures
        r == framed(frame@),
{
    if frame.len() == 0 {
        return false;
    }
    if frame[frame.len() - 1] != '\0' {
        return false;
    }
    let mut i: usize = 0;
    while i < frame.len() - 1
        invariant
            frame@.len() > 0,
            i <= frame@.len() - 1,
            forall|j: int| 0 <= j < i ==> frame@[j] != '\0',
        decreases frame.len() - i,
    {
        if frame[i] == '\0' {
            return false;
        }
        i = i + 1;
    }
    true
}

/// The message body starts with the registration tag.
pub open spec fn has_reg_tag(body: Seq<char>) -> bool {
    body.len() >= 5 && body.subrange(0, 5) == reg_prefix()
}

/// The message body starts with the play-broadcast tag.
pub open spec fn has_play_tag(body: Seq<char>) -> bool {
    body.len() >= 1 && body[0] == 'p'
}

/// Decode one NUL-terminated frame into a message. A frame without proper
/// framing or with an unknown tag fails with `BadFrame`; a play broadcast
/// whose payload does not parse fails with that payload's error. Frames are
/// never silently repaired.
pub fn decode_message(frame: &Vec<char>) -> (r: Result<Message, DecodeError>)
    ensures
        !framed(frame@) ==> r == Result::<Message, DecodeError>::Err(DecodeError::BadFrame),
        framed(frame@) ==> {
            let body = frame@.subrange(0, frame@.len() - 1);
            &&& (body == seq!['m'] ==> r == Result::<Message, DecodeError>::Ok(
                Message::TurnPrompt,
            ))
            &&& (body == seq!['r'] ==> r == Result::<Message, DecodeError>::Ok(
                Message::RoundStart,
            ))
            &&& (body == seq!['e'] ==> r == Result::<Message, DecodeError>::Ok(
                Message::RoundEnd,
            ))
            &&& (body == seq!['o', 'k'] ==> r == Result::<Message, DecodeError>::Ok(
                Message::Heartbeat,
            ))
            &&& (has_reg_tag(body) ==> match r {
                Result::Ok(m) => m matches Message::Registration(name) && name@ == body.skip(5),
                Result::Err(_) => false,
            })
            &&& (!has_reg_tag(body) && has_play_tag(body) && body != seq!['m'] ==> {
                let rest = body.skip(1);
                &&& (first_space(rest) == -1 ==> r == Result::<Message, DecodeError>::Err(
                    DecodeError::BadFrame,
                ))
                &&& (first_space(rest) >= 0 ==> match decode_tokens_spec(
                    rest.skip(first_space(rest) + 1),
                ) {
                    Result::Err(e) => r == Result::<Message, DecodeError>::Err(e),
                    Result::Ok(cs) => {
                        if cs.len() == 0 {
                            r == Result::<Message, DecodeError>::Err(DecodeError::EmptyPlay)
                        } else {
                            match r {
                                Result::Ok(m) => match m {
                                    Message::PlayBroadcast(p) => {
                                        &&& play_wf(p)
                                        &&& sorted_by_rank(p.cards@)
                                        &&& p.player.name@ == rest.subrange(0, first_space(rest))
                                        &&& p.cards@.len() == cs.len()
                                        &&& p.cards@.to_multiset() == cs.to_multiset()
                                        &&& p.class == classify(cs)
                                        &&& is_max_rank(p.rank, cs)
                                    },
                                    _ => false,
                                },
                                Result::Err(_) => false,
                            }
                        }
                    },
                })
            })
            &&& (body != seq!['m'] && body != seq!['r'] && body != seq!['e'] && body != seq![
                'o',
                'k',
            ] && !has_reg_tag(body) && !has_play_tag(body) ==> r == Result::<Message,
                DecodeError,
            >::Err(DecodeError::BadFrame))
        },
{
    if !check_framed(frame) {
        return Result::Err(DecodeError::BadFrame);
    }
    let n = frame.len() - 1;
    let mut body: Vec<char> = Vec::new();
    let mut i: usize = 0;
    while i < n
        invariant
            i <= n,
            n == frame@.len() - 1,
            body@ =~= frame@.subrange(0, i as int),
        decreases n - i,
    {
        body.push(frame[i]);
        proof {
            assert(body@ =~= frame@.subrange(0, i + 1));
        }
        i = i + 1;
    }
    proof {
        assert(body@ =~= frame@.subrange(0, frame@.len() - 1));
    }
    if body.len() == 1 && body[0] == 'm' {
        proof {
            assert(body@ =~= seq!['m']);
        }
        return Result::Ok(Message::TurnPrompt);
    }
    if body.len() == 1 && body[0] == 'r' {
        proof {
            assert(body@ =~= seq!['r']);
        }
        return Result::Ok(Message::RoundStart);
    }
    if body.len() == 1 && body[0] == 'e' {
        proof {
            assert(body@ =~= seq!['e']);
        }
        return Result::Ok(Message::RoundEnd);
    }
    if body.len() == 2 && body[0] == 'o' && body[1] == 'k' {
        proof {
            assert(body@ =~= seq!['o', 'k']);
        }
        return Result::Ok(Message::Heartbeat);
    }
    if body.len() >= 5 && body[0] == 'n' && body[1] == 'a' && body[2] == 'm' && body[3] == 'e'
        && body[4] == ':' {
        proof {
            assert(body@.subrange(0, 5) =~= reg_prefix());
            assert(has_reg_tag(body@));
        }
        let mut name_chars: Vec<char> = Vec::new();
        let mut j: usize = 5;
        while j < body.len()
            invariant
                5 <= j <= body@.len(),
                name_chars@ =~= body@.subrange(5, j as int),
            decreases body.len() - j,
        {
            name_chars.push(body[j]);
            proof {
                assert(name_chars@ =~= body@.subrange(5, j + 1));
            }
            j = j + 1;
        }
        proof {
            assert(name_chars@ =~= body@.skip(5));
        }
        let name = chars_to_string(&name_chars);
        return Result::Ok(Message::Registration(name));
    }
    if body.len() >= 1 && body[0] == 'p' {
        proof {
            assert(!(body@.len() >= 5 && body@.subrange(0, 5) == reg_prefix())) by {
                if body@.len() >= 5 && body@.subrange(0, 5) == reg_prefix() {
                    assert(body@[0] == 'n');
                }
            }
        }
        let mut rest: Vec<char> = Vec::new();
        let mut j: usize = 1;
        while j < body.len()
            invariant
                1 <= j <= body@.len(),
                rest@ =~= body@.subrange(1, j as int),
            decreases body.len() - j,
        {
            rest.push(body[j]);
            proof {
                assert(rest@ =~= body@.subrange(1, j + 1));
            }
            j = j + 1;
        }
        proof {
            assert(rest@ =~= body@.skip(1));
        }
        return match decode_play(&rest) {
            Result::Ok(p) => Result::Ok(Message::PlayBroadcast(p)),
            Result::Err(e) => Result::Err(e),
        };
    }
    Result::Err(DecodeError::BadFrame)
}

/// The response holds `err` as a substring, starting at position `i`.
pub open spec fn err_at(s: Seq<char>, i: int) -> bool {
    0 <= i && i + 3 <= s.len() && s[i] == 'e' && s[i + 1] == 'r' && s[i + 2] == 'r'
}

/// Whether a registration response signals rejection: the protocol marks a
/// refused registration by the substring `err` in the server's status token.
pub fn response_is_error(s: &str) -> (r: bool)
    ensures
        r == exists|i: int| err_at(s@, i),
{
    let n = s.unicode_len();
    if n < 3 {
        return false;
    }
    let mut i: usize = 0;
    while i <= n - 3
        invariant
            n == s@.len(),
            n >= 3,
            i <= n - 2,
            forall|j: int| 0 <= j < i ==> !err_at(s@, j),
        decreases n - i,
    {
        if s.get_char(i) == 'e' && s.get_char(i + 1) == 'r' && s.get_char(i + 2) == 'r' {
            proof {
                assert(err_at(s@, i as int));
            }
            return true;
        }
        proof {
            assert(!err_at(s@, i as int));
        }
        i = i + 1;
    }
    proof {
        assert forall|j: int| !err_at(s@, j) by {
            if err_at(s@, j) {
                assert(0 <= j && j + 3 <= s@.len());
                assert(j < i);
            }
        }
    }
    false
}

} // verus!
