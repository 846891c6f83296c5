use pokersim::card_enums::Card;
use pokersim::hand_eval::score_hand;

enum Outcome {
    P1WINS,
    P2WINS,
    TIE,
}

fn run_hand_comp_test(
    shared_cards: &[u8; 5],
    player_cards_1: &[u8; 2],
    player_cards_2: &[u8; 2],
    result: Outcome,
) {
    let score_1 = score_hand(player_cards_1, shared_cards);
    let score_2 = score_hand(player_cards_2, shared_cards);
    println!("Score 1: {}, Score 2: {}", score_1, score_2);
    match result {
        Outcome::P1WINS => assert!(score_1 > score_2),
        Outcome::P2WINS => assert!(score_1 < score_2),
        Outcome::TIE => assert!(score_1 == score_2),
    };
}

fn test_cards(
    shared_cards: &[Card; 5],
    player_cards_1: &[Card; 2],
    player_cards_2: &[Card; 2],
    result: Outcome,
) {
    let shared_cards_int: [u8; 5] = [
        shared_cards[0].to_int(),
        shared_cards[1].to_int(),
        shared_cards[2].to_int(),
        shared_cards[3].to_int(),
        shared_cards[4].to_int(),
    ];
    let p1_int: [u8; 2] = [player_cards_1[0].to_int(), player_cards_1[1].to_int()];
    let p2_int: [u8; 2] = [player_cards_2[0].to_int(), player_cards_2[1].to_int()];

    run_hand_comp_test(&shared_cards_int, &p1_int, &p2_int, result);
}

#[test]
pub fn round_1() {
    // flush vs straight
    let shared_cards: [Card; 5] = [
        Card::card_from_name("spade", "two"),
        Card::card_from_name("spade", "three"),
        Card::card_from_name("heart", "four"),
        Card::card_from_name("spade", "king"),
        Card::card_from_name("club", "king"),
    ];

    // has flush
    let player_cards_1: [Card; 2] = [
        Card::card_from_name("spade", "five"),
        Card::card_from_name("spade", "seven"),
    ];

    // has straight
    let player_cards_2: [Card; 2] = [
        Card::card_from_name("club", "five"),
        Card::card_from_name("heart", "six"),
    ];

    test_cards(&shared_cards, &player_cards_1, &player_cards_2, Outcome::P1WINS);
}

#[test]
pub fn round_2() {
    // straight vs straight
    let shared_cards: [Card; 5] = [
        Card::card_from_name("spade", "two"),
        Card::card_from_name("spade", "five"),
        Card::card_from_name("heart", "four"),
        Card::card_from_name("spade", "eight"),
        Card::card_from_name("club", "king"),
    ];

    let player_cards_1: [Card; 2] = [
        Card::card_from_name("club", "six"),
        Card::card_from_name("spade", "seven"),
    ];

    let player_cards_2: [Card; 2] = [
        Card::card_from_name("spade", "three"),
        Card::card_from_name("heart", "six"),
    ];

    test_cards(&shared_cards, &player_cards_1, &player_cards_2, Outcome::P1WINS);
}

#[test]
pub fn round_3() {
    // flush vs flush
    let shared_cards: [Card; 5] = [
        Card::card_from_name("spade", "two"),
        Card::card_from_name("spade", "five"),
        Card::card_from_name("spade", "jack"),
        Card::card_from_name("club", "king"),
        Card::card_from_name("spade", "seven"),
    ];

    // has flush wins w/HC
    let player_cards_1: [Card; 2] = [
        Card::card_from_name("heart", "ace"),
        Card::card_from_name("spade", "eight"),
    ];

    // has flush, lower HC
    let player_cards_2: [Card; 2] = [
        Card::card_from_name("spade", "three"),
        Card::card_from_name("spade", "queen"),
    ];

    // has flush, lower HC
    let player_cards_3: [Card; 2] = [
        Card::card_from_name("spade", "four"),
        Card::card_from_name("heart", "queen"),
    ];

    test_cards(&shared_cards, &player_cards_1, &player_cards_2, Outcome::P2WINS);
    test_cards(&shared_cards, &player_cards_1, &player_cards_3, Outcome::TIE);
}

#[test]
pub fn round_4() {
    // royal, straight flush, flush
    let shared_cards: [Card; 5] = [
        Card::card_from_name("club", "queen"),
        Card::card_from_name("club", "ten"),
        Card::card_from_name("club", "jack"),
        Card::card_from_name("heart", "king"),
        Card::card_from_name("spade", "seven"),
    ];

    // royal flush
    let player_cards_1: [Card; 2] = [
        Card::card_from_name("club", "ace"),
        Card::card_from_name("club", "king"),
    ];

    // straight flush
    let player_cards_2: [Card; 2] = [
        Card::card_from_name("club", "nine"),
        Card::card_from_name("club", "eight"),
    ];

    // flush
    let player_cards_3: [Card; 2] = [
        Card::card_from_name("club", "two"),
        Card::card_from_name("club", "four"),
    ];

    test_cards(&shared_cards, &player_cards_1, &player_cards_2, Outcome::P1WINS);
    test_cards(&shared_cards, &player_cards_2, &player_cards_3, Outcome::P1WINS);
}

#[test]
pub fn round_5() {
    // compare straight flush HC
    let shared_cards: [Card; 5] = [
        Card::card_from_name("diamond", "eight"),
        Card::card_from_name("diamond", "ten"),
        Card::card_from_name("diamond", "nine"),
        Card::card_from_name("heart", "king"),
        Card::card_from_name("spade", "seven"),
    ];

    let player_cards_1: [Card; 2] = [
        Card::card_from_name("diamond", "queen"),
        Card::card_from_name("diamond", "jack"),
    ];

    let player_cards_2: [Card; 2] = [
        Card::card_from_name("diamond", "seven"),
        Card::card_from_name("diamond", "six"),
    ];

    test_cards(&shared_cards, &player_cards_1, &player_cards_2, Outcome::P1WINS);
}

#[test]
pub fn round_6() {
    // some pair comparisons
    let shared_cards: [Card; 5] = [
        Card::card_from_name("diamond", "two"),
        Card::card_from_name("club", "three"),
        Card::card_from_name("club", "four"),
        Card::card_from_name("heart", "king"),
        Card::card_from_name("spade", "ace"),
    ];

    // one pair twos
    let player_cards_1: [Card; 2] = [
        Card::card_from_name("diamond", "ten"),
        Card::card_from_name("club", "two"),
    ];

    // one pair fours
    let player_cards_2: [Card; 2] = [
        Card::card_from_name("diamond", "ten"),
        Card::card_from_name("diamond", "four"),
    ];

    // one pair aces
    let player_cards_3: [Card; 2] = [
        Card::card_from_name("diamond", "ace"),
        Card::card_from_name("diamond", "six"),
    ];

    // three of a kind threes
    let player_cards_4: [Card; 2] = [
        Card::card_from_name("diamond", "three"),
        Card::card_from_name("heart", "three"),
    ];

    // only hc
    let player_cards_5: [Card; 2] = [
        Card::card_from_name("diamond", "seven"),
        Card::card_from_name("heart", "six"),
    ];

    test_cards(&shared_cards, &player_cards_1, &player_cards_2, Outcome::P2WINS);
    test_cards(&shared_cards, &player_cards_2, &player_cards_3, Outcome::P2WINS);
    test_cards(&shared_cards, &player_cards_3, &player_cards_4, Outcome::P2WINS);
    test_cards(&shared_cards, &player_cards_1, &player_cards_5, Outcome::P1WINS);
}

fn named(suit: &str, value: &str) -> u8 {
    Card::card_from_name(suit, value).to_int()
}

#[test]
fn exact_scores() {
    // A royal flush scores exactly the top band.
    let board = [
        named("club", "queen"),
        named("club", "ten"),
        named("club", "jack"),
        named("heart", "king"),
        named("spade", "seven"),
    ];
    let royal = [named("club", "ace"), named("club", "king")];
    assert_eq!(score_hand(&royal, &board), 8_000_000);

    // A five-high straight: band plus the high card (a five, rank value 5)
    // weighted by ten thousand.
    let board2 = [
        named("spade", "two"),
        named("spade", "three"),
        named("heart", "four"),
        named("spade", "king"),
        named("club", "king"),
    ];
    let straight = [named("club", "five"), named("heart", "six")];
    assert_eq!(score_hand(&straight, &board2), 3_050_000);

    // A king-high flush: band plus the king's rank index (11) weighted by
    // ten thousand.
    let flush = [named("spade", "five"), named("spade", "seven")];
    assert_eq!(score_hand(&flush, &board2), 4_110_000);

    // A pair of twos with an ace kicker: band plus the pair's rank index
    // (0) and the kicker's (12).
    let board3 = [
        named("diamond", "two"),
        named("club", "three"),
        named("club", "four"),
        named("heart", "king"),
        named("spade", "ace"),
    ];
    let pair_twos = [named("diamond", "ten"), named("club", "two")];
    assert_eq!(score_hand(&pair_twos, &board3), 1_000_012);

    // A bare high card scores only the top rank index present.
    let high_card = [named("diamond", "seven"), named("heart", "six")];
    assert_eq!(score_hand(&high_card, &board3), 12);
}

#[test]
fn three_pairs_score_by_the_top_two() {
    // Pairs of kings, queens and twos: the kings lead, the queens second,
    // and the king is the highest rank present.
    let board = [
        named("heart", "queen"),
        named("spade", "queen"),
        named("heart", "two"),
        named("spade", "two"),
        named("diamond", "nine"),
    ];
    let hand = [named("heart", "king"), named("spade", "king")];
    assert_eq!(score_hand(&hand, &board), 1_111_011);

    // Kings over queens beats kings over jacks, whatever third pair tags
    // along.
    let board2 = [
        named("heart", "queen"),
        named("spade", "jack"),
        named("heart", "ten"),
        named("spade", "ten"),
        named("diamond", "jack"),
    ];
    assert!(score_hand(&hand, &board) > score_hand(&hand, &board2));
}

#[test]
fn same_hand_scores_equal() {
    // The evaluator is a pure function: the same seven cards always
    // score the same.
    let board = [
        named("spade", "two"),
        named("spade", "five"),
        named("spade", "jack"),
        named("club", "king"),
        named("spade", "seven"),
    ];
    let hand = [named("heart", "ace"), named("spade", "eight")];
    assert_eq!(score_hand(&hand, &board), score_hand(&hand, &board));
}

#[test]
fn full_house_and_quads_order() {
    // Quads beat a full house; the full house beats trips.
    let board = [
        named("spade", "nine"),
        named("heart", "nine"),
        named("diamond", "nine"),
        named("club", "four"),
        named("heart", "two"),
    ];
    let quads = [named("club", "nine"), named("diamond", "three")];
    let full_house = [named("spade", "four"), named("diamond", "four")];
    let board_only = [named("diamond", "seven"), named("heart", "six")];
    let q = score_hand(&quads, &board);
    let f = score_hand(&full_house, &board);
    let t = score_hand(&board_only, &board);
    assert!(q > f);
    assert!(f > t);
    assert!(q >= 6_000_000 && q < 7_000_000);
    assert!(f >= 5_000_000 && f < 6_000_000);
}
