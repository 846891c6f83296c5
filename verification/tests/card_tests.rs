use pokersim::card_enums::Card;

#[test]
fn round_trip_all_52() {
    // Every integer decodes and encodes back to itself.
    for n in 1..=52u8 {
        let card = Card::card_from_int(&n);
        assert!(1 <= card.card_value && card.card_value <= 13);
        assert!(1 <= card.card_suit && card.card_suit <= 4);
        assert_eq!(card.to_int(), n);
    }
}

#[test]
fn encoding_is_injective() {
    // No two of the 52 rank/suit pairs share an integer.
    let mut seen = [false; 53];
    for value in 1..=13u8 {
        for suit in 1..=4u8 {
            let card = Card { card_value: value, card_suit: suit };
            let n = card.to_int() as usize;
            assert!(1 <= n && n <= 52);
            assert!(!seen[n]);
            seen[n] = true;
        }
    }
}

#[test]
fn decode_formula() {
    // The decoding invariant: rank ((n-1) % 13) + 1, suit ((n-1) / 13) + 1.
    let c1 = Card::card_from_int(&1);
    assert_eq!((c1.card_value, c1.card_suit), (1, 1));
    let c13 = Card::card_from_int(&13);
    assert_eq!((c13.card_value, c13.card_suit), (13, 1));
    let c14 = Card::card_from_int(&14);
    assert_eq!((c14.card_value, c14.card_suit), (1, 2));
    let c52 = Card::card_from_int(&52);
    assert_eq!((c52.card_value, c52.card_suit), (13, 4));
}

#[test]
fn names_denote_cards() {
    assert_eq!(Card::card_from_name("spade", "two").to_int(), 1);
    assert_eq!(Card::card_from_name("spade", "ace").to_int(), 13);
    assert_eq!(Card::card_from_name("heart", "two").to_int(), 14);
    assert_eq!(Card::card_from_name("diamond", "king").to_int(), 38);
    assert_eq!(Card::card_from_name("club", "ace").to_int(), 52);
}

#[test]
fn names_are_case_insensitive() {
    assert_eq!(Card::card_from_name("SPADE", "Ace").to_int(), 13);
    assert_eq!(Card::card_from_name("Club", "TEN").to_int(), 48);
}
