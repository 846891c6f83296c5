use pokersim::dealer::Dealer;
use pokersim::errors::HoldemError;

#[test]
pub fn test_shuffle() {
    let mut dealer = Dealer::new();
    for i in 1..51 {
        assert!(dealer.deck[i] < dealer.deck[i + 1])
    }
    let init_deck = dealer.deck.to_vec();

    dealer.shuffle();
    assert_ne!(init_deck, dealer.deck)
}

#[test]
pub fn dealer_test_shuffle() {
    let mut dealer = Dealer::new();
    for i in 1..51 {
        assert!(dealer.deck[i] < dealer.deck[i + 1])
    }
    let init_deck = dealer.deck.to_vec();

    dealer.shuffle();
    assert_ne!(init_deck, dealer.deck)
}

#[test]
fn fresh_deck_is_ascending() {
    let dealer = Dealer::new();
    assert_eq!(dealer.deck.len(), 52);
    for i in 0..52 {
        assert_eq!(dealer.deck[i], (i + 1) as u8);
    }
}

#[test]
fn shuffle_keeps_all_cards() {
    let mut dealer = Dealer::new();
    dealer.shuffle();
    assert_eq!(dealer.deck.len(), 52);
    let mut seen = [false; 53];
    for i in 0..52 {
        let c = dealer.deck[i] as usize;
        assert!(1 <= c && c <= 52);
        assert!(!seen[c]);
        seen[c] = true;
    }
}

#[test]
fn deal_to_exhaustion() {
    let mut dealer = Dealer::new();
    for i in 0..51 {
        let c = dealer.next_card();
        assert_eq!(c, Ok((i + 1) as u8));
    }
    assert_eq!(dealer.next_card(), Err(HoldemError::InvariantViolation));
}
