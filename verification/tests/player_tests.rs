use pokersim::coms::Turn;
use pokersim::errors::HoldemError;
use pokersim::player::Blind;
use pokersim::player::BlindType;
use pokersim::player::HoldemPlayer;
use pokersim::player::Play;
use pokersim::player::Player;

#[test]
fn new_player_has_clean_state() {
    let player = Player::new("test".to_string(), 10);
    assert_eq!(player.chips, 10);
    assert!(player.hand.is_none());
    assert!(player.position.is_none());
    assert_eq!(player.pot_contrib, 0);
    assert_eq!(player.msg_header(), "test".to_string());
}

#[test]
fn test_recieve_cards() {
    let mut player = Player::new("test".to_string(), 10);
    let cards: [u8; 2] = [10, 15];
    player.recieve_cards(cards);
    assert_eq!(player.show(), Ok([10, 15]));
}

#[test]
fn show_without_cards_fails() {
    let player = Player::new("test".to_string(), 10);
    assert_eq!(player.show(), Err(HoldemError::InvariantViolation));
}

#[test]
fn blind_deducts_chips() {
    let mut player = Player::new("test".to_string(), 100);
    let posted = player.blind(Blind { amount: 40, btype: BlindType::Big });
    assert_eq!(posted, Ok(40));
    assert_eq!(player.chips, 60);
}

#[test]
fn blind_without_chips_fails() {
    let mut player = Player::new("test".to_string(), 10);
    let posted = player.blind(Blind { amount: 40, btype: BlindType::Little });
    assert_eq!(posted, Err(HoldemError::InvariantViolation));
    assert_eq!(player.chips, 10);
}

#[test]
fn bet_moves_chips_to_the_pot() {
    let mut player = Player::new("test".to_string(), 100);
    let shared: Vec<u8> = vec![];
    let paid = player.bet(&shared, 30);
    assert_eq!(paid, 30);
    assert_eq!(player.chips, 70);
    assert_eq!(player.pot_contribution(), 30);
}

#[test]
fn automated_player_calls_what_it_can_afford() {
    let mut player = Player::new("test".to_string(), 50);
    player.recieve_cards([1, 2]);
    let shared: Vec<u8> = vec![];
    let play = player.play(&vec![0, 1], 0, 0, 30, &shared, &Turn::HOLE);
    assert_eq!(play, Ok(Play::Bet(30)));
    assert_eq!(player.chips, 20);

    let play = player.play(&vec![0, 1], 0, 0, 30, &shared, &Turn::FLOP);
    assert_eq!(play, Ok(Play::Fold));
    assert!(player.hand.is_none());
}

#[test]
fn play_without_cards_fails() {
    let mut player = Player::new("test".to_string(), 50);
    let shared: Vec<u8> = vec![];
    let play = player.play(&vec![0, 1], 0, 0, 10, &shared, &Turn::HOLE);
    assert_eq!(play, Err(HoldemError::InvariantViolation));
}

#[test]
fn end_round_credits_winnings_and_clears_state() {
    let mut player = Player::new("test".to_string(), 100);
    player.recieve_cards([5, 6]);
    player.assign_position(2, 3);
    let shared: Vec<u8> = vec![];
    player.bet(&shared, 25);
    player.end_round(Some(75));
    assert_eq!(player.chips, 150);
    assert_eq!(player.pot_contribution(), 0);
    assert!(player.hand.is_none());
    assert!(player.position.is_none());

    player.end_round(None);
    assert_eq!(player.chips, 150);
}

#[test]
fn best_hand_uses_the_flop() {
    let mut player = Player::new("test".to_string(), 10);
    player.recieve_cards([7, 8]);
    let shared: Vec<u8> = vec![20, 21, 22, 23];
    assert_eq!(player.best_hand(&shared), Ok([7, 8, 20, 21, 22]));
    let too_few: Vec<u8> = vec![20];
    assert_eq!(player.best_hand(&too_few), Err(HoldemError::InvariantViolation));
}
