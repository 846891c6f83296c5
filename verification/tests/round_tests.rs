use pokersim::errors::HoldemError;
use pokersim::games::end_hand;
use pokersim::games::Round;
use pokersim::player::Play;
use pokersim::player::Player;

#[test]
fn round_needs_two_players() {
    assert!(Round::new(0, None).is_err());
    assert!(Round::new(1, None).is_err());
    assert!(Round::new(2, None).is_ok());
}

#[test]
fn round_rejects_mismatched_seed() {
    let r = Round::new(3, Some(vec![1, 2]));
    assert!(r.is_err());
}

#[test]
fn round_rejects_an_overflowing_seed() {
    // A seeded pot must fit the chip counter.
    let r = Round::new(2, Some(vec![u32::MAX, 1]));
    assert!(r.is_err());
}

#[test]
fn pot_counts_all_contributions() {
    // Pot conservation: the pot always equals the sum of everything
    // recorded, seeded antes and blinds included.
    let mut round = Round::new(3, Some(vec![10, 20, 30])).unwrap();
    assert_eq!(round.pot_total(), 60);

    // Seat 0 must add 20 to call the largest contribution of 30.
    assert_eq!(round.min_next_bet(), 20);
    round.next_play(Play::Bet(20));
    assert_eq!(round.pot_total(), 80);

    // A fold records no chips.
    round.next_play(Play::Fold);
    assert_eq!(round.pot_total(), 80);
}

#[test]
fn equal_bets_end_round_after_one_orbit() {
    // With two seats, equal contributions and no folds, two checks end
    // the street: as many actions as active players.
    let mut round = Round::new(2, None).unwrap();
    assert!(!round.round_ended());
    let more = round.next_play(Play::Bet(0));
    assert!(more);
    let more = round.next_play(Play::Bet(0));
    assert!(!more);
    assert!(round.round_ended());
}

#[test]
fn single_survivor_ends_round_immediately() {
    let mut round = Round::new(2, None).unwrap();
    round.next_play(Play::Fold);
    assert!(round.round_ended());
    assert_eq!(round.one_remaining_player(), Some(1));
}

#[test]
fn folds_only_shrink_the_active_set() {
    // Fold monotonicity: folded seats never come back, bets change
    // nothing about the set.
    let mut round = Round::new(4, None).unwrap();
    assert_eq!(round.remaining_players(), vec![0, 1, 2, 3]);

    round.next_play(Play::Fold);
    assert_eq!(round.remaining_players(), vec![1, 2, 3]);

    round.next_play(Play::Bet(5));
    assert_eq!(round.remaining_players(), vec![1, 2, 3]);

    round.next_play(Play::Fold);
    assert_eq!(round.remaining_players(), vec![1, 3]);

    round.next_play(Play::Bet(5));
    round.next_play(Play::Bet(0));
    assert_eq!(round.remaining_players(), vec![1, 3]);
}

#[test]
fn folding_before_the_cursor_does_not_skip_anyone() {
    // Removing the seat under the cursor hands the turn to the next
    // active seat, and the turn wraps off the end of the list.
    let mut round = Round::new(3, None).unwrap();
    assert_eq!(round.next_player_idx(), 0);
    round.next_play(Play::Fold);
    assert_eq!(round.next_player_idx(), 1);
    round.next_play(Play::Bet(0));
    assert_eq!(round.next_player_idx(), 2);
    round.next_play(Play::Bet(0));
    assert_eq!(round.next_player_idx(), 1);
}

#[test]
fn reset_carries_the_pot_into_the_next_street() {
    let mut round = Round::new(2, Some(vec![7, 7])).unwrap();
    round.next_play(Play::Bet(0));
    round.next_play(Play::Bet(0));
    assert!(round.round_ended());
    round.reset_round();
    assert_eq!(round.pot_total(), 14);
    // The fresh street owes nothing to call.
    assert_eq!(round.min_next_bet(), 0);
    assert!(!round.round_ended());
}

#[test]
fn end_hand_splits_the_pot_evenly() {
    let round = Round::new(3, Some(vec![10, 10, 10])).unwrap();
    let mut players: Vec<Player> = vec![
        Player::new("a".to_string(), 0),
        Player::new("b".to_string(), 0),
        Player::new("c".to_string(), 0),
    ];
    let r = end_hand(&round, &mut players, &vec![1]);
    assert_eq!(r, Ok(()));
    assert_eq!(players[0].chips, 0);
    assert_eq!(players[1].chips, 30);
    assert_eq!(players[2].chips, 0);
}

#[test]
fn end_hand_rejects_an_uneven_pot() {
    let round = Round::new(3, Some(vec![15, 15, 15])).unwrap();
    let mut players: Vec<Player> = vec![
        Player::new("a".to_string(), 0),
        Player::new("b".to_string(), 0),
        Player::new("c".to_string(), 0),
    ];
    let r = end_hand(&round, &mut players, &vec![0, 1]);
    assert_eq!(r, Err(HoldemError::InvariantViolation));
}

#[test]
fn end_hand_rejects_no_winners() {
    let round = Round::new(2, None).unwrap();
    let mut players: Vec<Player> =
        vec![Player::new("a".to_string(), 0), Player::new("b".to_string(), 0)];
    let r = end_hand(&round, &mut players, &vec![]);
    assert_eq!(r, Err(HoldemError::InvariantViolation));
}
