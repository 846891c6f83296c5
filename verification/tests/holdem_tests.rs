use pokersim::card_enums::Card;
use pokersim::dealer::Dealer;
use pokersim::errors::HoldemError;
use pokersim::games::compare_and_end_hand;
use pokersim::games::holdem_nl;
use pokersim::games::select_winners;
use pokersim::games::Round;
use pokersim::player::HoldemPlayer;
use pokersim::player::Player;

fn named(suit: &str, value: &str) -> u8 {
    Card::card_from_name(suit, value).to_int()
}

#[test]
fn blinds_out_of_order_are_rejected() {
    let mut dealer = Dealer::new();
    let mut players: Vec<Player> = vec![
        Player::new("a".to_string(), 1000),
        Player::new("b".to_string(), 1000),
        Player::new("c".to_string(), 1000),
    ];
    let r = holdem_nl(&mut dealer, &mut players, [300, 200], 0);
    assert_eq!(r, Err(HoldemError::ConfigurationError));
}

#[test]
fn too_few_players_are_rejected() {
    let mut dealer = Dealer::new();
    let mut players: Vec<Player> =
        vec![Player::new("a".to_string(), 1000), Player::new("b".to_string(), 1000)];
    let r = holdem_nl(&mut dealer, &mut players, [100, 200], 0);
    assert_eq!(r, Err(HoldemError::ConfigurationError));
}

#[test]
fn fold_out_gives_the_pot_to_the_survivor() {
    // Two seats cannot afford the big blind's call and fold in turn; the
    // survivor takes the whole pot without any board being dealt.
    let mut dealer = Dealer::new();
    let mut players: Vec<Player> = vec![
        Player::new("a".to_string(), 0),
        Player::new("b".to_string(), 0),
        Player::new("c".to_string(), 1000),
    ];
    let r = holdem_nl(&mut dealer, &mut players, [0, 200], 0);
    assert_eq!(r, Ok(()));
    assert_eq!(players[0].chips, 0);
    assert_eq!(players[1].chips, 0);
    assert_eq!(players[2].chips, 1000);
    assert!(players[0].hand.is_none());
    assert!(players[1].hand.is_none());
    assert!(players[2].hand.is_none());
    assert_eq!(players[2].pot_contribution(), 0);
}

#[test]
fn full_hand_settles_at_showdown() {
    // Three seats call every street, the river leaves a five-card board,
    // and the showdown settles. Each seat paid 210 in, so the 630-chip
    // pot divides evenly whether one, two or three hands tie, and no
    // chips are created or lost.
    let mut dealer = Dealer::new();
    let mut players: Vec<Player> = vec![
        Player::new("a".to_string(), 10_000),
        Player::new("b".to_string(), 10_000),
        Player::new("c".to_string(), 10_000),
    ];
    let r = holdem_nl(&mut dealer, &mut players, [100, 200], 10);
    assert_eq!(r, Ok(()));
    let mut total: u32 = 0;
    for p in &players {
        total += p.chips;
        assert!(p.hand.is_none());
        assert!(p.position.is_none());
        assert_eq!(p.pot_contribution(), 0);
    }
    assert_eq!(total, 30_000);
}

#[test]
fn select_winners_takes_every_best_hand() {
    let board: [u8; 5] = [
        named("spade", "two"),
        named("spade", "three"),
        named("heart", "four"),
        named("spade", "king"),
        named("club", "king"),
    ];
    // Seats 1 and 4 hold the same straight; seat 7 only three kings.
    let hands: Vec<[u8; 2]> = vec![
        [named("club", "five"), named("heart", "six")],
        [named("diamond", "five"), named("club", "six")],
        [named("diamond", "king"), named("heart", "ten")],
    ];
    let seats: Vec<usize> = vec![1, 4, 7];
    assert_eq!(select_winners(&hands, &seats, &board), Ok(vec![1, 4]));

    // A revealed card outside 1..=52 refuses the selection.
    let bad: Vec<[u8; 2]> = vec![[named("club", "five"), named("heart", "six")], [0, 53], [
        named("diamond", "king"),
        named("heart", "ten"),
    ]];
    assert_eq!(
        select_winners(&bad, &seats, &board),
        Err(HoldemError::InvariantViolation)
    );
}

#[test]
fn showdown_pays_the_best_hand() {
    let round = Round::new(3, Some(vec![10, 10, 10])).unwrap();
    let mut players: Vec<Player> = vec![
        Player::new("a".to_string(), 0),
        Player::new("b".to_string(), 0),
        Player::new("c".to_string(), 0),
    ];
    // Seat 0 holds a flush, seat 1 a straight, seat 2 a pair of tens.
    players[0].recieve_cards([named("spade", "five"), named("spade", "seven")]);
    players[1].recieve_cards([named("club", "five"), named("heart", "six")]);
    players[2].recieve_cards([named("diamond", "ten"), named("heart", "ten")]);
    let board: Vec<u8> = vec![
        named("spade", "two"),
        named("spade", "three"),
        named("heart", "four"),
        named("spade", "king"),
        named("club", "king"),
    ];
    let r = compare_and_end_hand(&round, &mut players, &board);
    assert_eq!(r, Ok(vec![0]));
    assert_eq!(players[0].chips, 30);
    assert_eq!(players[1].chips, 0);
    assert_eq!(players[2].chips, 0);
}

#[test]
fn showdown_splits_a_tie_evenly() {
    // The board itself is a royal flush: every seat ties and the pot is
    // split three ways.
    let round = Round::new(3, Some(vec![10, 10, 10])).unwrap();
    let mut players: Vec<Player> = vec![
        Player::new("a".to_string(), 0),
        Player::new("b".to_string(), 0),
        Player::new("c".to_string(), 0),
    ];
    players[0].recieve_cards([named("spade", "two"), named("heart", "two")]);
    players[1].recieve_cards([named("spade", "three"), named("heart", "three")]);
    players[2].recieve_cards([named("spade", "four"), named("heart", "four")]);
    let board: Vec<u8> = vec![
        named("club", "ace"),
        named("club", "king"),
        named("club", "queen"),
        named("club", "jack"),
        named("club", "ten"),
    ];
    let r = compare_and_end_hand(&round, &mut players, &board);
    assert_eq!(r, Ok(vec![0, 1, 2]));
    assert_eq!(players[0].chips, 10);
    assert_eq!(players[1].chips, 10);
    assert_eq!(players[2].chips, 10);
}

#[test]
fn showdown_needs_a_full_board() {
    let round = Round::new(2, Some(vec![10, 10])).unwrap();
    let mut players: Vec<Player> =
        vec![Player::new("a".to_string(), 0), Player::new("b".to_string(), 0)];
    players[0].recieve_cards([1, 2]);
    players[1].recieve_cards([3, 4]);
    let board: Vec<u8> = vec![5, 6, 7, 8];
    let r = compare_and_end_hand(&round, &mut players, &board);
    assert_eq!(r, Err(HoldemError::InvariantViolation));
}

#[test]
fn showdown_with_an_uneven_tie_is_fatal() {
    // Two seats tie on a twenty-five chip pot: the split is uneven and
    // the settlement refuses.
    let round = Round::new(2, Some(vec![12, 13])).unwrap();
    let mut players: Vec<Player> =
        vec![Player::new("a".to_string(), 0), Player::new("b".to_string(), 0)];
    players[0].recieve_cards([named("spade", "two"), named("heart", "two")]);
    players[1].recieve_cards([named("spade", "three"), named("heart", "three")]);
    let board: Vec<u8> = vec![
        named("club", "ace"),
        named("club", "king"),
        named("club", "queen"),
        named("club", "jack"),
        named("club", "ten"),
    ];
    let r = compare_and_end_hand(&round, &mut players, &board);
    assert_eq!(r, Err(HoldemError::InvariantViolation));
}
