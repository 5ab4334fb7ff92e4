use monopoly_sim::board::{initialize_game_board, BoardSpace, CardDeckEnum};
use monopoly_sim::cards::{CardDecks, CardEffect};
use monopoly_sim::player::Player;
use monopoly_sim::turn::{resolve_roll, roll_outcome, take_player_turn, TurnEvent};

fn count(board: &[BoardSpace], i: usize) -> u64 {
    board[i].get_landed_count()
}

fn total(board: &[BoardSpace]) -> u64 {
    board.iter().map(|s| s.get_landed_count()).sum()
}

fn player_at(space: u8) -> Player {
    let mut p = Player::new(String::from("Player 1"));
    p.set_current_space(space);
    p
}

#[test]
fn roll_outcome_wraps_and_flags_doubles() {
    let o = roll_outcome(35, 3, 3, 0);
    assert_eq!(o.landing, 1);
    assert!(o.roll_again);
    assert_eq!(o.doubles_count, 1);
    assert!(!o.jailed);
    let o = roll_outcome(33, 3, 3, 0);
    assert_eq!(o.landing, 39);
    let o = roll_outcome(0, 3, 4, 0);
    assert_eq!(o.landing, 7);
    assert!(!o.roll_again);
    assert_eq!(o.doubles_count, 0);
}

#[test]
fn third_doubles_overrides_landing_with_jail() {
    let o = roll_outcome(32, 2, 2, 2);
    assert!(o.jailed);
    assert!(!o.roll_again);
    assert_eq!(o.landing, 10);
    assert_eq!(o.doubles_count, 3);
    let o = roll_outcome(32, 2, 2, 1);
    assert!(!o.jailed);
    assert!(o.roll_again);
    assert_eq!(o.landing, 36);
}

#[test]
fn advance_to_boardwalk_from_chance_seven() {
    let mut rng = rand::thread_rng();
    let mut board = initialize_game_board();
    let mut decks = CardDecks::new();
    decks.get_chance_deck().refill(&vec![0; 16]);
    let mut player = player_at(0);
    let mut log = Vec::new();
    let o = resolve_roll(&mut player, &mut rng, &mut board, &mut decks, 3, 4, 0, &mut log);
    assert!(!o.roll_again);
    assert_eq!(player.get_current_space(), 39);
    assert_eq!(count(&board, 7), 1);
    assert_eq!(count(&board, 39), 1);
    assert_eq!(total(&board), 2);
    assert_eq!(log.len(), 4);
    assert_eq!(log[0], TurnEvent::Rolled { dice1: 3, dice2: 4, doubles: 0 });
    assert_eq!(log[1], TurnEvent::Landed(7));
    match log[2] {
        TurnEvent::DrewCard(CardDeckEnum::Chance, card) => {
            assert_eq!(card.get_card_text(), "Advance to Boardwalk")
        },
        other => panic!("expected a chance draw, got {:?}", other),
    }
    assert_eq!(log[3], TurnEvent::Landed(39));
}

#[test]
fn doubles_from_thirty_five_land_on_park_place_and_roll_again() {
    let mut rng = rand::thread_rng();
    let mut board = initialize_game_board();
    let mut decks = CardDecks::new();
    let mut player = player_at(35);
    let mut log = Vec::new();
    let o = resolve_roll(&mut player, &mut rng, &mut board, &mut decks, 1, 1, 0, &mut log);
    assert_eq!(o.landing, 37);
    assert!(o.roll_again);
    assert_eq!(o.doubles_count, 1);
    assert_eq!(player.get_current_space(), 37);
    assert_eq!(log, vec![TurnEvent::Rolled { dice1: 1, dice2: 1, doubles: 1 }, TurnEvent::Landed(37)]);
    assert_eq!(count(&board, 37), 1);
    assert_eq!(decks.get_chance_deck().discard_pile_len(), 16);
}

#[test]
fn two_doubles_then_plain_roll_make_three_rolls() {
    let mut rng = rand::thread_rng();
    let mut board = initialize_game_board();
    let mut decks = CardDecks::new();
    let mut player = player_at(0);
    let mut log = Vec::new();
    let o1 = resolve_roll(&mut player, &mut rng, &mut board, &mut decks, 2, 2, 0, &mut log);
    assert!(o1.roll_again);
    assert_eq!(o1.doubles_count, 1);
    let o2 = resolve_roll(&mut player, &mut rng, &mut board, &mut decks, 3, 3, o1.doubles_count, &mut log);
    assert!(o2.roll_again);
    assert_eq!(o2.doubles_count, 2);
    let o3 = resolve_roll(&mut player, &mut rng, &mut board, &mut decks, 1, 2, o2.doubles_count, &mut log);
    assert!(!o3.roll_again);
    assert_eq!(o3.doubles_count, 0);
    let rolls = log.iter().filter(|e| matches!(e, TurnEvent::Rolled { .. })).count();
    assert_eq!(rolls, 3);
    assert_eq!(player.get_current_space(), 13);
}

#[test]
fn third_doubles_sends_to_jail_without_drawing() {
    let mut rng = rand::thread_rng();
    let mut board = initialize_game_board();
    let mut decks = CardDecks::new();
    let mut player = player_at(32);
    let mut log = Vec::new();
    let o = resolve_roll(&mut player, &mut rng, &mut board, &mut decks, 2, 2, 2, &mut log);
    assert!(o.jailed);
    assert!(!o.roll_again);
    assert_eq!(player.get_current_space(), 10);
    assert_eq!(log, vec![TurnEvent::Rolled { dice1: 2, dice2: 2, doubles: 3 }, TurnEvent::Landed(10)]);
    assert_eq!(count(&board, 36), 0);
    assert_eq!(count(&board, 10), 1);
    assert_eq!(decks.get_chance_deck().draw_pile_len(), 0);
    assert_eq!(decks.get_chance_deck().discard_pile_len(), 16);
}

#[test]
fn go_to_jail_space_redirects_to_jail() {
    let mut rng = rand::thread_rng();
    let mut board = initialize_game_board();
    let mut decks = CardDecks::new();
    let mut player = player_at(25);
    let mut log = Vec::new();
    resolve_roll(&mut player, &mut rng, &mut board, &mut decks, 2, 3, 0, &mut log);
    assert_eq!(player.get_current_space(), 10);
    assert_eq!(
        log,
        vec![
            TurnEvent::Rolled { dice1: 2, dice2: 3, doubles: 0 },
            TurnEvent::Landed(30),
            TurnEvent::Landed(10)
        ]
    );
    assert_eq!(count(&board, 30), 1);
    assert_eq!(count(&board, 10), 1);
}

#[test]
fn go_back_three_onto_community_chest_draws_again() {
    let mut rng = rand::thread_rng();
    let mut board = initialize_game_board();
    let mut decks = CardDecks::new();
    // the tenth chance card goes back three spaces; the first chest card goes to Go
    let mut picks = vec![0; 16];
    picks[0] = 9;
    decks.get_chance_deck().refill(&picks);
    decks.get_community_chest_deck().refill(&vec![0; 16]);
    let mut player = player_at(30);
    let mut log = Vec::new();
    resolve_roll(&mut player, &mut rng, &mut board, &mut decks, 2, 4, 0, &mut log);
    assert_eq!(player.get_current_space(), 0);
    assert_eq!(log.len(), 6);
    assert_eq!(log[1], TurnEvent::Landed(36));
    match log[2] {
        TurnEvent::DrewCard(CardDeckEnum::Chance, card) => {
            assert_eq!(card.get_move_action(), CardEffect::MoveBack(3))
        },
        other => panic!("expected a chance draw, got {:?}", other),
    }
    assert_eq!(log[3], TurnEvent::Landed(33));
    match log[4] {
        TurnEvent::DrewCard(CardDeckEnum::CommunityChest, card) => {
            assert_eq!(card.get_card_text(), "Advance to GO")
        },
        other => panic!("expected a community chest draw, got {:?}", other),
    }
    assert_eq!(log[5], TurnEvent::Landed(0));
    assert_eq!(count(&board, 36), 1);
    assert_eq!(count(&board, 33), 1);
    assert_eq!(count(&board, 0), 1);
}

#[test]
fn card_that_stays_ends_the_chain() {
    let mut rng = rand::thread_rng();
    let mut board = initialize_game_board();
    let mut decks = CardDecks::new();
    // the eighth chance card pays a dividend and moves nobody
    let mut picks = vec![0; 16];
    picks[0] = 7;
    decks.get_chance_deck().refill(&picks);
    let mut player = player_at(20);
    let mut log = Vec::new();
    resolve_roll(&mut player, &mut rng, &mut board, &mut decks, 1, 1, 0, &mut log);
    assert_eq!(player.get_current_space(), 22);
    assert_eq!(log.len(), 3);
    match log[2] {
        TurnEvent::DrewCard(CardDeckEnum::Chance, card) => {
            assert_eq!(card.get_card_text(), "Bank pays you dividend of $50")
        },
        other => panic!("expected a chance draw, got {:?}", other),
    }
    assert_eq!(total(&board), 1);
}

#[test]
fn whole_turn_rolls_fair_dice_and_counts_every_landing() {
    let mut rng = rand::thread_rng();
    let mut board = initialize_game_board();
    let mut decks = CardDecks::new();
    let mut player = player_at(0);
    let mut log = Vec::new();
    for _ in 0..200 {
        take_player_turn(&mut player, &mut rng, &mut board, &mut decks, 0, &mut log);
        assert!(player.get_current_space() < 40);
    }
    let mut landings = 0u64;
    let mut rolls = 0;
    for e in &log {
        match e {
            TurnEvent::Rolled { dice1, dice2, .. } => {
                assert!((1..=6).contains(dice1) && (1..=6).contains(dice2));
                rolls += 1;
            },
            TurnEvent::Landed(_) => landings += 1,
            _ => {},
        }
    }
    assert!(rolls >= 200);
    assert!(landings >= rolls as u64);
    assert_eq!(total(&board), landings);
}
