use monopoly_sim::board::{
    action_at, initialize_game_board, record_landing, space_name, wrap_position, CardDeckEnum,
    SpaceActionEnum,
};
use monopoly_sim::player::Player;

#[test]
fn wrap_past_last_space_subtracts_one_lap() {
    assert_eq!(wrap_position(41), 1);
    assert_eq!(wrap_position(40), 0);
    assert_eq!(wrap_position(51), 11);
}

#[test]
fn wrap_keeps_last_space() {
    assert_eq!(wrap_position(39), 39);
    assert_eq!(wrap_position(0), 0);
}

#[test]
fn board_layout_has_fixed_categories() {
    let board = initialize_game_board();
    assert_eq!(board.len(), 40);
    for i in 0..40u8 {
        let expected = match i {
            2 | 17 | 33 => SpaceActionEnum::DrawCard(CardDeckEnum::CommunityChest),
            7 | 22 | 36 => SpaceActionEnum::DrawCard(CardDeckEnum::Chance),
            30 => SpaceActionEnum::MovePlayer(10),
            _ => SpaceActionEnum::NoAction,
        };
        assert_eq!(action_at(i), expected);
        assert_eq!(board[i as usize].get_landed_count(), 0);
    }
    assert_eq!(board[0].get_space_name(), "Go");
    assert_eq!(board[10].get_space_name(), "Jail");
    assert_eq!(board[30].get_space_name(), "Go To Jail");
    assert_eq!(board[39].get_space_name(), "Boardwalk");
}

#[test]
fn record_landing_counts_and_reports_action() {
    let mut board = initialize_game_board();
    assert_eq!(record_landing(&mut board, 30), SpaceActionEnum::MovePlayer(10));
    assert_eq!(record_landing(&mut board, 7), SpaceActionEnum::DrawCard(CardDeckEnum::Chance));
    assert_eq!(record_landing(&mut board, 7), SpaceActionEnum::DrawCard(CardDeckEnum::Chance));
    assert_eq!(record_landing(&mut board, 5), SpaceActionEnum::NoAction);
    assert_eq!(board[30].get_landed_count(), 1);
    assert_eq!(board[7].get_landed_count(), 2);
    assert_eq!(board[5].get_landed_count(), 1);
    assert_eq!(board[6].get_landed_count(), 0);
}

#[test]
fn player_starts_on_go_and_moves() {
    let mut p = Player::new(String::from("Ada"));
    assert_eq!(p.get_current_space(), 0);
    assert_eq!(p.get_player_name(), "Ada");
    p.set_current_space(39);
    assert_eq!(p.get_current_space(), 39);
    assert_eq!(p.get_player_name(), "Ada");
}

#[test]
fn space_names_follow_the_board() {
    let board = initialize_game_board();
    for i in 0..40u8 {
        assert_eq!(board[i as usize].get_space_name(), space_name(i));
    }
    assert_eq!(space_name(2), "Community Chest");
    assert_eq!(space_name(7), "Chance");
    assert_eq!(space_name(25), "B & O Railroad");
    assert_eq!(space_name(37), "Park Place");
}
