use monopoly_sim::simulation::{run_simulation, GameSimulation};
use monopoly_sim::turn::TurnEvent;

#[test]
fn players_are_numbered_from_one() {
    let sim = GameSimulation::new(3);
    let players = sim.get_players();
    assert_eq!(players.len(), 3);
    assert_eq!(players[0].get_player_name(), "Player 1");
    assert_eq!(players[2].get_player_name(), "Player 3");
    assert!(players.iter().all(|p| p.get_current_space() == 0));
    let many = GameSimulation::new(12);
    assert_eq!(many.get_players()[11].get_player_name(), "Player 12");
}

#[test]
fn rerun_resets_positions_and_keeps_names() {
    let mut sim = GameSimulation::new(2);
    let first = sim.run_simulation(3);
    let second = sim.run_simulation(1);
    assert_eq!(
        second.events.iter().filter(|e| matches!(e, TurnEvent::TurnStarted(_))).count(),
        2
    );
    let sum: u64 = second.board.iter().map(|s| s.get_landed_count()).sum();
    assert!(sum >= 2 && sum <= 18);
    assert!(first.events.len() >= 6);
    assert_eq!(sim.get_players()[1].get_player_name(), "Player 2");
}

#[test]
fn counters_sum_to_landing_events() {
    let report = run_simulation(4, 30);
    assert_eq!(report.board.len(), 40);
    let landings = report.events.iter().filter(|e| matches!(e, TurnEvent::Landed(_))).count() as u64;
    let sum: u64 = report.board.iter().map(|s| s.get_landed_count()).sum();
    assert_eq!(sum, landings);
    assert!(landings >= 4 * 30);
    for i in 0..40u8 {
        let here = report.events.iter().filter(|e| **e == TurnEvent::Landed(i)).count() as u64;
        assert_eq!(report.board[i as usize].get_landed_count(), here);
    }
}

#[test]
fn players_take_slots_in_fixed_order() {
    let report = run_simulation(3, 5);
    let order: Vec<usize> = report
        .events
        .iter()
        .filter_map(|e| match e {
            TurnEvent::TurnStarted(p) => Some(*p),
            _ => None,
        })
        .collect();
    assert_eq!(order, vec![0, 1, 2, 0, 1, 2, 0, 1, 2, 0, 1, 2, 0, 1, 2]);
    assert!(matches!(report.events[0], TurnEvent::TurnStarted(0)));
    assert!(matches!(report.events[1], TurnEvent::Rolled { .. }));
}

#[test]
fn one_player_one_turn_lands_at_least_once() {
    let report = run_simulation(1, 1);
    let rolls = report.events.iter().filter(|e| matches!(e, TurnEvent::Rolled { .. })).count();
    assert!((1..=3).contains(&rolls));
    let sum: u64 = report.board.iter().map(|s| s.get_landed_count()).sum();
    assert!(sum >= 1 && sum <= 9);
}

#[test]
fn extra_landings_are_extra_rolls_and_redirects() {
    let report = run_simulation(2, 100);
    let events = &report.events;
    let rolls = events.iter().filter(|e| matches!(e, TurnEvent::Rolled { .. })).count();
    let landings = events.iter().filter(|e| matches!(e, TurnEvent::Landed(_))).count();
    let redirects = (1..events.len())
        .filter(|&i| {
            matches!(events[i], TurnEvent::Landed(_))
                && matches!(events[i - 1], TurnEvent::Landed(_) | TurnEvent::DrewCard(..))
        })
        .count();
    assert_eq!(landings, rolls + redirects);
    assert!(rolls >= 200);
    let sum: u64 = report.board.iter().map(|s| s.get_landed_count()).sum();
    assert_eq!(sum as usize, landings);
    // a doubles roll or a redirect makes the landings outnumber the turn slots
    let doubles = events
        .iter()
        .any(|e| matches!(e, TurnEvent::Rolled { dice1, dice2, .. } if dice1 == dice2));
    if doubles || redirects > 0 {
        assert!(landings > 200);
    }
}
