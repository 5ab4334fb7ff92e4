use monopoly_sim::cards::{init_chance, init_community_chest, CardDecks, CardEffect, GameActionCard};
use std::collections::HashMap;

fn texts(cards: &[GameActionCard]) -> HashMap<String, usize> {
    let mut m = HashMap::new();
    for c in cards {
        *m.entry(c.get_card_text().to_string()).or_insert(0) += 1;
    }
    m
}

#[test]
fn railroad_and_utility_targets_depend_on_chance_space() {
    assert_eq!(CardEffect::NearestRailroad.target(7), Some(15));
    assert_eq!(CardEffect::NearestRailroad.target(22), Some(25));
    assert_eq!(CardEffect::NearestRailroad.target(36), Some(5));
    assert_eq!(CardEffect::NearestRailroad.target(8), None);
    assert_eq!(CardEffect::NearestUtility.target(7), Some(12));
    assert_eq!(CardEffect::NearestUtility.target(22), Some(28));
    assert_eq!(CardEffect::NearestUtility.target(36), Some(12));
    assert_eq!(CardEffect::NearestUtility.target(2), None);
}

#[test]
fn move_back_is_relative_and_wraps() {
    assert_eq!(CardEffect::MoveBack(3).target(7), Some(4));
    assert_eq!(CardEffect::MoveBack(3).target(22), Some(19));
    assert_eq!(CardEffect::MoveBack(3).target(36), Some(33));
    assert_eq!(CardEffect::MoveBack(3).target(1), Some(38));
    assert_eq!(CardEffect::MoveTo(39).target(7), Some(39));
    assert_eq!(CardEffect::Stay.target(7), None);
}

#[test]
fn fresh_decks_hold_sixteen_cards_in_discard() {
    let chance = init_chance();
    let chest = init_community_chest();
    assert_eq!(chance.draw_pile_len(), 0);
    assert_eq!(chance.discard_pile_len(), 16);
    assert_eq!(chest.draw_pile_len(), 0);
    assert_eq!(chest.discard_pile_len(), 16);
}

#[test]
fn deck_sizes_sum_to_sixteen_across_draws() {
    let mut rng = rand::thread_rng();
    let mut decks = CardDecks::new();
    for _ in 0..50 {
        let deck = decks.get_chance_deck();
        assert!(deck.draw_card(&mut rng).is_some());
        assert_eq!(deck.draw_pile_len() + deck.discard_pile_len(), 16);
        let deck = decks.get_community_chest_deck();
        assert!(deck.draw_card(&mut rng).is_some());
        assert_eq!(deck.draw_pile_len() + deck.discard_pile_len(), 16);
    }
}

#[test]
fn first_draw_shuffles_whole_deck_into_draw_pile() {
    let mut rng = rand::thread_rng();
    let mut deck = init_chance();
    deck.draw_card(&mut rng).unwrap();
    assert_eq!(deck.draw_pile_len(), 15);
    assert_eq!(deck.discard_pile_len(), 1);
}

#[test]
fn each_batch_of_sixteen_draws_hands_out_every_card_once() {
    let mut rng = rand::thread_rng();
    let mut deck = init_chance();
    let mut all = Vec::new();
    for _ in 0..16 {
        all.push(*deck.draw_card(&mut rng).unwrap());
    }
    assert_eq!(deck.draw_pile_len(), 0);
    for _batch in 0..3 {
        let mut drawn = Vec::new();
        for _ in 0..16 {
            drawn.push(*deck.draw_card(&mut rng).unwrap());
        }
        assert_eq!(texts(&drawn), texts(&all));
        assert_eq!(deck.draw_pile_len(), 0);
    }
    let counts = texts(&all);
    assert_eq!(counts.len(), 15);
    assert_eq!(
        counts["Advance to the nearest Railroad. If unowned, you may buy it from the Bank. If owned, pay owner twice the rental to which they are otherwise entitled"],
        2
    );
}

#[test]
fn refill_with_zero_picks_puts_first_card_on_top() {
    let mut rng = rand::thread_rng();
    let mut deck = init_chance();
    deck.refill(&vec![0; 16]);
    assert_eq!(deck.draw_pile_len(), 16);
    assert_eq!(deck.discard_pile_len(), 0);
    let card = *deck.draw_card(&mut rng).unwrap();
    assert_eq!(card.get_card_text(), "Advance to Boardwalk");
    assert_eq!(card.get_move_action(), CardEffect::MoveTo(39));
    assert_eq!(card.resolve(7), Some(39));
    // swap-remove: the last card took the first card's place
    let next = *deck.draw_card(&mut rng).unwrap();
    assert_eq!(next.get_card_text(), "Your building loan matures. Collect $150");
    assert_eq!(next.resolve(7), None);
}

#[test]
fn community_chest_cards_move_only_to_go_or_jail() {
    let mut rng = rand::thread_rng();
    let mut deck = init_community_chest();
    let mut moves = Vec::new();
    for _ in 0..16 {
        let card = *deck.draw_card(&mut rng).unwrap();
        if let Some(t) = card.resolve(17) {
            moves.push(t);
        }
    }
    moves.sort();
    assert_eq!(moves, vec![0, 10]);
}

#[test]
fn community_chest_texts_in_build_order() {
    let mut rng = rand::thread_rng();
    let mut deck = init_community_chest();
    deck.refill(&vec![0; 16]);
    assert_eq!(deck.draw_card(&mut rng).unwrap().get_card_text(), "Advance to GO");
    assert_eq!(deck.draw_card(&mut rng).unwrap().get_card_text(), "You inherit $100");
    let mut all = Vec::new();
    for _ in 0..14 {
        all.push(deck.draw_card(&mut rng).unwrap().get_card_text().to_string());
    }
    assert!(all.iter().any(|t| t == "Doctor’s fee. Pay $50"));
}
