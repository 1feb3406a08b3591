use blackjack_q::card::Card;
use blackjack_q::card::PackOfCards;
use blackjack_q::game::Action;
use blackjack_q::game::GameError;
use blackjack_q::game::GameState;
use blackjack_q::game::deal_opening;
use blackjack_q::game::run_croupier;
use blackjack_q::training::QTable;
use blackjack_q::training::State;
use blackjack_q::training::epsilon_permille;

fn pack_of(ranks: &[u8]) -> PackOfCards {
    let mut pack = PackOfCards::new();
    for &r in ranks {
        pack.add_card(Card::Coeur(r));
    }
    pack
}

fn state_with(player: &[u8], croupier: &[u8], packet: &[u8]) -> GameState {
    GameState {
        continue_game: true,
        player_cards: pack_of(player),
        croupier_cards: pack_of(croupier),
        packet: pack_of(packet),
        discard: PackOfCards::new(),
        insurance: false,
        double: false,
    }
}

#[test]
fn card_equality_needs_suit_and_rank() {
    assert_eq!(Card::Coeur(5), Card::Coeur(5));
    assert_ne!(Card::Coeur(5), Card::Pique(5));
    assert_ne!(Card::Coeur(5), Card::Coeur(6));
    assert_eq!(*Card::Trefle(9).unwrap(), 9);
}

#[test]
fn get_card_reads_by_index() {
    let pack = pack_of(&[4, 8]);
    assert_eq!(pack.get_card(0), Some(&Card::Coeur(4)));
    assert_eq!(pack.get_card(1), Some(&Card::Coeur(8)));
    assert_eq!(pack.get_card(2), None);
}

#[test]
fn a_copied_round_matches_the_source() {
    let gs = state_with(&[5, 9], &[10, 2], &[3, 3]);
    let copy = GameState::from(&gs);
    assert_eq!(copy.player_cards.iterator(), gs.player_cards.iterator());
    assert_eq!(copy.croupier_cards.iterator(), gs.croupier_cards.iterator());
    assert_eq!(copy.packet.iterator(), gs.packet.iterator());
    assert_eq!(copy.continue_game, gs.continue_game);
    assert_eq!(copy.insurance, gs.get_insurance());
    assert_eq!(copy.double, gs.double);
}

#[test]
fn shoe_has_144_cards_with_fixed_rank_counts() {
    let shoe = PackOfCards::init();
    assert_eq!(shoe.iterator().len(), 144);
    let mut counts = [0usize; 11];
    for card in shoe.iterator() {
        counts[*card.unwrap() as usize] += 1;
    }
    assert_eq!(counts[0], 0);
    for r in 1..=9 {
        assert_eq!(counts[r], 12);
    }
    assert_eq!(counts[10], 36);
}

#[test]
fn shuffle_keeps_the_multiset() {
    let mut pack = pack_of(&[1, 2, 3, 4, 5, 6, 7, 8, 9, 10]);
    pack.shuffle();
    let mut ranks: Vec<u8> = pack.iterator().iter().map(|c| *c.unwrap()).collect();
    ranks.sort();
    assert_eq!(ranks, vec![1, 2, 3, 4, 5, 6, 7, 8, 9, 10]);
}

#[test]
fn total_counts_aces_in_hand_order() {
    assert_eq!(pack_of(&[1, 1]).sum(), 12);
    assert_eq!(pack_of(&[1, 9]).sum(), 20);
    assert_eq!(pack_of(&[9, 1]).sum(), 20);
    assert_eq!(pack_of(&[1]).sum(), 11);
    assert_eq!(pack_of(&[10, 10, 1]).sum(), 21);
}

#[test]
fn pick_draws_from_the_top_and_reports_an_empty_shoe() {
    let mut pack = pack_of(&[3, 7]);
    assert_eq!(*pack.pick().unwrap().unwrap(), 7);
    assert_eq!(*pack.pick().unwrap().unwrap(), 3);
    assert_eq!(pack.pick(), Err(GameError::EmptyShoe));
}

#[test]
fn results_push_pays_nothing() {
    let mut gs = state_with(&[9, 9], &[10, 8], &[]);
    gs.continue_game = false;
    assert_eq!(gs.results(), 0);
}

#[test]
fn results_natural_21_beats_a_dealer_21() {
    let mut gs = state_with(&[10, 1], &[10, 1], &[]);
    gs.continue_game = false;
    // 3 half-bet units: 1.5 times the bet, although the dealer also has 21.
    assert_eq!(gs.results(), 3);
}

#[test]
fn results_follow_the_ordered_rule_list() {
    // Player bust (25), not doubled: lose the bet (2 half-bet units).
    let mut gs = state_with(&[10, 10, 5], &[10, 7], &[]);
    gs.continue_game = false;
    assert_eq!(gs.results(), -2);
    // Player bust while doubled: lose two bets.
    gs.double = true;
    assert_eq!(gs.results(), -4);
    // Dealer bust (26), player 18, not doubled: win the bet.
    let mut gs = state_with(&[9, 9], &[10, 10, 6], &[]);
    gs.continue_game = false;
    assert_eq!(gs.results(), 2);
    // Dealer bust while doubled: win two bets.
    gs.double = true;
    assert_eq!(gs.results(), 4);
}

#[test]
fn results_insurance_side_bet_is_added() {
    let mut gs = state_with(&[9, 9], &[10, 1], &[]);
    gs.insurance = true;
    gs.continue_game = false;
    // Dealer total 21 under the greedy rule (10 then ace as 11): insurance
    // pays half a bet; dealer 21 > player 18 loses the bet: net -1 unit.
    assert_eq!(gs.results(), 1 - 2);
}

#[test]
fn insurance_needs_a_face_up_ace_and_happens_once() {
    let gs = state_with(&[5, 5], &[10, 1], &[2, 2]);
    assert_eq!(
        gs.play(Action::Insurance).map(|_| ()),
        Err(GameError::InsuranceNotAvailable)
    );

    let gs = state_with(&[5, 5], &[1, 10], &[2, 2]);
    let taken = gs.play(Action::Insurance).unwrap();
    assert!(taken.insurance);
    assert!(taken.continue_game);
    assert_eq!(
        taken.play(Action::Insurance).map(|_| ()),
        Err(GameError::InsuranceNotAvailable)
    );
}

#[test]
fn draw_moves_the_top_card_and_detects_21() {
    let gs = state_with(&[10, 5], &[9, 9], &[3, 6]);
    let next = gs.play(Action::Draw).unwrap();
    assert_eq!(next.player_cards.sum(), 21);
    assert!(!next.continue_game);
    assert_eq!(next.packet.iterator().len(), 1);
    assert_eq!(next.discard.iterator().len(), 1);

    let gs = state_with(&[10, 5], &[9, 9], &[3, 2]);
    let next = gs.play(Action::Draw).unwrap();
    assert_eq!(next.player_cards.sum(), 17);
    assert!(next.continue_game);
}

#[test]
fn draw_on_an_empty_shoe_is_reported() {
    let gs = state_with(&[10, 5], &[9, 9], &[]);
    assert_eq!(gs.play(Action::Draw).map(|_| ()), Err(GameError::EmptyShoe));
}

#[test]
fn double_draws_once_and_ends_the_round() {
    let gs = state_with(&[5, 5], &[9, 9], &[3, 6]);
    let next = gs.play(Action::Double).unwrap();
    assert!(next.double);
    assert!(!next.continue_game);
    assert_eq!(next.player_cards.sum(), 16);
}

#[test]
fn stand_ends_the_round_without_drawing() {
    let gs = state_with(&[9, 9], &[10, 9], &[4, 4]);
    let next = gs.play(Action::Stand).unwrap();
    assert!(!next.continue_game);
    assert!(!next.double);
    assert_eq!(next.packet.iterator().len(), 2);
}

#[test]
fn a_short_shoe_deals_what_it_has_then_reports() {
    // Three cards: both player cards and one dealer card move, in draw
    // order (top of the shoe first), before the failure is reported.
    let mut gs = state_with(&[], &[], &[4, 7, 9]);
    assert_eq!(deal_opening(&mut gs), Err(GameError::EmptyShoe));
    assert_eq!(gs.packet.iterator().len(), 0);
    assert_eq!(gs.player_cards.iterator(), &vec![Card::Coeur(9), Card::Coeur(7)]);
    assert_eq!(gs.croupier_cards.iterator(), &vec![Card::Coeur(4)]);
    assert_eq!(gs.discard.iterator().len(), 3);
    assert!(gs.continue_game);
}

#[test]
fn a_full_deal_leaves_the_round_active_below_21() {
    let mut gs = state_with(&[], &[], &[2, 2, 10, 10]);
    assert_eq!(deal_opening(&mut gs), Ok(()));
    // Player drew the two top cards (both tens): an opening 21 would end
    // the round; 20 keeps it active.
    assert_eq!(gs.player_cards.sum(), 20);
    assert_eq!(gs.croupier_cards.sum(), 4);
    assert!(gs.continue_game);

    let mut gs = state_with(&[], &[], &[2, 2, 1, 10]);
    assert_eq!(deal_opening(&mut gs), Ok(()));
    // Ten then ace: the opening total reaches 21 and the round ends.
    assert_eq!(gs.player_cards.sum(), 21);
    assert!(!gs.continue_game);
}

#[test]
fn croupier_draws_until_seventeen() {
    let mut gs = state_with(&[9, 9], &[10], &[2, 5]);
    run_croupier(&mut gs).unwrap();
    // Draws 5 (top of the shoe) to reach 15, then 2 to reach 17.
    assert_eq!(gs.croupier_cards.sum(), 17);
    assert_eq!(gs.packet.iterator().len(), 0);

    let mut gs = state_with(&[9, 9], &[10, 9], &[2, 5]);
    run_croupier(&mut gs).unwrap();
    assert_eq!(gs.croupier_cards.sum(), 19);
    assert_eq!(gs.packet.iterator().len(), 2);
}

#[test]
fn croupier_reports_an_empty_shoe() {
    let mut gs = state_with(&[9, 9], &[5], &[]);
    assert_eq!(run_croupier(&mut gs), Err(GameError::EmptyShoe));
}

#[test]
fn stand_then_dealer_comparison_follows_the_rules() {
    // Player stands on 18, dealer holds 19: rule "dealer above player,
    // not doubled" loses one bet (2 half-bet units).
    let gs = state_with(&[9, 9], &[10, 9], &[4, 4]);
    let stood = gs.play(Action::Stand).unwrap();
    assert!(!stood.continue_game);
    assert!(!stood.double);
    let mut ended = stood;
    run_croupier(&mut ended).unwrap();
    assert!(ended.croupier_cards.sum() >= 17);
    assert_eq!(ended.results(), -2);

    // Dealer below player after drawing to 17: win one bet.
    let gs = state_with(&[9, 9], &[10], &[7]);
    let stood = gs.play(Action::Stand).unwrap();
    let mut ended = stood;
    run_croupier(&mut ended).unwrap();
    assert_eq!(ended.croupier_cards.sum(), 17);
    assert_eq!(ended.results(), 2);
}

#[test]
fn lazy_registration_sizes_the_vector_by_insurance_legality() {
    let mut table = QTable::new();
    assert_eq!(table.len(), 0);

    // Dealer shows an ace, two player cards, no insurance: 4 slots.
    let gs = state_with(&[5, 5], &[1, 9], &[2, 2]);
    let with_insurance = State::from(&gs);
    table.add_state(with_insurance.clone());
    assert_eq!(table.len(), 1);

    // Dealer shows a 9: 3 slots.
    let gs = state_with(&[5, 5], &[9, 1], &[2, 2]);
    let without = State::from(&gs);
    table.add_state(without.clone());
    assert_eq!(table.len(), 2);

    // Registration is idempotent.
    table.add_state(without.clone());
    assert_eq!(table.len(), 2);

    for (state, values) in table.snapshot() {
        let expected = if state == with_insurance { 4 } else { 3 };
        assert_eq!(values.len(), expected);
        assert!(values.iter().all(|&v| v == 0));
    }
}

#[test]
fn selection_registers_and_exploits_the_best_slot() {
    let mut table = QTable::new();
    let gs = state_with(&[5, 9], &[9, 1], &[2, 2]);
    let state = State::from(&gs);

    // A fresh key is all zeros: the first slot (Draw) wins the tie.
    let action = table.get_best_action(&state, 0);
    assert_eq!(table.len(), 1);
    assert_eq!(action, Action::Draw);

    // Push the Stand slot up; greedy selection must follow it.
    table.update(&state, &state, &Action::Stand, &None, 1000);
    let action = table.get_best_action(&state, 0);
    assert_eq!(action, Action::Stand);
}

#[test]
fn update_with_zero_reward_is_a_no_op() {
    let mut table = QTable::new();
    let gs = state_with(&[5, 9], &[9, 1], &[2, 2]);
    let state = State::from(&gs);
    table.add_state(state.clone());
    let before = table.snapshot();
    table.update(&state, &state, &Action::Draw, &None, 0);
    let after = table.snapshot();
    assert_eq!(before.len(), after.len());
    for (state, values) in before {
        let found = after.iter().find(|(s, _)| *s == state).unwrap();
        assert_eq!(found.1, values);
    }
}

#[test]
fn update_moves_one_slot_a_tenth_toward_the_target() {
    let mut table = QTable::new();
    let gs = state_with(&[5, 9], &[9, 1], &[2, 2]);
    let state = State::from(&gs);
    table.add_state(state.clone());

    // Terminal successor: the target is the reward alone.
    table.update(&state, &state, &Action::Double, &None, 1000);
    let values = entry_of(&table, &state);
    assert_eq!(values, vec![0, 0, 100]);

    // Non-terminal successor: the target adds half the best value of the
    // successor state (here the same key, whose best slot is now 100).
    table.update(&state, &state, &Action::Draw, &Some(Action::Stand), 1000);
    let values = entry_of(&table, &state);
    assert_eq!(values, vec![105, 0, 100]);
}

fn entry_of(table: &QTable, state: &State) -> Vec<i64> {
    table
        .snapshot()
        .into_iter()
        .find(|(s, _)| s == state)
        .unwrap()
        .1
}

#[test]
fn projection_sorts_the_player_ranks() {
    let gs1 = state_with(&[9, 5, 10], &[3, 1], &[2, 2]);
    let gs2 = state_with(&[10, 9, 5], &[3, 1], &[2, 2]);
    assert_eq!(State::from(&gs1), State::from(&gs2));
    let gs3 = state_with(&[9, 5, 10], &[1, 3], &[2, 2]);
    assert_ne!(State::from(&gs1), State::from(&gs3));
}

#[test]
fn epsilon_decays_then_sits_at_the_floor() {
    assert_eq!(epsilon_permille(0, 100), 1000);
    assert_eq!(epsilon_permille(1, 100), 990);
    assert_eq!(epsilon_permille(4, 100), 960);
    assert_eq!(epsilon_permille(5, 100), 20);
    assert_eq!(epsilon_permille(99, 100), 20);
}

#[test]
fn a_training_round_returns_the_final_payout() {
    let mut table = QTable::new();
    let mut gs = GameState::new();
    let reward = table.trainnig_q(&mut gs, 500, 0).unwrap();
    assert!(!gs.continue_game);
    assert!(gs.croupier_cards.sum() >= 17);
    assert_eq!(reward, gs.results() * 500);
    assert!(table.len() >= 1);
}

#[test]
fn a_training_round_on_an_empty_shoe_is_reported() {
    let mut table = QTable::new();
    let mut gs = state_with(&[], &[], &[10, 10]);
    assert_eq!(
        table.trainnig_q(&mut gs, 500, 0),
        Err(GameError::EmptyShoe)
    );
}
