use gamey::{
    create_default_state, AppState, Cell, Coordinates, GameRecord, GameY, RandomBot, YBot,
    YBotRegistry, YEN,
};

fn game(size: u32, turn: u32, layout: &str) -> GameY {
    GameY::try_from(YEN::new(size, turn, vec!['B', 'R'], layout.to_string())).unwrap()
}

#[test]
fn default_state_offers_the_random_bot() {
    let state = create_default_state();
    assert_eq!(state.bots().names(), vec!["random_bot".to_string()]);
    assert_eq!(state.bots().find("random_bot"), Some(YBot::Random(RandomBot)));
    assert_eq!(state.bots().find("other_bot"), None);
    assert_eq!(state.bots().find(""), None);
}

#[test]
fn empty_registry_finds_nothing() {
    let registry = YBotRegistry::new();
    assert_eq!(registry.find("random_bot"), None);
    assert!(registry.names().is_empty());
    let state = AppState::new(registry);
    assert!(state.bots().names().is_empty());
}

#[test]
fn registry_keeps_the_order_of_its_bots() {
    let registry = YBotRegistry::new()
        .with_bot(YBot::Random(RandomBot))
        .with_bot(YBot::Random(RandomBot));
    assert_eq!(registry.names(), vec!["random_bot".to_string(), "random_bot".to_string()]);
    assert_eq!(registry.find("random_bot"), Some(YBot::Random(RandomBot)));
}

#[test]
fn random_bot_is_named() {
    assert_eq!(RandomBot.name(), "random_bot");
    assert_eq!(YBot::Random(RandomBot).name(), "random_bot");
}

#[test]
fn random_bot_takes_the_empty_cell_that_the_number_names() {
    // the empty cells, in row-major order, have the indices 1, 3 and 5
    let g = game(3, 3, "B/.R/.B.");
    let empty = [
        Coordinates::new(0, 1, 1),
        Coordinates::new(0, 2, 0),
        Coordinates::new(2, 0, 0),
    ];
    for pick in 0..9u64 {
        let choice = RandomBot.choose_move(&g, pick).unwrap();
        assert_eq!(choice, empty[(pick % 3) as usize]);
        assert_eq!(g.board().get(&choice), Cell::Empty);
        assert_eq!(YBot::Random(RandomBot).choose_move(&g, pick), Some(choice));
    }
    assert_eq!(RandomBot.choose_move(&g, u64::MAX), Some(empty[(u64::MAX % 3) as usize]));
}

#[test]
fn random_bot_on_the_empty_board() {
    let g = game(2, 0, "./..");
    assert_eq!(RandomBot.choose_move(&g, 0), Some(Coordinates::new(0, 0, 1)));
    assert_eq!(RandomBot.choose_move(&g, 1), Some(Coordinates::new(0, 1, 0)));
    assert_eq!(RandomBot.choose_move(&g, 2), Some(Coordinates::new(1, 0, 0)));
    assert_eq!(RandomBot.choose_move(&g, 3), Some(Coordinates::new(0, 0, 1)));
}

#[test]
fn random_bot_has_no_move_in_a_finished_game() {
    let g = game(3, 5, "./R./BBB");
    assert_eq!(RandomBot.choose_move(&g, 0), None);
    assert_eq!(RandomBot.choose_move(&g, 1), None);
}

#[test]
fn random_bot_move_is_accepted() {
    let mut g = game(4, 0, "./../.../....");
    for pick in [5u64, 17, 3, 99] {
        let player = g.next_player().unwrap();
        let coords = YBot::Random(RandomBot).choose_move(&g, pick).unwrap();
        assert_eq!(g.add_move(gamey::Movement::Placement { player, coords }), Ok(()));
    }
    assert_eq!(g.turn(), 4);
}

#[test]
fn record_of_a_finished_game() {
    let g = game(3, 5, "./R./BBB");
    let record = GameRecord::of_game(&g, 1_700_000_000, 42);
    assert_eq!(record.winner, Some("Player 1".to_string()));
    assert_eq!(record.board_size, 3);
    assert_eq!(record.moves_count, 5);
    assert_eq!(record.timestamp, 1_700_000_000);
    assert_eq!(record.duration_seconds, 42);
    let g = game(3, 6, "B/B./RRR");
    assert_eq!(GameRecord::of_game(&g, -1, 0).winner, Some("Player 2".to_string()));
}

#[test]
fn record_of_a_game_without_winner() {
    let g = game(4, 2, "B/R./.../....");
    let record = GameRecord::of_game(&g, 0, 7);
    assert_eq!(record.winner, None);
    assert_eq!(record.board_size, 4);
    assert_eq!(record.moves_count, 2);
}
