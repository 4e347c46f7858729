use gamey::{
    Cell, Connectivity, Coordinates, DisjointSets, GameStatus, GameY, MoveError, Movement,
    PlayerId, Side, YEN,
};

fn game(size: u32, turn: u32, layout: &str) -> GameY {
    GameY::try_from(YEN::new(size, turn, vec!['B', 'R'], layout.to_string())).unwrap()
}

fn place(player: PlayerId, x: u32, y: u32, z: u32) -> Movement {
    Movement::Placement { player, coords: Coordinates::new(x, y, z) }
}

fn layout_of(game: &GameY) -> String {
    game.to_yen().layout().to_string()
}

#[test]
fn player_ids() {
    assert_eq!(PlayerId::new(0), Some(PlayerId::First));
    assert_eq!(PlayerId::new(1), Some(PlayerId::Second));
    assert_eq!(PlayerId::new(2), None);
    assert_eq!(PlayerId::First.id(), 0);
    assert_eq!(PlayerId::Second.id(), 1);
    assert_eq!(PlayerId::First.other(), PlayerId::Second);
    assert_eq!(PlayerId::Second.other(), PlayerId::First);
    assert_eq!(PlayerId::for_ply(0), PlayerId::First);
    assert_eq!(PlayerId::for_ply(7), PlayerId::Second);
    assert_eq!(PlayerId::for_ply(u32::MAX), PlayerId::Second);
}

#[test]
fn turns_alternate_from_the_empty_board() {
    let mut g = game(4, 0, "./../.../....");
    let cells = [(1, 1, 1), (2, 1, 0), (1, 0, 2), (1, 2, 0), (0, 1, 2)];
    for (n, (x, y, z)) in cells.iter().enumerate() {
        let expected = if n % 2 == 0 { PlayerId::First } else { PlayerId::Second };
        assert_eq!(g.turn(), n as u32);
        assert_eq!(g.next_player(), Some(expected));
        assert_eq!(g.status(), GameStatus::Ongoing { next_player: expected });
        assert_eq!(g.add_move(place(expected, *x, *y, *z)), Ok(()));
    }
    assert_eq!(g.turn(), 5);
    assert_eq!(g.next_player(), Some(PlayerId::Second));
}

#[test]
fn turn_follows_the_ply_count_of_the_yen() {
    assert_eq!(game(3, 0, "./../...").next_player(), Some(PlayerId::First));
    assert_eq!(game(3, 1, "B/../...").next_player(), Some(PlayerId::Second));
    // the ply count is taken as it is, whatever the board shows
    assert_eq!(game(3, 5, "./../...").next_player(), Some(PlayerId::Second));
    assert_eq!(game(3, 5, "./../...").turn(), 5);
}

#[test]
fn accepted_move_puts_the_stone_and_counts() {
    let mut g = game(3, 0, "./../...");
    assert_eq!(g.add_move(place(PlayerId::First, 1, 0, 1)), Ok(()));
    assert_eq!(layout_of(&g), "./.B/...");
    assert_eq!(g.turn(), 1);
    assert_eq!(g.board().get(&Coordinates::new(1, 0, 1)), Cell::Owned(PlayerId::First));
    assert_eq!(g.status(), GameStatus::Ongoing { next_player: PlayerId::Second });
}

#[test]
fn occupied_cell_is_refused() {
    let mut g = game(3, 1, "B/../...");
    assert_eq!(g.add_move(place(PlayerId::Second, 0, 0, 2)), Err(MoveError::CellOccupied));
    assert_eq!(layout_of(&g), "B/../...");
    assert_eq!(g.turn(), 1);
    assert_eq!(g.status(), GameStatus::Ongoing { next_player: PlayerId::Second });
    // also on a stone of one's own
    let mut g = game(3, 2, "B/R./...");
    assert_eq!(g.add_move(place(PlayerId::First, 0, 0, 2)), Err(MoveError::CellOccupied));
    assert_eq!(layout_of(&g), "B/R./...");
    assert_eq!(g.turn(), 2);
}

#[test]
fn wrong_player_is_refused() {
    let mut g = game(3, 0, "./../...");
    assert_eq!(g.add_move(place(PlayerId::Second, 0, 0, 2)), Err(MoveError::WrongPlayer));
    assert_eq!(layout_of(&g), "./../...");
    assert_eq!(g.turn(), 0);
    assert_eq!(g.next_player(), Some(PlayerId::First));
    let mut g = game(3, 1, "B/../...");
    assert_eq!(g.add_move(place(PlayerId::First, 1, 1, 0)), Err(MoveError::WrongPlayer));
}

#[test]
fn wrong_player_comes_before_the_cell() {
    let mut g = game(3, 1, "B/../...");
    assert_eq!(g.add_move(place(PlayerId::First, 0, 0, 2)), Err(MoveError::WrongPlayer));
    assert_eq!(g.add_move(place(PlayerId::First, 9, 9, 9)), Err(MoveError::WrongPlayer));
}

#[test]
fn out_of_bounds_is_refused() {
    let mut g = game(3, 0, "./../...");
    for (x, y, z) in [(1, 1, 1), (0, 0, 0), (3, 0, 0), (0, 0, 3), (u32::MAX, 1, 2)] {
        assert_eq!(g.add_move(place(PlayerId::First, x, y, z)), Err(MoveError::OutOfBounds));
    }
    assert_eq!(layout_of(&g), "./../...");
    assert_eq!(g.turn(), 0);
}

#[test]
fn chain_along_the_last_row_wins() {
    let g = game(3, 5, "./R./BBB");
    assert_eq!(g.status(), GameStatus::Finished { winner: PlayerId::First });
    assert_eq!(g.next_player(), None);
}

#[test]
fn chain_down_the_left_side_wins() {
    // (0,0,2) lies on x = 0 and y = 0, (0,2,0) on x = 0 and z = 0
    let g = game(3, 5, "B/BR/B.R");
    assert_eq!(g.status(), GameStatus::Finished { winner: PlayerId::First });
}

#[test]
fn second_player_can_win() {
    let g = game(3, 6, "B/B./RRR");
    assert_eq!(g.status(), GameStatus::Finished { winner: PlayerId::Second });
}

#[test]
fn stones_that_touch_no_third_side_do_not_win() {
    let g = game(4, 4, "./../BB./....");
    assert_eq!(g.status(), GameStatus::Ongoing { next_player: PlayerId::First });
    let g = game(4, 1, "B/../.../....");
    assert_eq!(g.status(), GameStatus::Ongoing { next_player: PlayerId::Second });
}

#[test]
fn single_cell_board_is_won_by_the_first_stone() {
    let mut g = game(1, 0, ".");
    assert_eq!(g.status(), GameStatus::Ongoing { next_player: PlayerId::First });
    assert_eq!(g.add_move(place(PlayerId::First, 0, 0, 0)), Ok(()));
    assert_eq!(g.status(), GameStatus::Finished { winner: PlayerId::First });
    assert_eq!(layout_of(&g), "B");
}

#[test]
fn winning_move_finishes_the_game() {
    let mut g = game(3, 4, "./R./BB.");
    assert_eq!(g.add_move(place(PlayerId::First, 2, 0, 0)), Ok(()));
    assert_eq!(g.status(), GameStatus::Finished { winner: PlayerId::First });
    assert_eq!(g.next_player(), None);
    assert_eq!(g.turn(), 5);
    assert_eq!(layout_of(&g), "./R./BBB");
}

#[test]
fn finished_game_takes_no_move() {
    let mut g = game(3, 5, "./R./BBB");
    for m in [
        place(PlayerId::Second, 0, 0, 2),
        place(PlayerId::First, 0, 0, 2),
        place(PlayerId::Second, 0, 2, 0),
        place(PlayerId::Second, 7, 7, 7),
    ] {
        assert_eq!(g.add_move(m), Err(MoveError::GameOver));
        assert_eq!(g.check_move(&m), Err(MoveError::GameOver));
    }
    assert_eq!(layout_of(&g), "./R./BBB");
    assert_eq!(g.turn(), 5);
    assert_eq!(g.status(), GameStatus::Finished { winner: PlayerId::First });
}

#[test]
fn check_move_agrees_with_add_move() {
    let g = game(3, 1, "B/../...");
    assert_eq!(g.check_move(&place(PlayerId::Second, 1, 1, 0)), Ok(()));
    assert_eq!(g.check_move(&place(PlayerId::Second, 0, 0, 2)), Err(MoveError::CellOccupied));
    assert_eq!(g.check_move(&place(PlayerId::Second, 0, 0, 0)), Err(MoveError::OutOfBounds));
    assert_eq!(g.check_move(&place(PlayerId::First, 1, 1, 0)), Err(MoveError::WrongPlayer));
}

#[test]
fn game_from_start_to_win() {
    let mut g = game(3, 0, "./../...");
    let moves = [
        place(PlayerId::First, 0, 2, 0),
        place(PlayerId::Second, 0, 0, 2),
        place(PlayerId::First, 1, 1, 0),
        place(PlayerId::Second, 0, 1, 1),
        place(PlayerId::First, 2, 0, 0),
    ];
    for (n, m) in moves.iter().enumerate() {
        assert_eq!(g.status(), GameStatus::Ongoing { next_player: PlayerId::for_ply(n as u32) });
        assert_eq!(g.add_move(*m), Ok(()));
    }
    assert_eq!(g.status(), GameStatus::Finished { winner: PlayerId::First });
    let text = g.to_yen();
    assert_eq!(text.layout(), "R/R./BBB");
    assert_eq!(text.turn(), 5);
    assert_eq!(text.size(), 3);
    let again = GameY::try_from(text).unwrap();
    assert_eq!(again.status(), GameStatus::Finished { winner: PlayerId::First });
    assert_eq!(again.to_yen().layout(), "R/R./BBB");
}

#[test]
fn rebuilt_game_knows_old_connections() {
    // the stones of the YEN connect with the stone of the move
    let mut g = game(4, 6, "B/B./R.R/.B.R");
    assert_eq!(g.status(), GameStatus::Ongoing { next_player: PlayerId::First });
    assert_eq!(g.add_move(place(PlayerId::First, 1, 1, 1)), Ok(()));
    assert_eq!(g.status(), GameStatus::Finished { winner: PlayerId::First });
}

#[test]
fn disjoint_sets_start_apart() {
    let mut sets = DisjointSets::new(5);
    assert_eq!(sets.len(), 5);
    for i in 0..5 {
        assert_eq!(sets.find(i), i);
    }
    assert!(!sets.same_set(0, 1));
    assert!(sets.same_set(3, 3));
}

#[test]
fn disjoint_sets_merge() {
    let mut sets = DisjointSets::new(6);
    assert!(sets.union(0, 1));
    assert!(sets.union(2, 3));
    assert!(!sets.same_set(1, 2));
    assert!(sets.union(1, 3));
    assert!(!sets.union(0, 2));
    assert!(sets.same_set(0, 3));
    assert!(!sets.same_set(0, 4));
    assert!(!sets.same_set(4, 5));
    let root = sets.find(0);
    for i in 0..4 {
        assert_eq!(sets.find(i), root);
    }
    assert!(root < 4);
    assert_eq!(sets.find(4), 4);
    assert_eq!(sets.find(5), 5);
}

#[test]
fn disjoint_sets_long_chain() {
    let mut sets = DisjointSets::new(100);
    for i in 0..99 {
        assert!(sets.union(i, i + 1));
    }
    let root = sets.find(0);
    for i in 0..100 {
        assert_eq!(sets.find(i), root);
    }
}

#[test]
fn connectivity_follows_the_stones() {
    let mut c = Connectivity::new(3);
    assert_eq!(c.size(), 3);
    assert!(!c.joins_sides());
    assert!(!c.has_stone(&Coordinates::new(0, 2, 0)));
    assert!(!c.place(&Coordinates::new(0, 2, 0)));
    assert!(c.has_stone(&Coordinates::new(0, 2, 0)));
    assert!(!c.place(&Coordinates::new(1, 1, 0)));
    assert!(!c.joins_sides());
    assert!(c.place(&Coordinates::new(2, 0, 0)));
    assert!(c.joins_sides());
    // a stone that is there already changes nothing
    assert!(c.place(&Coordinates::new(1, 1, 0)));
}

#[test]
fn corner_lies_on_two_sides() {
    // one corner joins two sides, not three
    let mut c = Connectivity::new(3);
    assert!(!c.place(&Coordinates::new(0, 0, 2)));
    // a stone on the third side that is apart from the corner joins nothing to it
    assert!(!c.place(&Coordinates::new(1, 1, 0)));
    // the cell between them joins the two
    assert!(c.place(&Coordinates::new(0, 1, 1)));
}

#[test]
fn a_side_connects_the_stones_on_it() {
    // the sides are nodes of the graph: two corners meet in the side between them
    let mut c = Connectivity::new(3);
    assert!(!c.place(&Coordinates::new(0, 2, 0)));
    assert!(c.place(&Coordinates::new(2, 0, 0)));
}

#[test]
fn coordinates_neighbours() {
    let c = Coordinates::new(1, 1, 1);
    let all: Vec<Option<Coordinates>> = (0..6).map(|d| c.neighbour(d, 4)).collect();
    assert_eq!(
        all,
        vec![
            Some(Coordinates::new(2, 0, 1)),
            Some(Coordinates::new(0, 2, 1)),
            Some(Coordinates::new(2, 1, 0)),
            Some(Coordinates::new(0, 1, 2)),
            Some(Coordinates::new(1, 2, 0)),
            Some(Coordinates::new(1, 0, 2)),
        ]
    );
    let corner = Coordinates::new(0, 0, 2);
    let near: Vec<Coordinates> = (0..6).filter_map(|d| corner.neighbour(d, 3)).collect();
    assert_eq!(near, vec![Coordinates::new(1, 0, 1), Coordinates::new(0, 1, 1)]);
}

#[test]
fn coordinates_sides_and_validity() {
    let corner = Coordinates::new(0, 0, 2);
    assert!(corner.touches(Side::X));
    assert!(corner.touches(Side::Y));
    assert!(!corner.touches(Side::Z));
    assert!(corner.is_valid(3));
    assert!(!corner.is_valid(2));
    assert!(!corner.is_valid(0));
    assert_eq!((corner.x(), corner.y(), corner.z()), (0, 0, 2));
    assert_eq!(Coordinates::from_row_col(5, 3, 1), Coordinates::new(1, 2, 1));
    assert_eq!(Coordinates::new(1, 2, 1).to_index(5), 7);
    assert_eq!(gamey::coordinates::cells_in_rows(4), 10);
    assert_eq!(gamey::coordinates::cells_in_rows(u32::MAX), 9223372034707292160);
}
