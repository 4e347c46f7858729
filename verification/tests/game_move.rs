use gamey::{
    make_move, GameMoveError, GameMoveRequest, GameMoveResponse, MoveError, YenError, YEN,
};

fn empty_yen(size: u32) -> YEN {
    // Build an empty YEN layout: rows separated by '/'
    // Row r has r+1 dots
    let layout = (0..size)
        .map(|r| ".".repeat((r + 1) as usize))
        .collect::<Vec<_>>()
        .join("/");
    YEN::new(size, 0, vec!['B', 'R'], layout)
}

fn request_from_json(json: &str) -> GameMoveRequest {
    let value: serde_json::Value = serde_json::from_str(json).unwrap();
    let yen = &value["yen"];
    let players: Vec<char> = yen["players"]
        .as_array()
        .unwrap()
        .iter()
        .map(|p| p.as_str().unwrap().chars().next().unwrap())
        .collect();
    GameMoveRequest {
        yen: YEN::new(
            yen["size"].as_u64().unwrap() as u32,
            yen["turn"].as_u64().unwrap() as u32,
            players,
            yen["layout"].as_str().unwrap().to_string(),
        ),
        x: value["x"].as_u64().unwrap() as u32,
        y: value["y"].as_u64().unwrap() as u32,
        z: value["z"].as_u64().unwrap() as u32,
    }
}

fn number_or_null(n: Option<u32>) -> serde_json::Value {
    match n {
        Some(n) => serde_json::Value::from(n),
        None => serde_json::Value::Null,
    }
}

fn response_to_json(response: &GameMoveResponse) -> String {
    let mut yen = serde_json::Map::new();
    yen.insert("size".to_string(), serde_json::Value::from(response.yen.size()));
    yen.insert("turn".to_string(), serde_json::Value::from(response.yen.turn()));
    let players: Vec<serde_json::Value> = response
        .yen
        .players()
        .iter()
        .map(|p| serde_json::Value::from(p.to_string()))
        .collect();
    yen.insert("players".to_string(), serde_json::Value::from(players));
    yen.insert("layout".to_string(), serde_json::Value::from(response.yen.layout()));
    let mut map = serde_json::Map::new();
    map.insert("yen".to_string(), serde_json::Value::Object(yen));
    map.insert("status".to_string(), serde_json::Value::from(response.status.clone()));
    map.insert("winner".to_string(), number_or_null(response.winner));
    map.insert("next_player".to_string(), number_or_null(response.next_player));
    serde_json::to_string(&serde_json::Value::Object(map)).unwrap()
}

#[test]
fn test_request_deserialization() {
    let json = r#"{
            "yen": {"size": 3, "turn": 0, "players": ["B","R"], "layout": "../..."},
            "x": 1, "y": 1, "z": 0
        }"#;
    let req: GameMoveRequest = request_from_json(json);
    assert_eq!(req.x, 1);
    assert_eq!(req.y, 1);
    assert_eq!(req.z, 0);
}

#[test]
fn test_response_serialization_ongoing() {
    let yen = empty_yen(3);
    let response = GameMoveResponse {
        yen,
        status: "ongoing".to_string(),
        winner: None,
        next_player: Some(1),
    };
    let json = response_to_json(&response);
    assert!(json.contains("\"status\":\"ongoing\""));
    assert!(json.contains("\"winner\":null"));
    assert!(json.contains("\"next_player\":1"));
}

#[test]
fn test_response_serialization_finished() {
    let yen = empty_yen(3);
    let response = GameMoveResponse {
        yen,
        status: "finished".to_string(),
        winner: Some(0),
        next_player: None,
    };
    let json = response_to_json(&response);
    assert!(json.contains("\"status\":\"finished\""));
    assert!(json.contains("\"winner\":0"));
    assert!(json.contains("\"next_player\":null"));
}

#[test]
fn request_with_a_broken_layout_is_refused() {
    let json = r#"{
            "yen": {"size": 3, "turn": 0, "players": ["B","R"], "layout": "../..."},
            "x": 1, "y": 1, "z": 0
        }"#;
    let answer = make_move(request_from_json(json));
    assert_eq!(
        answer.err(),
        Some(GameMoveError::InvalidYen(YenError::RowCount { expected: 3, found: 2 }))
    );
}

#[test]
fn move_on_the_empty_board() {
    let answer = make_move(GameMoveRequest { yen: empty_yen(3), x: 1, y: 1, z: 0 }).unwrap();
    assert_eq!(answer.yen.layout(), "./../.B.");
    assert_eq!(answer.yen.turn(), 1);
    assert_eq!(answer.yen.size(), 3);
    assert_eq!(answer.yen.players(), &vec!['B', 'R']);
    assert_eq!(answer.status, "ongoing");
    assert_eq!(answer.winner, None);
    assert_eq!(answer.next_player, Some(1));
    let json = response_to_json(&answer);
    assert!(json.contains("\"layout\":\"./../.B.\""));
    assert!(json.contains("\"turn\":1"));
}

#[test]
fn the_player_follows_from_the_turn() {
    let yen = YEN::new(3, 1, vec!['B', 'R'], "B/../...".to_string());
    let answer = make_move(GameMoveRequest { yen, x: 2, y: 0, z: 0 }).unwrap();
    assert_eq!(answer.yen.layout(), "B/../..R");
    assert_eq!(answer.yen.turn(), 2);
    assert_eq!(answer.next_player, Some(0));
}

#[test]
fn winning_move_is_reported() {
    let yen = YEN::new(3, 4, vec!['B', 'R'], "R/R./BB.".to_string());
    let answer = make_move(GameMoveRequest { yen, x: 2, y: 0, z: 0 }).unwrap();
    assert_eq!(answer.yen.layout(), "R/R./BBB");
    assert_eq!(answer.yen.turn(), 5);
    assert_eq!(answer.status, "finished");
    assert_eq!(answer.winner, Some(0));
    assert_eq!(answer.next_player, None);
}

#[test]
fn second_player_wins() {
    let yen = YEN::new(3, 5, vec!['B', 'R'], "B/.B/RR.".to_string());
    let answer = make_move(GameMoveRequest { yen, x: 2, y: 0, z: 0 }).unwrap();
    assert_eq!(answer.status, "finished");
    assert_eq!(answer.winner, Some(1));
    assert_eq!(answer.next_player, None);
}

#[test]
fn finished_game_is_refused() {
    let yen = YEN::new(3, 5, vec!['B', 'R'], "R/R./BBB".to_string());
    let answer = make_move(GameMoveRequest { yen, x: 1, y: 0, z: 1 });
    assert_eq!(answer.err(), Some(GameMoveError::GameFinished));
}

#[test]
fn illegal_moves_are_refused() {
    let yen = YEN::new(3, 1, vec!['B', 'R'], "B/../...".to_string());
    let taken = make_move(GameMoveRequest { yen: yen.clone(), x: 0, y: 0, z: 2 });
    assert_eq!(taken.err(), Some(GameMoveError::IllegalMove(MoveError::CellOccupied)));
    let outside = make_move(GameMoveRequest { yen, x: 1, y: 1, z: 1 });
    assert_eq!(outside.err(), Some(GameMoveError::IllegalMove(MoveError::OutOfBounds)));
}

#[test]
fn full_ply_count_is_refused() {
    let yen = YEN::new(2, u32::MAX, vec!['B', 'R'], "./..".to_string());
    let answer = make_move(GameMoveRequest { yen: yen.clone(), x: 0, y: 0, z: 1 });
    assert_eq!(answer.err(), Some(GameMoveError::TurnLimit));
    // an illegal move is reported as such first
    let outside = make_move(GameMoveRequest { yen, x: 5, y: 0, z: 1 });
    assert_eq!(outside.err(), Some(GameMoveError::IllegalMove(MoveError::OutOfBounds)));
}
