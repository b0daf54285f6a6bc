use tron_bot::receive::dispatch_line;
use tron_bot::receive::get_mappers;
use tron_bot::receive::parse_u8;
use tron_bot::receive::split_fields;
use tron_bot::receive::Motd;
use tron_bot::receive::OutEvent;
use tron_bot::receive::ProtocolError;
use tron_bot::send::Join;
use tron_bot::send::Move;
use tron_bot::send::SendCommandable;
use tron_bot::state::init_game_data;
use tron_bot::state::GameData;
use tron_bot::util::Direction;

fn chars(s: &str) -> Vec<char> {
    s.chars().collect()
}

fn creds() -> Motd {
    get_mappers("user".to_string(), "trontestpass".to_string())
}

fn feed(game: &mut GameData, line: &str) -> Result<Vec<OutEvent>, ProtocolError> {
    let motd = creds();
    dispatch_line(&motd, game, &chars(line))
}

#[test]
fn split_fields_basic() {
    let fields = split_fields(&chars("pos|0|2|2"));
    assert_eq!(fields.len(), 4);
    assert_eq!(fields[0], chars("pos"));
    assert_eq!(fields[1], chars("0"));
    assert_eq!(fields[2], chars("2"));
    assert_eq!(fields[3], chars("2"));
}

#[test]
fn split_fields_keeps_empty_segments() {
    let fields = split_fields(&chars("a||b|"));
    assert_eq!(fields.len(), 4);
    assert_eq!(fields[0], chars("a"));
    assert_eq!(fields[1], Vec::<char>::new());
    assert_eq!(fields[2], chars("b"));
    assert_eq!(fields[3], Vec::<char>::new());
}

#[test]
fn parse_u8_accepts_bytes() {
    assert_eq!(parse_u8(&chars("0")), Some(0));
    assert_eq!(parse_u8(&chars("42")), Some(42));
    assert_eq!(parse_u8(&chars("255")), Some(255));
    assert_eq!(parse_u8(&chars("007")), Some(7));
}

#[test]
fn parse_u8_rejects_bad_fields() {
    assert_eq!(parse_u8(&chars("")), None);
    assert_eq!(parse_u8(&chars("256")), None);
    assert_eq!(parse_u8(&chars("300")), None);
    assert_eq!(parse_u8(&chars("1a")), None);
    assert_eq!(parse_u8(&chars("-1")), None);
}

#[test]
fn game_pos_tick_emits_one_move() {
    let mut game = init_game_data();
    assert_eq!(feed(&mut game, "game|4|4|0").unwrap().len(), 0);
    let out = feed(&mut game, "pos|0|2|2").unwrap();
    assert_eq!(out.len(), 0);
    let out = feed(&mut game, "tick").unwrap();
    assert_eq!(out.len(), 1);
    match &out[0] {
        OutEvent::Move(m) => {
            let sent = m.send();
            assert_eq!(sent[0], "move".to_string());
            let token = sent[1].as_str();
            assert!(["up", "down", "left", "right"].contains(&token));
        },
        _ => panic!("expected a move event"),
    }
    assert_eq!(game.current_tick, 1);
}

#[test]
fn unknown_event_is_ignored() {
    let mut game = init_game_data();
    feed(&mut game, "game|3|3|0").unwrap();
    let tick_before = game.current_tick;
    let heads_before = game.player_heads.len();
    let out = feed(&mut game, "foo|bar").unwrap();
    assert_eq!(out.len(), 0);
    assert_eq!(game.current_tick, tick_before);
    assert_eq!(game.player_heads.len(), heads_before);
    assert_eq!(game.grid_meta.width, 3);
    assert_eq!(game.grid_meta.height, 3);
    for x in 0..3usize {
        for y in 0..3usize {
            assert_eq!(game.grid[(x, y)], 255);
        }
    }
}

#[test]
fn empty_line_is_a_no_op() {
    let mut game = init_game_data();
    feed(&mut game, "game|3|3|0").unwrap();
    let out = feed(&mut game, "").unwrap();
    assert_eq!(out.len(), 0);
    assert_eq!(game.grid_meta.width, 3);
}

#[test]
fn motd_answers_with_join() {
    let mut game = init_game_data();
    let out = feed(&mut game, "motd|welcome to the grid").unwrap();
    assert_eq!(out.len(), 1);
    match &out[0] {
        OutEvent::Join(j) => {
            let sent = j.send();
            assert_eq!(sent.len(), 3);
            assert_eq!(sent[0], "join".to_string());
            assert_eq!(sent[1], "user".to_string());
            assert_eq!(sent[2], "trontestpass".to_string());
        },
        _ => panic!("expected a join event"),
    }
}

#[test]
fn motd_without_message_is_malformed() {
    let mut game = init_game_data();
    assert!(matches!(feed(&mut game, "motd"), Err(ProtocolError::MalformedEvent)));
}

#[test]
fn game_with_bad_number_is_malformed() {
    let mut game = init_game_data();
    assert!(matches!(feed(&mut game, "game|x|4|0"), Err(ProtocolError::MalformedEvent)));
    assert!(matches!(feed(&mut game, "game|4|4"), Err(ProtocolError::MalformedEvent)));
    assert_eq!(game.grid_meta.width, 0);
}

#[test]
fn pos_out_of_range_is_malformed() {
    let mut game = init_game_data();
    feed(&mut game, "game|3|3|0").unwrap();
    assert!(matches!(feed(&mut game, "pos|1|3|0"), Err(ProtocolError::MalformedEvent)));
    assert!(matches!(feed(&mut game, "pos|1|0|7"), Err(ProtocolError::MalformedEvent)));
    assert_eq!(game.player_heads.len(), 0);
}

#[test]
fn pos_records_head_and_cell() {
    let mut game = init_game_data();
    feed(&mut game, "game|4|4|0").unwrap();
    feed(&mut game, "pos|3|1|2").unwrap();
    assert_eq!(game.player_heads.len(), 1);
    assert_eq!(game.grid[(1usize, 2usize)], 3);
}

#[test]
fn tick_without_own_head_is_terminal() {
    let mut game = init_game_data();
    feed(&mut game, "game|3|3|0").unwrap();
    assert!(matches!(feed(&mut game, "tick"), Err(ProtocolError::SelfNotAlive)));
    assert_eq!(game.current_tick, 0);
}

#[test]
fn die_removes_each_named_participant() {
    let mut game = init_game_data();
    feed(&mut game, "game|4|4|0").unwrap();
    feed(&mut game, "pos|1|0|0").unwrap();
    feed(&mut game, "pos|1|0|1").unwrap();
    feed(&mut game, "pos|2|3|3").unwrap();
    let out = feed(&mut game, "die|1|2").unwrap();
    assert_eq!(out.len(), 0);
    assert_eq!(game.player_heads.len(), 0);
    for x in 0..4usize {
        for y in 0..4usize {
            assert_eq!(game.grid[(x, y)], 255);
        }
    }
}

#[test]
fn die_with_bad_id_is_malformed() {
    let mut game = init_game_data();
    feed(&mut game, "game|4|4|0").unwrap();
    feed(&mut game, "pos|1|0|0").unwrap();
    assert!(matches!(feed(&mut game, "die|abc"), Err(ProtocolError::MalformedEvent)));
    assert_eq!(game.player_heads.len(), 1);
}

#[test]
fn error_and_lose_and_player_are_observability_only() {
    let mut game = init_game_data();
    feed(&mut game, "game|3|3|0").unwrap();
    assert_eq!(feed(&mut game, "error|boom").unwrap().len(), 0);
    assert_eq!(feed(&mut game, "lose").unwrap().len(), 0);
    assert_eq!(feed(&mut game, "player|1|alice").unwrap().len(), 0);
    assert!(matches!(feed(&mut game, "player|1"), Err(ProtocolError::MalformedEvent)));
    assert_eq!(game.grid_meta.width, 3);
}

#[test]
fn wraparound_scenario_prefers_open_direction() {
    let mut game = init_game_data();
    feed(&mut game, "game|3|3|0").unwrap();
    feed(&mut game, "pos|0|0|0").unwrap();
    feed(&mut game, "pos|1|0|2").unwrap();
    let out = feed(&mut game, "tick").unwrap();
    assert_eq!(out.len(), 1);
    match &out[0] {
        OutEvent::Move(m) => assert_eq!(m.send()[1], "down".to_string()),
        _ => panic!("expected a move event"),
    }
}

#[test]
fn join_send_builds_wire_fields() {
    let join = Join::new("alice".to_string(), "trontestpass".to_string());
    assert_eq!(
        join.send(),
        vec!["join".to_string(), "alice".to_string(), "trontestpass".to_string()]
    );
}

#[test]
fn move_send_builds_wire_fields() {
    assert_eq!(
        (Move { direction: Direction::LEFT }).send(),
        vec!["move".to_string(), "left".to_string()]
    );
    assert_eq!(
        (Move { direction: Direction::RIGHT }).send(),
        vec!["move".to_string(), "right".to_string()]
    );
    assert_eq!((Move { direction: Direction::UP }).send()[1], "up".to_string());
}
