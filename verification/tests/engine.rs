use tron_bot::flood::flood_fill;
use tron_bot::decide::decide;
use tron_bot::state::init_game_data;
use tron_bot::util::Direction;
use tron_bot::util::Vector2;

#[test]
fn direction_roundtrip_all_cells() {
    // a step followed by its opposite lands back home, wraparound included
    let w: u8 = 4;
    let h: u8 = 3;
    let pairs = [
        (Direction::UP, Direction::DOWN),
        (Direction::DOWN, Direction::UP),
        (Direction::LEFT, Direction::RIGHT),
        (Direction::RIGHT, Direction::LEFT),
    ];
    for x in 0..w {
        for y in 0..h {
            for (d, o) in pairs.iter() {
                let p = Vector2 { x, y };
                let moved = d.get_relative_width_height(p, w, h);
                let back = o.get_relative_width_height(moved, w, h);
                assert_eq!(back, p);
            }
        }
    }
}

#[test]
fn step_wraps_at_edges() {
    let up = Direction::UP.get_relative_width_height(Vector2 { x: 0, y: 0 }, 3, 3);
    assert_eq!(up, Vector2 { x: 0, y: 2 });
    let left = Direction::LEFT.get_relative_width_height(Vector2 { x: 0, y: 1 }, 4, 3);
    assert_eq!(left, Vector2 { x: 3, y: 1 });
    let down = Direction::DOWN.get_relative_width_height(Vector2 { x: 1, y: 2 }, 3, 3);
    assert_eq!(down, Vector2 { x: 1, y: 0 });
    let right = Direction::RIGHT.get_relative_width_height(Vector2 { x: 3, y: 1 }, 4, 3);
    assert_eq!(right, Vector2 { x: 0, y: 1 });
}

#[test]
fn empty_grid_territory_is_whole_grid() {
    let mut game = init_game_data();
    game.reset(5, 4, 0);
    let (fields, heads) = flood_fill(&game, Vector2 { x: 2, y: 1 });
    assert_eq!(fields, 20);
    assert_eq!(heads, 0);
}

#[test]
fn one_cell_grid_counts_itself() {
    let mut game = init_game_data();
    game.reset(1, 1, 0);
    let (fields, heads) = flood_fill(&game, Vector2 { x: 0, y: 0 });
    assert_eq!(fields, 1);
    assert_eq!(heads, 0);
}

#[test]
fn opponent_head_counted_once_from_many_sides() {
    let mut game = init_game_data();
    game.reset(3, 3, 0);
    game.update_player_pos(0, 1, 1);
    game.update_player_pos(1, 0, 0);
    // seven empty cells surround the opponent's head from several sides
    let (fields, heads) = flood_fill(&game, Vector2 { x: 1, y: 0 });
    assert_eq!(fields, 7);
    assert_eq!(heads, 1);
}

#[test]
fn occupied_start_counts_zero_fields_and_its_head() {
    let mut game = init_game_data();
    game.reset(3, 3, 0);
    game.update_player_pos(0, 0, 0);
    game.update_player_pos(1, 0, 2);
    // evaluating straight into the opponent's head cell
    let (fields, heads) = flood_fill(&game, Vector2 { x: 0, y: 2 });
    assert_eq!(fields, 0);
    assert_eq!(heads, 1);
}

#[test]
fn decide_picks_canonical_first_on_full_tie() {
    let mut game = init_game_data();
    game.reset(3, 3, 0);
    game.update_player_pos(0, 1, 1);
    let (dir, fields, heads) = decide(&game);
    assert_eq!(dir, Direction::UP);
    assert_eq!(fields, 8);
    assert_eq!(heads, 0);
}

#[test]
fn decide_tie_break_skips_blocked_up() {
    let mut game = init_game_data();
    game.reset(3, 3, 0);
    game.update_player_pos(0, 1, 1);
    game.update_player_pos(1, 1, 0);
    // up runs into the opponent head (0 fields); the other three tie at 7
    let (dir, fields, _heads) = decide(&game);
    assert_eq!(dir, Direction::DOWN);
    assert_eq!(fields, 7);
}

#[test]
fn decide_avoids_dead_direction() {
    let mut game = init_game_data();
    game.reset(3, 3, 0);
    game.update_player_pos(0, 0, 0);
    game.update_player_pos(1, 0, 2);
    let (dir, fields, _heads) = decide(&game);
    assert_eq!(dir, Direction::DOWN);
    assert_eq!(fields, 7);
}

#[test]
fn decide_defaults_up_when_no_safe_move() {
    let mut game = init_game_data();
    game.reset(1, 1, 0);
    game.update_player_pos(0, 0, 0);
    let (dir, fields, heads) = decide(&game);
    assert_eq!(dir, Direction::UP);
    assert_eq!(fields, 0);
    assert_eq!(heads, 0);
}

#[test]
fn remove_then_report_readds_one_head_and_cell() {
    let mut game = init_game_data();
    game.reset(4, 4, 0);
    game.update_player_pos(5, 1, 1);
    game.update_player_pos(5, 1, 2);
    game.update_player_pos(5, 1, 3);
    assert_eq!(game.player_heads.len(), 1);
    game.remove_participant(5);
    assert_eq!(game.player_heads.len(), 0);
    game.update_player_pos(5, 2, 2);
    assert_eq!(game.player_heads.len(), 1);
    assert_eq!(*game.player_heads.get(&5).unwrap(), Vector2 { x: 2, y: 2 });
    let mut owned_cells = 0;
    for x in 0..4usize {
        for y in 0..4usize {
            if game.grid[(x, y)] == 5 {
                owned_cells += 1;
                assert_eq!((x, y), (2, 2));
            }
        }
    }
    assert_eq!(owned_cells, 1);
}

#[test]
fn remove_participant_clears_whole_trail() {
    let mut game = init_game_data();
    game.reset(3, 3, 0);
    game.update_player_pos(7, 0, 0);
    game.update_player_pos(7, 0, 1);
    game.update_player_pos(7, 0, 2);
    game.remove_participant(7);
    for x in 0..3usize {
        for y in 0..3usize {
            assert_eq!(game.grid[(x, y)], 255);
        }
    }
    assert!(game.player_heads.get(&7).is_none());
}

#[test]
fn reset_starts_new_game_cleanly() {
    let mut game = init_game_data();
    game.reset(3, 3, 2);
    game.update_player_pos(2, 1, 1);
    game.reset(4, 2, 1);
    assert_eq!(game.grid_meta.width, 4);
    assert_eq!(game.grid_meta.height, 2);
    assert_eq!(game.own_id, 1);
    assert_eq!(game.current_tick, 0);
    assert_eq!(game.player_heads.len(), 0);
    for x in 0..4usize {
        for y in 0..2usize {
            assert_eq!(game.grid[(x, y)], 255);
        }
    }
}

#[test]
fn iterator_lists_canonical_order() {
    let dirs = Direction::iterator();
    assert_eq!(
        dirs,
        vec![Direction::UP, Direction::DOWN, Direction::LEFT, Direction::RIGHT]
    );
}

#[test]
fn iterator_random_is_a_permutation() {
    let dirs = Direction::iterator_random();
    assert_eq!(dirs.len(), 4);
    for d in [Direction::UP, Direction::DOWN, Direction::LEFT, Direction::RIGHT] {
        assert!(dirs.contains(&d));
    }
}
