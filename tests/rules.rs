use lava_arena::game::{
    generate_grid, Cannonball, Cell, Direction, GameMode, GameState, Player, PlayerAction,
    PlayerInfo, Position,
};
use lava_arena::rules::{
    apply_player_rules, apply_rules, break_tile, move_player, resolve_cannonball_hits,
    break_tile_at, shoot_cannonball, spawn_player_at, spawn_random_cannonballs, spawn_random_player,
};

fn state_with(grid: Vec<Vec<Cell>>, players: Vec<Player>, cannonballs: Vec<Cannonball>) -> GameState {
    GameState {
        grid,
        players,
        cannonballs,
        turn: 1,
        targeted_tiles: Vec::new(),
        mode: GameMode::Classic,
    }
}

#[test]
fn test_grid_generation_size() {
    let grid = generate_grid(10, 10);
    assert_eq!(grid.len(), 10);
    assert!(grid.iter().all(|row| row.len() == 10));
}

#[test]
fn test_generate_grid() {
    let rows = 10;
    let cols = 10;
    let grid = generate_grid(rows, cols);
    assert_eq!(grid.len(), rows);
    for row in &grid {
        assert_eq!(row.len(), cols);
        assert!(row.iter().all(|&cell| matches!(cell, Cell::Solid)));
    }
}

#[test]
fn test_move_player_into_lava() {
    let mut grid = generate_grid(5, 5);
    grid[2][3] = Cell::Broken;
    let player = Player::new(1, Position { x: 2, y: 2 }, "ann".to_string());
    let mut state = state_with(grid, vec![player], vec![]);
    state.apply_player_action(PlayerAction::Move(Direction::Right), 0);
    assert!(!state.players[0].is_alive);
}

#[test]
fn test_pickup_cannonball() {
    let grid = generate_grid(5, 5);
    let player = Player::new(1, Position { x: 2, y: 2 }, "ann".to_string());
    let cannonball_pos = Position { x: 2, y: 3 };
    let mut state = state_with(grid, vec![player], vec![Cannonball { pos: cannonball_pos }]);
    state.apply_player_action(PlayerAction::Move(Direction::Right), 0);
    assert_eq!(state.players[0].cannonball_count, 1);
    assert!(state.cannonballs.is_empty());
}

#[test]
fn test_player_spawn_no_overlap() {
    let grid = generate_grid(10, 10);
    let mut players: Vec<Player> = vec![];
    for id in 0..5u8 {
        let player = spawn_random_player(&grid, &players, &vec![], id, format!("player-{}", id)).expect("Failed to spawn player");
        assert!(!players.iter().any(|p| p.pos == player.pos));
        players.push(player);
    }
}

#[test]
fn test_spawn_player_no_space() {
    let grid = vec![vec![Cell::Broken; 5]; 5];
    let players = vec![];
    let player = spawn_random_player(&grid, &players, &vec![], 0, "bob".to_string());
    assert!(player.is_none());
}

#[test]
fn test_player_does_not_spawn_on_object() {
    let grid = generate_grid(5, 5);
    let mut players: Vec<Player> = vec![];
    let cannonballs = vec![
        Cannonball { pos: Position { x: 1, y: 1 } },
        Cannonball { pos: Position { x: 2, y: 2 } },
    ];
    for id in 0..10u8 {
        if let Some(p) = spawn_random_player(&grid, &players, &cannonballs, id, format!("player-{}", id)) {
            assert!(!cannonballs.iter().any(|c| c.pos == p.pos));
            players.push(p);
        }
    }
}

#[test]
fn test_cannonball_spawn_limit() {
    let grid = generate_grid(5, 5);
    let players = vec![];
    let cannonballs = spawn_random_cannonballs(&grid, &players, &vec![], 100);
    assert!(cannonballs.len() <= 25);
}

#[test]
fn test_break_tile_replaces_with_lava() {
    let mut state = state_with(generate_grid(5, 5), vec![], vec![]);
    break_tile(&mut state);
    let lava_count = state.grid.iter().flatten().filter(|&&c| c == Cell::Broken).count();
    assert_eq!(lava_count, 1);
}

#[test]
fn cell_predicates() {
    assert!(Cell::Solid.is_solid());
    assert!(!Cell::Cracked.is_solid());
    assert!(Cell::Broken.is_broken());
    assert!(!Cell::Solid.is_broken());
}

#[test]
fn moves_stay_on_the_grid() {
    let player = Player::new(1, Position { x: 0, y: 4 }, "ann".to_string());
    let mut state = state_with(generate_grid(5, 5), vec![player], vec![]);
    assert_eq!(move_player(&mut state, 0, Direction::Up), Position { x: 0, y: 4 });
    assert_eq!(move_player(&mut state, 0, Direction::Right), Position { x: 0, y: 4 });
    assert_eq!(move_player(&mut state, 0, Direction::Down), Position { x: 1, y: 4 });
    assert_eq!(move_player(&mut state, 0, Direction::Left), Position { x: 1, y: 3 });
    assert_eq!(move_player(&mut state, 0, Direction::Stay), Position { x: 1, y: 3 });
    assert_eq!(state.players[0].pos, Position { x: 1, y: 3 });
}

#[test]
fn shooting_needs_a_cannonball_and_a_fresh_target() {
    let mut player = Player::new(1, Position { x: 0, y: 0 }, "ann".to_string());
    player.cannonball_count = 2;
    let mut state = state_with(generate_grid(5, 5), vec![player], vec![]);
    shoot_cannonball(&mut state, 0, 3, 3);
    assert_eq!(state.targeted_tiles.len(), 1);
    assert_eq!(state.players[0].cannonball_count, 1);
    shoot_cannonball(&mut state, 0, 3, 3);
    assert_eq!(state.targeted_tiles.len(), 1);
    assert_eq!(state.players[0].cannonball_count, 1);
    shoot_cannonball(&mut state, 0, 9, 9);
    assert_eq!(state.targeted_tiles.len(), 1);
    shoot_cannonball(&mut state, 0, 1, 2);
    assert_eq!(state.players[0].cannonball_count, 0);
    shoot_cannonball(&mut state, 0, 4, 4);
    assert_eq!(state.targeted_tiles.len(), 2);
    resolve_cannonball_hits(&mut state);
    assert!(state.targeted_tiles.is_empty());
    assert_eq!(state.grid[3][3], Cell::Broken);
    assert_eq!(state.grid[1][2], Cell::Broken);
    assert_eq!(state.grid[4][4], Cell::Solid);
}

#[test]
fn player_off_the_grid_dies() {
    let player = Player::new(1, Position { x: 7, y: 0 }, "ann".to_string());
    let mut state = state_with(generate_grid(5, 5), vec![player], vec![]);
    apply_player_rules(&mut state, 0);
    assert!(!state.players[0].is_alive);
}

#[test]
fn cracked_mode_cracks_then_breaks() {
    let mut grid = generate_grid(3, 3);
    grid[0][0] = Cell::Cracked;
    let mut state = state_with(grid, vec![], vec![]);
    state.mode = GameMode::Cracked;
    break_tile(&mut state);
    assert_eq!(state.grid[0][0], Cell::Broken);
    let cracked = state.grid.iter().flatten().filter(|&&c| c == Cell::Cracked).count();
    assert_eq!(cracked, 1);
}

#[test]
fn break_tile_on_lava_only_grid_changes_nothing() {
    let mut state = state_with(vec![vec![Cell::Broken; 2]; 2], vec![], vec![]);
    break_tile(&mut state);
    assert!(state.grid.iter().flatten().all(|&c| c == Cell::Broken));
}

#[test]
fn break_tile_removes_the_cannonball_on_the_tile() {
    let mut grid = vec![vec![Cell::Broken; 2]; 2];
    grid[1][1] = Cell::Solid;
    let mut state = state_with(grid, vec![], vec![Cannonball { pos: Position { x: 1, y: 1 } }]);
    apply_rules(&mut state);
    assert_eq!(state.grid[1][1], Cell::Broken);
    assert!(state.cannonballs.is_empty());
}

#[test]
fn next_turn_counts_and_kills_on_lava() {
    let mut grid = vec![vec![Cell::Broken; 2]; 2];
    grid[0][0] = Cell::Solid;
    let player = Player::new(1, Position { x: 0, y: 0 }, "ann".to_string());
    let mut state = state_with(grid, vec![player], vec![]);
    state.next_turn();
    assert_eq!(state.turn, 2);
    assert_eq!(state.grid[0][0], Cell::Broken);
    assert!(!state.players[0].is_alive);
}

#[test]
fn cannonballs_spawn_on_distinct_free_tiles() {
    let grid = generate_grid(5, 5);
    let players = vec![Player::new(1, Position { x: 0, y: 0 }, "ann".to_string())];
    let existing = vec![Cannonball { pos: Position { x: 1, y: 1 } }];
    let balls = spawn_random_cannonballs(&grid, &players, &existing, 3);
    assert_eq!(balls.len(), 3);
    for (i, b) in balls.iter().enumerate() {
        assert_ne!(b.pos, Position { x: 0, y: 0 });
        assert_ne!(b.pos, Position { x: 1, y: 1 });
        assert!(balls[i + 1..].iter().all(|o| o.pos != b.pos));
    }
    let all = spawn_random_cannonballs(&grid, &players, &existing, 100);
    assert_eq!(all.len(), 23);
}

#[test]
fn new_game_places_everyone() {
    let infos = vec![
        PlayerInfo { id: "w1".to_string(), username: "ann".to_string() },
        PlayerInfo { id: "w2".to_string(), username: "bob".to_string() },
    ];
    let state = GameState::new(5, 5, infos, GameMode::Cracked);
    assert_eq!(state.turn, 1);
    assert_eq!(state.mode, GameMode::Cracked);
    assert_eq!(state.players.len(), 2);
    assert_eq!(state.players[0].id, 1);
    assert_eq!(state.players[1].username, "bob");
    assert_ne!(state.players[0].pos, state.players[1].pos);
    assert!(!state.cannonballs.is_empty() && state.cannonballs.len() <= 3);
    for c in &state.cannonballs {
        assert!(state.players.iter().all(|p| p.pos != c.pos));
    }
}

#[test]
fn new_game_places_full_roster_in_order() {
    let infos: Vec<PlayerInfo> = (0..4)
        .map(|i| PlayerInfo { id: format!("w{}", i), username: format!("user{}", i) })
        .collect();
    let state = GameState::new(2, 2, infos, GameMode::Classic);
    assert_eq!(state.players.len(), 4);
    for (i, p) in state.players.iter().enumerate() {
        assert_eq!(p.id as usize, i + 1);
        assert_eq!(p.username, format!("user{}", i));
    }
    assert!(state.cannonballs.is_empty());
}

#[test]
fn chosen_tile_is_the_pick_in_row_order() {
    let mut state = state_with(generate_grid(2, 2), vec![], vec![]);
    break_tile_at(&mut state, 2);
    assert_eq!(state.grid[1][0], Cell::Broken);
    assert_eq!(state.grid.iter().flatten().filter(|&&c| c == Cell::Broken).count(), 1);
    break_tile_at(&mut state, 5);
    assert_eq!(state.grid[1][1], Cell::Broken);
    assert_eq!(state.grid[0][1], Cell::Solid);
}

#[test]
fn chosen_spawn_skips_occupied_tiles() {
    let grid = generate_grid(2, 2);
    let players = vec![Player::new(1, Position { x: 0, y: 0 }, "ann".to_string())];
    let cannonballs = vec![Cannonball { pos: Position { x: 1, y: 0 } }];
    let p = spawn_player_at(&grid, &players, &cannonballs, 2, "bob".to_string(), 1).unwrap();
    assert_eq!(p.pos, Position { x: 1, y: 1 });
    let q = spawn_player_at(&grid, &players, &cannonballs, 2, "bob".to_string(), 0).unwrap();
    assert_eq!(q.pos, Position { x: 0, y: 1 });
}
