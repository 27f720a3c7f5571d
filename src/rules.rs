//! The rules engine: pure state transitions of a game.

use vstd::prelude::*;
use vstd::arithmetic::div_mod::{lemma_fundamental_div_mod, lemma_mod_pos_bound};
use vstd::set_lib::{lemma_int_range, lemma_len_subset, lemma_subset_equality, set_int_range};
use vstd::seq_lib::seq_to_set_is_finite;
use crate::random::{choose_indices, random_below};
use crate::game::{
    cell_at, cols_of, count_alive, in_bounds, is_rectangular, same_shape, Cannonball, Cell,
    Direction, GameMode, GameState, Player, PlayerAction, PlayerInfo, Position, TargetedTile,
    generate_grid,
};

verus! {

/// Where a step in direction `d` from `pos` lands on a `rows` x `cols` grid;
/// a step off the edge leaves the position unchanged.
pub open spec fn step(pos: Position, d: Direction, rows: int, cols: int) -> Position {
    match d {
        Direction::Up => if pos.x > 0 {
            Position { x: (pos.x - 1) as usize, y: pos.y }
        } else {
            pos
        },
        Direction::Down => if pos.x + 1 < rows {
            Position { x: (pos.x + 1) as usize, y: pos.y }
        } else {
            pos
        },
        Direction::Left => if pos.y > 0 {
            Position { x: pos.x, y: (pos.y - 1) as usize }
        } else {
            pos
        },
        Direction::Right => if pos.y + 1 < cols {
            Position { x: pos.x, y: (pos.y + 1) as usize }
        } else {
            pos
        },
        Direction::Stay => pos,
    }
}

/// `p` with its position replaced.
pub open spec fn with_pos(p: Player, pos: Position) -> Player {
    Player { pos, ..p }
}

/// `p` with its cannonball count replaced.
pub open spec fn with_count(p: Player, n: u32) -> Player {
    Player { cannonball_count: n, ..p }
}

/// `p` with its liveness replaced.
pub open spec fn with_alive(p: Player, alive: bool) -> Player {
    Player { is_alive: alive, ..p }
}

/// Everything but the players is the same in `a` and `b`.
pub open spec fn same_but_players(a: GameState, b: GameState) -> bool {
    &&& a.grid@ == b.grid@
    &&& a.cannonballs@ == b.cannonballs@
    &&& a.turn == b.turn
    &&& a.targeted_tiles@ == b.targeted_tiles@
    &&& a.mode == b.mode
}

/// `k` is the first index of a cannonball lying at `p`.
pub open spec fn first_at(cbs: Seq<Cannonball>, p: Position, k: int) -> bool {
    &&& 0 <= k < cbs.len()
    &&& cbs[k].pos == p
    &&& forall|j: int| 0 <= j < k ==> (#[trigger] cbs[j]).pos != p
}

/// Some cannonball lies at `p`.
pub open spec fn has_cannonball_at(cbs: Seq<Cannonball>, p: Position) -> bool {
    exists|k: int| 0 <= k < cbs.len() && (#[trigger] cbs[k]).pos == p
}

/// `new` is `old` without its first cannonball at `p`, or `old` itself when
/// none lies there.
pub open spec fn taken_at(old: Seq<Cannonball>, new: Seq<Cannonball>, p: Position) -> bool {
    if has_cannonball_at(old, p) {
        exists|k: int| first_at(old, p, k) && new == old.remove(k)
    } else {
        new == old
    }
}

/// The tile `(x, y)` is already targeted.
pub open spec fn is_targeted(ts: Seq<TargetedTile>, x: int, y: int) -> bool {
    exists|k: int| 0 <= k < ts.len() && (#[trigger] ts[k]).x == x && ts[k].y == y
}

/// What `apply_player_rules` does to player `i`: they pick up the first
/// cannonball lying under them (the count saturates), and die when they stand
/// on lava or off the grid.
pub open spec fn player_rules_post(o: GameState, f: GameState, i: int) -> bool {
    let p = o.players@[i];
    let picked = has_cannonball_at(o.cannonballs@, p.pos);
    let count = if picked && p.cannonball_count < u32::MAX {
        (p.cannonball_count + 1) as u32
    } else {
        p.cannonball_count
    };
    let dies = !in_bounds(o.grid@, p.pos.x as int, p.pos.y as int) || cell_at(
        o.grid@,
        p.pos.x as int,
        p.pos.y as int,
    ) == Cell::Broken;
    &&& taken_at(o.cannonballs@, f.cannonballs@, p.pos)
    &&& f.players@ == o.players@.update(i, with_alive(with_count(p, count), p.is_alive && !dies))
    &&& f.grid@ == o.grid@
    &&& f.turn == o.turn
    &&& f.targeted_tiles@ == o.targeted_tiles@
    &&& f.mode == o.mode
}

/// What `move_player` does to player `i`.
pub open spec fn move_post(o: GameState, f: GameState, i: int, d: Direction) -> bool {
    let r = step(o.players@[i].pos, d, o.grid@.len() as int, cols_of(o.grid@));
    &&& f.players@ == o.players@.update(i, with_pos(o.players@[i], r))
    &&& same_but_players(o, f)
}

/// What `shoot_cannonball` does for player `i` aiming at `(x, y)`.
pub open spec fn shoot_post(o: GameState, f: GameState, i: int, x: usize, y: usize) -> bool {
    let p = o.players@[i];
    if p.cannonball_count > 0 && in_bounds(o.grid@, x as int, y as int) && !is_targeted(
        o.targeted_tiles@,
        x as int,
        y as int,
    ) {
        &&& f.targeted_tiles@ == o.targeted_tiles@.push(TargetedTile { x, y })
        &&& f.players@ == o.players@.update(i, with_count(p, (p.cannonball_count - 1) as u32))
        &&& f.grid@ == o.grid@
        &&& f.cannonballs@ == o.cannonballs@
        &&& f.turn == o.turn
        &&& f.mode == o.mode
    } else {
        f == o
    }
}

/// What an action of player `i` does before the per-player rules run.
pub open spec fn action_post(o: GameState, f: GameState, i: int, action: PlayerAction) -> bool {
    match action {
        PlayerAction::Move(d) => move_post(o, f, i, d),
        PlayerAction::Shoot { x, y } => shoot_post(o, f, i, x, y),
    }
}

/// Removes the first cannonball lying at `p`; returns whether there was one.
fn take_cannonball_at(cbs: &mut Vec<Cannonball>, p: Position) -> (found: bool)
    ensures
        found == has_cannonball_at(old(cbs)@, p),
        taken_at(old(cbs)@, final(cbs)@, p),
{
    let mut i: usize = 0;
    while i < cbs.len()
        invariant
            i <= cbs@.len(),
            cbs@ == old(cbs)@,
            forall|j: int| 0 <= j < i ==> (#[trigger] cbs@[j]).pos != p,
        decreases cbs@.len() - i,
    {
        if cbs[i].pos == p {
            cbs.remove(i);
            assert(first_at(old(cbs)@, p, i as int));
            return true;
        }
        i = i + 1;
    }
    assert(!has_cannonball_at(old(cbs)@, p));
    false
}

/// Moves player `player_index` one step in `direction`, staying on the grid,
/// and returns the new position.
pub fn move_player(game_state: &mut GameState, player_index: usize, direction: Direction) -> (r:
    Position)
    requires
        player_index < old(game_state).players@.len(),
    ensures
        r == step(
            old(game_state).players@[player_index as int].pos,
            direction,
            old(game_state).grid@.len() as int,
            cols_of(old(game_state).grid@),
        ),
        move_post(*old(game_state), *final(game_state), player_index as int, direction),
{
    let rows = game_state.grid.len();
    let cols = if rows > 0 {
        game_state.grid[0].len()
    } else {
        0
    };
    let pos = game_state.players[player_index].pos;
    let new_pos = match direction {
        Direction::Up => if pos.x > 0 {
            Position { x: pos.x - 1, y: pos.y }
        } else {
            pos
        },
        Direction::Down => if rows > 0 && pos.x < rows - 1 {
            Position { x: pos.x + 1, y: pos.y }
        } else {
            pos
        },
        Direction::Left => if pos.y > 0 {
            Position { x: pos.x, y: pos.y - 1 }
        } else {
            pos
        },
        Direction::Right => if cols > 0 && pos.y < cols - 1 {
            Position { x: pos.x, y: pos.y + 1 }
        } else {
            pos
        },
        Direction::Stay => pos,
    };
    game_state.players[player_index].pos = new_pos;
    new_pos
}

/// Targets tile `(x, y)` with one of the player's cannonballs: done only when
/// the player holds one, the tile is on the grid and not yet targeted.
pub fn shoot_cannonball(game_state: &mut GameState, player_id: usize, x: usize, y: usize)
    requires
        player_id < old(game_state).players@.len(),
        old(game_state).wf(),
    ensures
        final(game_state).wf(),
        shoot_post(*old(game_state), *final(game_state), player_id as int, x, y),
{
    if game_state.players[player_id].cannonball_count == 0 {
        return;
    }
    if x >= game_state.grid.len() || y >= game_state.grid[x].len() {
        return;
    }
    let mut k: usize = 0;
    while k < game_state.targeted_tiles.len()
        invariant
            k <= game_state.targeted_tiles@.len(),
            *game_state == *old(game_state),
            old(game_state).wf(),
            player_id < old(game_state).players@.len(),
            forall|j: int|
                0 <= j < k ==> !((#[trigger] game_state.targeted_tiles@[j]).x == x
                    && game_state.targeted_tiles@[j].y == y),
        decreases game_state.targeted_tiles@.len() - k,
    {
        if game_state.targeted_tiles[k].x == x && game_state.targeted_tiles[k].y == y {
            return;
        }
        k = k + 1;
    }
    game_state.targeted_tiles.push(TargetedTile { x, y });
    let n = game_state.players[player_id].cannonball_count;
    game_state.players[player_id].cannonball_count = n - 1;
}

/// Rules that touch one player after they act: they pick up the first
/// cannonball lying under them, and die when they stand on lava or off the grid.
pub fn apply_player_rules(game_state: &mut GameState, player_index: usize)
    requires
        player_index < old(game_state).players@.len(),
    ensures
        player_rules_post(*old(game_state), *final(game_state), player_index as int),
{
    let pos = game_state.players[player_index].pos;
    let picked = take_cannonball_at(&mut game_state.cannonballs, pos);
    if picked && game_state.players[player_index].cannonball_count < u32::MAX {
        let n = game_state.players[player_index].cannonball_count;
        game_state.players[player_index].cannonball_count = n + 1;
    }
    let dies = if pos.x < game_state.grid.len() && pos.y < game_state.grid[pos.x].len() {
        game_state.grid[pos.x][pos.y] == Cell::Broken
    } else {
        true
    };
    if dies {
        game_state.players[player_index].is_alive = false;
    }
    proof {
        let o = *old(game_state);
        let f = *game_state;
        let p = o.players@[player_index as int];
        let count = if picked && p.cannonball_count < u32::MAX {
            (p.cannonball_count + 1) as u32
        } else {
            p.cannonball_count
        };
        assert(f.players@ =~= o.players@.update(
            player_index as int,
            with_alive(with_count(p, count), p.is_alive && !dies),
        ));
    }
}

/// Breaks every targeted tile and clears the targets.
pub fn resolve_cannonball_hits(game_state: &mut GameState)
    requires
        old(game_state).wf(),
    ensures
        hits_post(*old(game_state), *final(game_state)),
{
    let n = game_state.targeted_tiles.len();
    let mut k: usize = 0;
    while k < n
        invariant
            k <= n == game_state.targeted_tiles@.len(),
            game_state.targeted_tiles@ == old(game_state).targeted_tiles@,
            game_state.wf(),
            same_shape(old(game_state).grid@, game_state.grid@),
            forall|x: int, y: int|
                in_bounds(old(game_state).grid@, x, y) ==> #[trigger] cell_at(
                    game_state.grid@,
                    x,
                    y,
                ) == if exists|j: int|
                    0 <= j < k && (#[trigger] game_state.targeted_tiles@[j]).x == x
                        && game_state.targeted_tiles@[j].y == y {
                    Cell::Broken
                } else {
                    cell_at(old(game_state).grid@, x, y)
                },
            game_state.players@ == old(game_state).players@,
            game_state.cannonballs@ == old(game_state).cannonballs@,
            game_state.turn == old(game_state).turn,
            game_state.mode == old(game_state).mode,
        decreases n - k,
    {
        let t = game_state.targeted_tiles[k];
        assert(in_bounds(game_state.grid@, t.x as int, t.y as int));
        let ghost g0 = game_state.grid@;
        game_state.grid[t.x][t.y] = Cell::Broken;
        proof {
            let ts = game_state.targeted_tiles@;
            assert forall|x: int, y: int| in_bounds(old(game_state).grid@, x, y) implies #[trigger] cell_at(
                game_state.grid@,
                x,
                y,
            ) == if exists|j: int|
                0 <= j < k + 1 && (#[trigger] ts[j]).x == x && ts[j].y == y {
                Cell::Broken
            } else {
                cell_at(old(game_state).grid@, x, y)
            } by {
                let before = exists|j: int| 0 <= j < k && (#[trigger] ts[j]).x == x && ts[j].y == y;
                assert(cell_at(g0, x, y) == if before {
                    Cell::Broken
                } else {
                    cell_at(old(game_state).grid@, x, y)
                });
                if x == t.x && y == t.y {
                    assert(ts[k as int].x == x && ts[k as int].y == y);
                } else {
                    assert(cell_at(game_state.grid@, x, y) == cell_at(g0, x, y));
                    if exists|j: int| 0 <= j < k + 1 && (#[trigger] ts[j]).x == x && ts[j].y == y {
                        let j = choose|j: int| 0 <= j < k + 1 && (#[trigger] ts[j]).x == x && ts[j].y == y;
                        assert(j != k);
                        assert(before);
                    }
                }
            }
            assert forall|r: int| 0 <= r < game_state.grid@.len() implies #[trigger] game_state.grid@[r]@.len()
                == cols_of(game_state.grid@) by {
                assert(g0[r]@.len() == cols_of(g0));
            }
        }
        k = k + 1;
    }
    game_state.targeted_tiles.clear();
}

} // verus!

verus! {

/// Applied to every cell before a tile breaks: in `Cracked` mode cracked
/// tiles turn to lava.
pub open spec fn pre_break(mode: GameMode, c: Cell) -> Cell {
    if mode == GameMode::Cracked && c == Cell::Cracked {
        Cell::Broken
    } else {
        c
    }
}

/// What the tile picked each turn becomes.
pub open spec fn break_result(mode: GameMode) -> Cell {
    match mode {
        GameMode::Classic => Cell::Broken,
        GameMode::Cracked => Cell::Cracked,
    }
}

/// Some tile of the grid is solid.
pub open spec fn has_solid(grid: Seq<Vec<Cell>>) -> bool {
    exists|x: int, y: int| in_bounds(grid, x, y) && #[trigger] cell_at(grid, x, y) == Cell::Solid
}

/// `(x, y)` is listed in `ps`.
pub open spec fn listed(ps: Seq<Position>, x: int, y: int) -> bool {
    exists|k: int| 0 <= k < ps.len() && (#[trigger] ps[k]).x == x && ps[k].y == y
}

/// What `break_tile` does: every cell passes through `pre_break`, then, when
/// a solid tile exists, one solid tile becomes `break_result` and the first
/// cannonball lying on it is removed.
pub open spec fn break_tile_post(o: GameState, f: GameState) -> bool {
    &&& f.wf()
    &&& same_shape(o.grid@, f.grid@)
    &&& f.players@ == o.players@
    &&& f.turn == o.turn
    &&& f.mode == o.mode
    &&& f.targeted_tiles@ == o.targeted_tiles@
    &&& if has_solid(o.grid@) {
        exists|x: int, y: int|
            in_bounds(o.grid@, x, y) && #[trigger] cell_at(o.grid@, x, y) == Cell::Solid
                && tile_broken_at(o, f, x, y)
    } else {
        &&& forall|a: int, b: int|
            in_bounds(o.grid@, a, b) ==> #[trigger] cell_at(f.grid@, a, b) == pre_break(
                o.mode,
                cell_at(o.grid@, a, b),
            )
        &&& f.cannonballs@ == o.cannonballs@
    }
}

/// The tile `(x, y)` was the one picked by `break_tile`.
pub open spec fn tile_broken_at(o: GameState, f: GameState, x: int, y: int) -> bool {
    &&& forall|a: int, b: int|
        in_bounds(o.grid@, a, b) ==> #[trigger] cell_at(f.grid@, a, b) == if a == x && b == y {
            break_result(o.mode)
        } else {
            pre_break(o.mode, cell_at(o.grid@, a, b))
        }
    &&& taken_at(o.cannonballs@, f.cannonballs@, Position { x: x as usize, y: y as usize })
}

/// What `resolve_cannonball_hits` does.
pub open spec fn hits_post(o: GameState, f: GameState) -> bool {
    &&& f.wf()
    &&& f.targeted_tiles@.len() == 0
    &&& same_shape(o.grid@, f.grid@)
    &&& forall|x: int, y: int|
        in_bounds(o.grid@, x, y) ==> #[trigger] cell_at(f.grid@, x, y) == if is_targeted(
            o.targeted_tiles@,
            x,
            y,
        ) {
            Cell::Broken
        } else {
            cell_at(o.grid@, x, y)
        }
    &&& f.players@ == o.players@
    &&& f.cannonballs@ == o.cannonballs@
    &&& f.turn == o.turn
    &&& f.mode == o.mode
}

/// `ps` lists every solid tile of the grid, once each, in row order.
pub open spec fn solid_in_order(grid: Seq<Vec<Cell>>, ps: Seq<Position>) -> bool {
    &&& forall|k: int|
        0 <= k < ps.len() ==> in_bounds(grid, (#[trigger] ps[k]).x as int, ps[k].y as int)
            && cell_at(grid, ps[k].x as int, ps[k].y as int) == Cell::Solid
    &&& forall|x: int, y: int| in_bounds(grid, x, y) && #[trigger] cell_at(grid, x, y) == Cell::Solid ==> listed(ps, x, y)
    &&& forall|i: int, j: int| 0 <= i < j < ps.len() ==> pos_lt(ps[i], ps[j])
}

/// Every solid tile of the grid, each listed once.
fn solid_tiles(grid: &Vec<Vec<Cell>>) -> (r: Vec<Position>)
    ensures
        forall|k: int|
            0 <= k < r@.len() ==> in_bounds(grid@, (#[trigger] r@[k]).x as int, r@[k].y as int)
                && cell_at(grid@, r@[k].x as int, r@[k].y as int) == Cell::Solid,
        forall|x: int, y: int|
            in_bounds(grid@, x, y) && #[trigger] cell_at(grid@, x, y) == Cell::Solid ==> listed(
                r@,
                x,
                y,
            ),
        forall|i: int, j: int| 0 <= i < j < r@.len() ==> pos_lt(r@[i], r@[j]),
        solid_in_order(grid@, r@),
{
    let mut out: Vec<Position> = Vec::new();
    let mut x: usize = 0;
    while x < grid.len()
        invariant
            x <= grid@.len(),
            forall|k: int|
                0 <= k < out@.len() ==> in_bounds(grid@, (#[trigger] out@[k]).x as int, out@[k].y as int)
                    && cell_at(grid@, out@[k].x as int, out@[k].y as int) == Cell::Solid,
            forall|a: int, b: int|
                0 <= a < x && in_bounds(grid@, a, b) && #[trigger] cell_at(grid@, a, b) == Cell::Solid
                    ==> listed(out@, a, b),
            forall|i: int, j: int| 0 <= i < j < out@.len() ==> pos_lt(out@[i], out@[j]),
            forall|i: int| 0 <= i < out@.len() ==> (#[trigger] out@[i]).x < x,
        decreases grid@.len() - x,
    {
        let mut y: usize = 0;
        while y < grid[x].len()
            invariant
                x < grid@.len(),
                y <= grid@[x as int]@.len(),
                forall|k: int|
                    0 <= k < out@.len() ==> in_bounds(grid@, (#[trigger] out@[k]).x as int, out@[k].y as int)
                        && cell_at(grid@, out@[k].x as int, out@[k].y as int) == Cell::Solid,
                forall|a: int, b: int|
                    ((0 <= a < x) || (a == x && 0 <= b < y)) && in_bounds(grid@, a, b) && #[trigger] cell_at(grid@, a, b)
                        == Cell::Solid ==> listed(out@, a, b),
                forall|i: int, j: int| 0 <= i < j < out@.len() ==> pos_lt(out@[i], out@[j]),
                forall|i: int| 0 <= i < out@.len() ==> pos_lt(#[trigger] out@[i], Position { x, y }),
            decreases grid@[x as int]@.len() - y,
        {
            if grid[x][y] == Cell::Solid {
                let ghost before = out@;
                out.push(Position { x, y });
                proof {
                    assert forall|i: int, j: int| 0 <= i < j < out@.len() implies pos_lt(out@[i], out@[j]) by {
                        assert(out@[i] == before[i]);
                        if j < before.len() {
                            assert(out@[j] == before[j]);
                        }
                    }
                    assert forall|i: int| 0 <= i < out@.len() implies pos_lt(#[trigger] out@[i], Position { x, y: (y + 1) as usize }) by {
                        if i < before.len() {
                            assert(out@[i] == before[i]);
                        }
                    }
                    assert forall|a: int, b: int|
                        ((0 <= a < x) || (a == x && 0 <= b < y + 1)) && in_bounds(grid@, a, b)
                            && #[trigger] cell_at(grid@, a, b) == Cell::Solid implies listed(out@, a, b) by {
                        if a == x && b == y {
                            assert(out@[before.len() as int] == Position { x, y });
                        } else {
                            let k = choose|k: int| 0 <= k < before.len() && (#[trigger] before[k]).x == a && before[k].y == b;
                            assert(out@[k] == before[k]);
                        }
                    }
                }
            }
            y = y + 1;
        }
        assert forall|i: int| 0 <= i < out@.len() implies (#[trigger] out@[i]).x < x + 1 by {
            assert(pos_lt(out@[i], Position { x, y }));
        }
        x = x + 1;
    }
    out
}

/// In `Cracked` mode turns every cracked tile of `row` to lava.
fn settle_row(row: &mut Vec<Cell>, mode: GameMode)
    ensures
        final(row)@.len() == old(row)@.len(),
        forall|j: int| 0 <= j < old(row)@.len() ==> #[trigger] final(row)@[j] == pre_break(mode, old(row)@[j]),
{
    let n = row.len();
    let mut j: usize = 0;
    while j < n
        invariant
            j <= n == row@.len() == old(row)@.len(),
            forall|i: int| 0 <= i < j ==> #[trigger] row@[i] == pre_break(mode, old(row)@[i]),
            forall|i: int| j <= i < n ==> #[trigger] row@[i] == old(row)@[i],
        decreases n - j,
    {
        if mode == GameMode::Cracked && row[j] == Cell::Cracked {
            row[j] = Cell::Broken;
        }
        j = j + 1;
    }
}

/// Breaks one tile for the turn according to the game mode: in `Classic`
/// mode a random solid tile becomes lava; in `Cracked` mode every cracked tile
/// becomes lava and then a random solid tile cracks. A cannonball lying on the
/// picked tile is removed.
pub fn break_tile(game_state: &mut GameState)
    requires
        old(game_state).wf(),
    ensures
        break_tile_post(*old(game_state), *final(game_state)),
{
    let n = solid_tiles(&game_state.grid).len();
    let pick = if n > 0 {
        random_below(n)
    } else {
        0
    };
    break_tile_at(game_state, pick);
}

/// `break_tile` with the tile chosen by the caller: the picked tile is the
/// solid tile at position `pick` (modulo their number) in row order.
pub fn break_tile_at(game_state: &mut GameState, pick: usize)
    requires
        old(game_state).wf(),
    ensures
        break_tile_post(*old(game_state), *final(game_state)),
        has_solid(old(game_state).grid@) ==> exists|ps: Seq<Position>|
            #[trigger] solid_in_order(old(game_state).grid@, ps) && ps.len() > 0 && tile_broken_at(
                *old(game_state),
                *final(game_state),
                ps[pick as int % (ps.len() as int)].x as int,
                ps[pick as int % (ps.len() as int)].y as int,
            ),
{
    let mode = game_state.mode;
    let rows = game_state.grid.len();
    let mut r: usize = 0;
    while r < rows
        invariant
            r <= rows == game_state.grid@.len(),
            old(game_state).wf(),
            same_shape(old(game_state).grid@, game_state.grid@),
            mode == old(game_state).mode,
            forall|a: int, b: int|
                in_bounds(old(game_state).grid@, a, b) ==> #[trigger] cell_at(game_state.grid@, a, b)
                    == if a < r {
                    pre_break(mode, cell_at(old(game_state).grid@, a, b))
                } else {
                    cell_at(old(game_state).grid@, a, b)
                },
            game_state.players@ == old(game_state).players@,
            game_state.cannonballs@ == old(game_state).cannonballs@,
            game_state.targeted_tiles@ == old(game_state).targeted_tiles@,
            game_state.turn == old(game_state).turn,
            game_state.mode == old(game_state).mode,
        decreases rows - r,
    {
        let ghost g0 = game_state.grid@;
        settle_row(&mut game_state.grid[r], mode);
        proof {
            assert forall|a: int, b: int| in_bounds(old(game_state).grid@, a, b) implies #[trigger] cell_at(
                game_state.grid@,
                a,
                b,
            ) == if a < r + 1 {
                pre_break(mode, cell_at(old(game_state).grid@, a, b))
            } else {
                cell_at(old(game_state).grid@, a, b)
            } by {
                assert(cell_at(g0, a, b) == if a < r {
                    pre_break(mode, cell_at(old(game_state).grid@, a, b))
                } else {
                    cell_at(old(game_state).grid@, a, b)
                });
                if a != r {
                    assert(game_state.grid@[a] == g0[a]);
                } else {
                    assert(old(game_state).grid@[a]@.len() == g0[a]@.len());
                    assert(game_state.grid@[a]@[b] == pre_break(mode, g0[a]@[b]));
                }
            }
        }
        r = r + 1;
    }
    assert(game_state.wf()) by {
        assert forall|i: int| 0 <= i < game_state.grid@.len() implies #[trigger] game_state.grid@[i]@.len()
            == cols_of(game_state.grid@) by {
            assert(old(game_state).grid@[i]@.len() == cols_of(old(game_state).grid@));
        }
        assert forall|k: int| 0 <= k < game_state.targeted_tiles@.len() implies in_bounds(
            game_state.grid@,
            #[trigger] game_state.targeted_tiles@[k].x as int,
            game_state.targeted_tiles@[k].y as int,
        ) by {
            let t = game_state.targeted_tiles@[k];
            assert(in_bounds(old(game_state).grid@, t.x as int, t.y as int));
        }
    }
    let solid = solid_tiles(&game_state.grid);
    if solid.len() == 0 {
        proof {
            assert forall|x: int, y: int| in_bounds(old(game_state).grid@, x, y) implies #[trigger] cell_at(
                old(game_state).grid@,
                x,
                y,
            ) != Cell::Solid by {
                if cell_at(old(game_state).grid@, x, y) == Cell::Solid {
                    assert(cell_at(game_state.grid@, x, y) == Cell::Solid);
                    assert(listed(solid@, x, y));
                }
            }
        }
        return;
    }
    proof {
        let o = *old(game_state);
        let g1 = game_state.grid@;
        assert forall|k: int| 0 <= k < solid@.len() implies in_bounds(o.grid@, (#[trigger] solid@[k]).x as int, solid@[k].y as int)
            && cell_at(o.grid@, solid@[k].x as int, solid@[k].y as int) == Cell::Solid by {
            let q = solid@[k];
            assert(g1[q.x as int]@.len() == o.grid@[q.x as int]@.len());
            assert(cell_at(g1, q.x as int, q.y as int) == pre_break(mode, cell_at(o.grid@, q.x as int, q.y as int)));
        }
        assert forall|x: int, y: int| in_bounds(o.grid@, x, y) && #[trigger] cell_at(o.grid@, x, y) == Cell::Solid implies listed(solid@, x, y) by {
            assert(cell_at(g1, x, y) == pre_break(mode, cell_at(o.grid@, x, y)));
        }
        assert(solid_in_order(o.grid@, solid@));
    }
    let k = pick % solid.len();
    let p = solid[k];
    let ghost g1 = game_state.grid@;
    take_cannonball_at(&mut game_state.cannonballs, p);
    let c = match mode {
        GameMode::Classic => Cell::Broken,
        GameMode::Cracked => Cell::Cracked,
    };
    game_state.grid[p.x][p.y] = c;
    proof {
        let o = *old(game_state);
        let f = *game_state;
        assert(in_bounds(g1, p.x as int, p.y as int));
        assert(cell_at(o.grid@, p.x as int, p.y as int) == Cell::Solid);
        assert forall|a: int, b: int| in_bounds(o.grid@, a, b) implies #[trigger] cell_at(f.grid@, a, b)
            == if a == p.x && b == p.y {
            break_result(o.mode)
        } else {
            pre_break(o.mode, cell_at(o.grid@, a, b))
        } by {
            assert(cell_at(g1, a, b) == pre_break(o.mode, cell_at(o.grid@, a, b)));
        }
        assert(tile_broken_at(o, f, p.x as int, p.y as int));
        assert(solid_in_order(o.grid@, solid@));
        assert(has_solid(o.grid@));
        assert forall|i: int| 0 <= i < f.grid@.len() implies #[trigger] f.grid@[i]@.len() == cols_of(
            f.grid@,
        ) by {
            assert(g1[i]@.len() == cols_of(g1));
        }
        assert forall|i: int| 0 <= i < f.targeted_tiles@.len() implies in_bounds(
            f.grid@,
            #[trigger] f.targeted_tiles@[i].x as int,
            f.targeted_tiles@[i].y as int,
        ) by {
            let t = f.targeted_tiles@[i];
            assert(in_bounds(g1, t.x as int, t.y as int));
        }
    }
}

} // verus!

verus! {

/// What `apply_rules` does: a tile breaks, then the targeted tiles break.
pub open spec fn rules_post(o: GameState, f: GameState) -> bool {
    exists|m: GameState| break_tile_post(o, m) && hits_post(m, f)
}

/// `f` is `o` after the per-player rules ran for every player in order,
/// with the turn counter incremented.
pub open spec fn players_pass(o: GameState, f: GameState) -> bool {
    exists|states: Seq<GameState>|
        {
            &&& states.len() == o.players@.len() + 1
            &&& states[0] == o
            &&& forall|j: int|
                0 <= j < o.players@.len() ==> player_rules_post(
                    #[trigger] states[j],
                    states[j + 1],
                    j,
                )
            &&& f.grid@ == states.last().grid@
            &&& f.players@ == states.last().players@
            &&& f.cannonballs@ == states.last().cannonballs@
            &&& f.targeted_tiles@ == states.last().targeted_tiles@
            &&& f.mode == o.mode
            &&& f.turn == o.turn + 1
        }
}

/// Global rules at the end of a turn: break a tile, then resolve the shots.
pub fn apply_rules(game_state: &mut GameState)
    requires
        old(game_state).wf(),
    ensures
        final(game_state).wf(),
        rules_post(*old(game_state), *final(game_state)),
{
    break_tile(game_state);
    let ghost m = *game_state;
    resolve_cannonball_hits(game_state);
    assert(break_tile_post(*old(game_state), m) && hits_post(m, *game_state));
}

impl GameState {
    /// Applies one player's action (a move or a shot), then the rules that
    /// touch that player.
    pub fn apply_player_action(&mut self, action: PlayerAction, player_index: usize)
        requires
            old(self).wf(),
            player_index < old(self).players@.len(),
        ensures
            final(self).wf(),
            final(self).players@.len() == old(self).players@.len(),
            final(self).turn == old(self).turn,
            final(self).mode == old(self).mode,
            exists|m: GameState|
                action_post(*old(self), m, player_index as int, action) && player_rules_post(
                    m,
                    *final(self),
                    player_index as int,
                ),
    {
        match action {
            PlayerAction::Move(direction) => {
                move_player(self, player_index, direction);
            },
            PlayerAction::Shoot { x, y } => {
                shoot_cannonball(self, player_index, x, y);
            },
        }
        let ghost m = *self;
        apply_player_rules(self, player_index);
        assert(action_post(*old(self), m, player_index as int, action));
        assert(self.grid@ == m.grid@ && self.targeted_tiles@ == m.targeted_tiles@);
    }

    /// Ends the turn: global rules, then the per-player rules for every
    /// player in order, then the turn counter moves on.
    pub fn next_turn(&mut self)
        requires
            old(self).wf(),
            old(self).turn < u32::MAX,
        ensures
            final(self).wf(),
            final(self).players@.len() == old(self).players@.len(),
            final(self).turn == old(self).turn + 1,
            final(self).mode == old(self).mode,
            exists|m: GameState| rules_post(*old(self), m) && players_pass(m, *final(self)),
    {
        apply_rules(self);
        let ghost m = *self;
        let ghost mut states: Seq<GameState> = seq![m];
        let n = self.players.len();
        let mut i: usize = 0;
        while i < n
            invariant
                i <= n == self.players@.len() == m.players@.len(),
                states.len() == i + 1,
                states[0] == m,
                states.last() == *self,
                forall|j: int|
                    0 <= j < i ==> player_rules_post(#[trigger] states[j], states[j + 1], j),
                self.wf(),
                self.turn == m.turn,
                self.mode == m.mode,
                m.turn < u32::MAX,
            decreases n - i,
        {
            let ghost before = *self;
            apply_player_rules(self, i);
            proof {
                let ghost prev = states;
                states = states.push(*self);
                assert forall|j: int| 0 <= j < i + 1 implies player_rules_post(
                    #[trigger] states[j],
                    states[j + 1],
                    j,
                ) by {
                    if j < i {
                        assert(states[j] == prev[j] && states[j + 1] == prev[j + 1]);
                    } else {
                        assert(states[j] == before);
                    }
                }
                assert(self.grid@ == before.grid@ && self.targeted_tiles@ == before.targeted_tiles@);
            }
            i = i + 1;
        }
        self.turn = self.turn + 1;
        assert(players_pass(m, *self));
    }
}

/// Positions are ordered row first, then column.
pub open spec fn pos_lt(a: Position, b: Position) -> bool {
    a.x < b.x || (a.x == b.x && a.y < b.y)
}

/// Some player of `players` stands at `p`.
pub open spec fn occupied(players: Seq<Player>, p: Position) -> bool {
    exists|k: int| 0 <= k < players.len() && (#[trigger] players[k]).pos == p
}

/// `p` is a solid tile of the grid that no player stands on.
pub open spec fn free_for_player(grid: Seq<Vec<Cell>>, players: Seq<Player>, p: Position) -> bool {
    &&& in_bounds(grid, p.x as int, p.y as int)
    &&& cell_at(grid, p.x as int, p.y as int) == Cell::Solid
    &&& !occupied(players, p)
}

/// `ps` lists every free tile (solid, no player, no cannonball), once each,
/// in row order.
pub open spec fn free_in_order(grid: Seq<Vec<Cell>>, players: Seq<Player>, cbs: Seq<Cannonball>, ps: Seq<Position>) -> bool {
    &&& forall|k: int| 0 <= k < ps.len() ==> free_for_player(grid, players, #[trigger] ps[k]) && !has_cannonball_at(cbs, ps[k])
    &&& forall|p: Position|
        free_for_player(grid, players, p) && !has_cannonball_at(cbs, p) ==> #[trigger] listed(ps, p.x as int, p.y as int)
    &&& forall|i: int, j: int| 0 <= i < j < ps.len() ==> pos_lt(ps[i], ps[j])
}

/// Every solid tile that no player stands on, in row order.
fn free_tiles(grid: &Vec<Vec<Cell>>, players: &Vec<Player>, cannonballs: &Vec<Cannonball>) -> (r: Vec<
    Position,
>)
    ensures
        forall|k: int|
            0 <= k < r@.len() ==> free_for_player(grid@, players@, #[trigger] r@[k])
                && !has_cannonball_at(cannonballs@, r@[k]),
        forall|p: Position|
            free_for_player(grid@, players@, p) && !has_cannonball_at(cannonballs@, p) ==> #[trigger] listed(
                r@,
                p.x as int,
                p.y as int,
            ),
        forall|i: int, j: int| 0 <= i < j < r@.len() ==> pos_lt(r@[i], r@[j]),
        free_in_order(grid@, players@, cannonballs@, r@),
{
    let solid = solid_tiles(grid);
    let mut out: Vec<Position> = Vec::new();
    let mut k: usize = 0;
    while k < solid.len()
        invariant
            k <= solid@.len(),
            forall|i: int|
                0 <= i < out@.len() ==> free_for_player(grid@, players@, #[trigger] out@[i])
                    && !has_cannonball_at(cannonballs@, out@[i]),
            forall|i: int|
                0 <= i < k && free_for_player(grid@, players@, #[trigger] solid@[i])
                    && !has_cannonball_at(cannonballs@, solid@[i]) ==> listed(
                    out@,
                    solid@[i].x as int,
                    solid@[i].y as int,
                ),
            forall|i: int, j: int| 0 <= i < j < out@.len() ==> pos_lt(out@[i], out@[j]),
            forall|i: int| 0 <= i < out@.len() ==> exists|j: int| 0 <= j < k && #[trigger] out@[i] == solid@[j],
            forall|i: int, j: int| 0 <= i < j < solid@.len() ==> pos_lt(solid@[i], solid@[j]),
            forall|i: int|
                0 <= i < solid@.len() ==> in_bounds(grid@, (#[trigger] solid@[i]).x as int, solid@[i].y as int)
                    && cell_at(grid@, solid@[i].x as int, solid@[i].y as int) == Cell::Solid,
        decreases solid@.len() - k,
    {
        let p = solid[k];
        let mut taken = false;
        let mut j: usize = 0;
        while j < players.len()
            invariant
                j <= players@.len(),
                taken == exists|i: int| 0 <= i < j && (#[trigger] players@[i]).pos == p,
            decreases players@.len() - j,
        {
            if players[j].pos == p {
                taken = true;
            }
            j = j + 1;
        }
        let mut j: usize = 0;
        while j < cannonballs.len()
            invariant
                j <= cannonballs@.len(),
                taken == (occupied(players@, p) || exists|i: int|
                    0 <= i < j && (#[trigger] cannonballs@[i]).pos == p),
            decreases cannonballs@.len() - j,
        {
            if cannonballs[j].pos == p {
                taken = true;
            }
            j = j + 1;
        }
        if !taken {
            let ghost before = out@;
            out.push(p);
            proof {
                assert forall|i: int| 0 <= i < out@.len() implies exists|j: int|
                    0 <= j < k + 1 && #[trigger] out@[i] == solid@[j] by {
                    if i < before.len() {
                        assert(out@[i] == before[i]);
                    } else {
                        assert(out@[i] == solid@[k as int]);
                    }
                }
                assert forall|i: int, j: int| 0 <= i < j < out@.len() implies pos_lt(out@[i], out@[j]) by {
                    if j == before.len() {
                        let jj = choose|jj: int| 0 <= jj < k && #[trigger] before[i] == solid@[jj];
                        assert(out@[i] == before[i]);
                    } else {
                        assert(out@[i] == before[i] && out@[j] == before[j]);
                    }
                }
                assert forall|i: int|
                    0 <= i < k + 1 && free_for_player(grid@, players@, #[trigger] solid@[i])
                        && !has_cannonball_at(cannonballs@, solid@[i]) implies listed(
                        out@,
                        solid@[i].x as int,
                        solid@[i].y as int,
                    ) by {
                    if i < k {
                        let q = solid@[i];
                        let w = choose|w: int| 0 <= w < before.len() && (#[trigger] before[w]).x == q.x && before[w].y == q.y;
                        assert(out@[w] == before[w]);
                    } else {
                        assert(out@[before.len() as int] == p);
                    }
                }
            }
        }
        k = k + 1;
    }
    proof {
        assert forall|p: Position|
            free_for_player(grid@, players@, p) && !has_cannonball_at(cannonballs@, p) implies #[trigger] listed(
                out@,
                p.x as int,
                p.y as int,
            ) by {
            assert(cell_at(grid@, p.x as int, p.y as int) == Cell::Solid);
            assert(listed(solid@, p.x as int, p.y as int));
            let w = choose|w: int| 0 <= w < solid@.len() && (#[trigger] solid@[w]).x == p.x && solid@[w].y == p.y;
            assert(solid@[w] == p);
        }
    }
    out
}

/// A new player on a random solid tile that neither another player nor a
/// cannonball occupies, or `None` when there is no such tile.
pub fn spawn_random_player(
    grid: &Vec<Vec<Cell>>,
    players: &Vec<Player>,
    cannonballs: &Vec<Cannonball>,
    id: u8,
    username: String,
) -> (r: Option<Player>)
    ensures
        r is None <==> forall|p: Position|
            !(free_for_player(grid@, players@, p) && !has_cannonball_at(cannonballs@, p)),
        r matches Some(pl) ==> {
            &&& free_for_player(grid@, players@, pl.pos)
            &&& !has_cannonball_at(cannonballs@, pl.pos)
            &&& pl.id == id
            &&& pl.username@ == username@
            &&& pl.cannonball_count == 0
            &&& pl.is_alive
        },
{
    let n = free_tiles(grid, players, cannonballs).len();
    let pick = if n > 0 {
        random_below(n)
    } else {
        0
    };
    spawn_player_at(grid, players, cannonballs, id, username, pick)
}

/// `spawn_random_player` with the tile chosen by the caller: the player
/// stands on the free tile at position `pick` (modulo their number) in row
/// order.
pub fn spawn_player_at(
    grid: &Vec<Vec<Cell>>,
    players: &Vec<Player>,
    cannonballs: &Vec<Cannonball>,
    id: u8,
    username: String,
    pick: usize,
) -> (r: Option<Player>)
    ensures
        r is None <==> forall|p: Position|
            !(free_for_player(grid@, players@, p) && !has_cannonball_at(cannonballs@, p)),
        r matches Some(pl) ==> {
            &&& free_for_player(grid@, players@, pl.pos)
            &&& !has_cannonball_at(cannonballs@, pl.pos)
            &&& pl.id == id
            &&& pl.username@ == username@
            &&& pl.cannonball_count == 0
            &&& pl.is_alive
            &&& exists|ps: Seq<Position>|
                #[trigger] free_in_order(grid@, players@, cannonballs@, ps) && ps.len() > 0 && pl.pos
                    == ps[pick as int % (ps.len() as int)]
        },
{
    let free = free_tiles(grid, players, cannonballs);
    if free.len() == 0 {
        proof {
            assert forall|p: Position|
                !(free_for_player(grid@, players@, p) && !has_cannonball_at(cannonballs@, p)) by {
                if free_for_player(grid@, players@, p) && !has_cannonball_at(cannonballs@, p) {
                    assert(listed(free@, p.x as int, p.y as int));
                }
            }
        }
        return None;
    }
    let k = pick % free.len();
    let r = Player::new(id, free[k], username);
    assert(free_in_order(grid@, players@, cannonballs@, free@));
    Some(r)
}

/// Up to `count` cannonballs on distinct random solid tiles that neither a
/// player nor an existing cannonball occupies; fewer when fewer tiles are free.
pub fn spawn_random_cannonballs(
    grid: &Vec<Vec<Cell>>,
    players: &Vec<Player>,
    existing_cannonballs: &Vec<Cannonball>,
    count: usize,
) -> (r: Vec<Cannonball>)
    ensures
        forall|k: int|
            0 <= k < r@.len() ==> free_for_player(grid@, players@, (#[trigger] r@[k]).pos)
                && !has_cannonball_at(existing_cannonballs@, r@[k].pos),
        forall|i: int, j: int| 0 <= i < j < r@.len() ==> r@[i].pos != r@[j].pos,
        r@.len() <= count,
        r@.len() == 0 && count > 0 ==> forall|p: Position|
            !(free_for_player(grid@, players@, p) && !has_cannonball_at(existing_cannonballs@, p)),
        r@.len() == count || forall|p: Position|
            free_for_player(grid@, players@, p) && !has_cannonball_at(existing_cannonballs@, p) ==> exists|k: int|
                0 <= k < r@.len() && (#[trigger] r@[k]).pos == p,
{
    let free = free_tiles(grid, players, existing_cannonballs);
    let amount = if count < free.len() {
        count
    } else {
        free.len()
    };
    let picks = choose_indices(free.len(), amount);
    let mut out: Vec<Cannonball> = Vec::new();
    let mut k: usize = 0;
    while k < picks.len()
        invariant
            k <= picks@.len(),
            out@.len() == k,
            forall|i: int| 0 <= i < k ==> (#[trigger] out@[i]).pos == free@[picks@[i] as int],
            forall|i: int| 0 <= i < picks@.len() ==> #[trigger] picks@[i] < free@.len(),
        decreases picks@.len() - k,
    {
        out.push(Cannonball { pos: free[picks[k]] });
        k = k + 1;
    }
    proof {
        assert forall|i: int, j: int| 0 <= i < j < out@.len() implies out@[i].pos != out@[j].pos by {
            let a = picks@[i] as int;
            let b = picks@[j] as int;
            assert(a != b);
            if a < b {
                assert(pos_lt(free@[a], free@[b]));
            } else {
                assert(pos_lt(free@[b], free@[a]));
            }
        }
        if out@.len() != count {
            assert forall|p: Position|
                free_for_player(grid@, players@, p) && !has_cannonball_at(existing_cannonballs@, p) implies exists|k: int|
                    0 <= k < out@.len() && (#[trigger] out@[k]).pos == p by {
                assert(listed(free@, p.x as int, p.y as int));
                let w = choose|w: int| 0 <= w < free@.len() && (#[trigger] free@[w]).x == p.x && free@[w].y == p.y;
                lemma_indices_cover(picks@, free@.len() as int, w);
                let i = choose|i: int| 0 <= i < picks@.len() && picks@[i] == w;
                assert(out@[i].pos == free@[w]);
            }
        }
        if out@.len() == 0 && count > 0 {
            assert forall|p: Position|
                !(free_for_player(grid@, players@, p) && !has_cannonball_at(existing_cannonballs@, p)) by {
                if free_for_player(grid@, players@, p) && !has_cannonball_at(existing_cannonballs@, p) {
                    assert(listed(free@, p.x as int, p.y as int));
                }
            }
        }
    }
    out
}

/// Players stand on distinct solid tiles of the grid, alive, holding nothing.
pub open spec fn fresh_players(grid: Seq<Vec<Cell>>, players: Seq<Player>) -> bool {
    &&& forall|i: int, j: int| 0 <= i < j < players.len() ==> players[i].pos != players[j].pos
    &&& forall|i: int|
        0 <= i < players.len() ==> in_bounds(grid, (#[trigger] players[i]).pos.x as int, players[i].pos.y as int)
            && cell_at(grid, players[i].pos.x as int, players[i].pos.y as int) == Cell::Solid
            && players[i].is_alive && players[i].cannonball_count == 0
}

/// A fresh game as `GameState::new` builds it: a `rows` x `cols` grid of
/// solid tiles, the roster on distinct tiles in roster order (all of it when
/// the grid has room), and up to three cannonballs on free tiles, at least
/// one when a tile is free.
pub open spec fn fresh_game(r: GameState, rows: int, cols: int, infos: Seq<PlayerInfo>, mode: GameMode) -> bool {
    &&& r.wf()
    &&& r.grid@.len() == rows
    &&& forall|x: int| 0 <= x < rows ==> #[trigger] r.grid@[x]@.len() == cols
    &&& forall|x: int, y: int| in_bounds(r.grid@, x, y) ==> #[trigger] cell_at(r.grid@, x, y) == Cell::Solid
    &&& r.players@.len() <= infos.len()
    &&& fresh_players(r.grid@, r.players@)
    &&& forall|i: int| 0 <= i < r.players@.len() ==> 1 <= #[trigger] r.players@[i].id <= infos.len()
    &&& infos.len() <= rows * cols ==> {
        &&& r.players@.len() == infos.len()
        &&& forall|i: int|
            0 <= i < infos.len() ==> #[trigger] r.players@[i].id == i + 1 && r.players@[i].username@
                == infos[i].username@
    }
    &&& r.cannonballs@.len() <= 3
    &&& forall|k: int|
        0 <= k < r.cannonballs@.len() ==> free_for_player(r.grid@, r.players@, (#[trigger] r.cannonballs@[k]).pos)
    &&& forall|i: int, j: int| 0 <= i < j < r.cannonballs@.len() ==> r.cannonballs@[i].pos != r.cannonballs@[j].pos
    &&& (exists|p: Position| free_for_player(r.grid@, r.players@, p)) ==> r.cannonballs@.len() >= 1
    &&& r.turn == 1
    &&& r.targeted_tiles@.len() == 0
    &&& r.mode == mode
}

/// The first `n` players are the first `n` roster members, numbered from 1.
pub open spec fn placed_in_order(players: Seq<Player>, infos: Seq<PlayerInfo>, n: int) -> bool {
    forall|k: int|
        0 <= k < n ==> #[trigger] players[k].id == k + 1 && players[k].username@ == infos[k].username@
}

/// Players that cover every cell of a `rows` x `cols` grid number at least
/// `rows * cols`.
pub proof fn lemma_cover_count(ps: Seq<Player>, rows: int, cols: int)
    requires
        rows >= 0,
        cols >= 0,
        forall|x: int, y: int|
            0 <= x < rows && 0 <= y < cols ==> #[trigger] occupied(ps, Position { x: x as usize, y: y as usize }),
        rows <= usize::MAX,
        cols <= usize::MAX,
    ensures
        ps.len() >= rows * cols,
{
    if rows == 0 || cols == 0 {
        assert(rows * cols == 0) by (nonlinear_arith)
            requires
                rows == 0 || cols == 0,
        ;
        return;
    }
    let t = ps.map_values(|p: Player| p.pos.x as int * cols + p.pos.y as int);
    let ts = t.to_set();
    assert(0 <= rows * cols) by (nonlinear_arith)
        requires
            rows >= 0,
            cols >= 0,
    ;
    let range = set_int_range(0, rows * cols);
    lemma_int_range(0, rows * cols);
    assert forall|i: int| range.contains(i) implies ts.contains(i) by {
        lemma_fundamental_div_mod(i, cols);
        lemma_mod_pos_bound(i, cols);
        let q = i / cols;
        let r = i % cols;
        assert(0 <= q < rows) by (nonlinear_arith)
            requires
                i == cols * q + r,
                0 <= r < cols,
                0 <= i < rows * cols,
                cols > 0,
        ;
        assert(occupied(ps, Position { x: q as usize, y: r as usize }));
        let k = choose|k: int| 0 <= k < ps.len() && (#[trigger] ps[k]).pos == Position { x: q as usize, y: r as usize };
        assert(t[k] == q * cols + r);
        assert(q * cols == cols * q) by (nonlinear_arith);
        assert(t.contains(i));
    }
    lemma_len_subset(range, ts);
    t.lemma_cardinality_of_set();
}

impl GameState {
    /// A fresh game: a `rows` x `cols` grid of solid tiles, each roster member
    /// on a random free tile (numbered from 1 in roster order), and one to
    /// three cannonballs on random tiles that no player stands on.
    pub fn new(rows: usize, cols: usize, player_infos: Vec<PlayerInfo>, mode: GameMode) -> (r: Self)
        requires
            player_infos@.len() < 256,
        ensures
            fresh_game(r, rows as int, cols as int, player_infos@, mode),
    {
        let grid = generate_grid(rows, cols);
        let mut players: Vec<Player> = Vec::new();
        let no_cannonballs: Vec<Cannonball> = Vec::new();
        let n = player_infos.len();
        let mut i: usize = 0;
        while i < n
            invariant
                i <= n == player_infos@.len() < 256,
                no_cannonballs@.len() == 0,
                grid@.len() == rows,
                forall|r: int| 0 <= r < rows ==> #[trigger] grid@[r]@.len() == cols,
                forall|r: int, c: int|
                    0 <= r < rows && 0 <= c < cols ==> #[trigger] grid@[r]@[c] == Cell::Solid,
                players@.len() <= i,
                fresh_players(grid@, players@),
                forall|k: int| 0 <= k < players@.len() ==> 1 <= #[trigger] players@[k].id <= i,
                n <= rows * cols ==> players@.len() == i,
                n <= rows * cols ==> placed_in_order(players@, player_infos@, i as int),
            decreases n - i,
        {
            let username = player_infos[i].username.clone();
            let ghost uname = username@;
            assert(uname == player_infos@[i as int].username@);
            let spawned = spawn_random_player(&grid, &players, &no_cannonballs, (i + 1) as u8, username);
            match spawned {
                Some(p) => {
                    let ghost before = players@;
                    players.push(p);
                    proof {
                        assert forall|a: int, b: int| 0 <= a < b < players@.len() implies players@[a].pos
                            != players@[b].pos by {
                            if b == before.len() {
                                assert(players@[a] == before[a]);
                                assert(!occupied(before, p.pos));
                            } else {
                                assert(players@[a] == before[a] && players@[b] == before[b]);
                            }
                        }
                        assert forall|k: int| 0 <= k < players@.len() implies in_bounds(
                            grid@,
                            (#[trigger] players@[k]).pos.x as int,
                            players@[k].pos.y as int,
                        ) && cell_at(grid@, players@[k].pos.x as int, players@[k].pos.y as int)
                            == Cell::Solid && players@[k].is_alive && players@[k].cannonball_count
                            == 0 by {
                            if k < before.len() {
                                assert(players@[k] == before[k]);
                            }
                        }
                        assert forall|k: int| 0 <= k < players@.len() implies 1 <= #[trigger] players@[k].id <= i + 1 by {
                            if k < before.len() {
                                assert(players@[k] == before[k]);
                            }
                        }
                        if n <= rows * cols {
                            assert(before.len() == i);
                            assert(players@.len() == i + 1);
                            assert forall|k: int| 0 <= k < i + 1 implies #[trigger] players@[k].id == k + 1
                                && players@[k].username@ == player_infos@[k].username@ by {
                                if k < i {
                                    assert(players@[k] == before[k]);
                                } else {
                                    assert(players@[k] == p);
                                    assert(p.id == (i + 1) as u8);
                                    assert(p.username@ == uname);
                                }
                            }
                        }
                    }
                },
                None => {
                    proof {
                        if n <= rows * cols {
                            assert forall|x: int, y: int|
                                0 <= x < rows && 0 <= y < cols implies #[trigger] occupied(
                                players@,
                                Position { x: x as usize, y: y as usize },
                            ) by {
                                let q = Position { x: x as usize, y: y as usize };
                                assert(grid@[x]@[y] == Cell::Solid);
                                assert(!(free_for_player(grid@, players@, q) && !has_cannonball_at(no_cannonballs@, q)));
                            }
                            lemma_cover_count(players@, rows as int, cols as int);
                        }
                    }
                },
            }
            assert(n <= rows * cols ==> placed_in_order(players@, player_infos@, i + 1));
            i = i + 1;
        }
        let existing: Vec<Cannonball> = Vec::new();
        let nb_cannonballs = 1 + random_below(3);
        let cannonballs = spawn_random_cannonballs(&grid, &players, &existing, nb_cannonballs);
        proof {
            if exists|p: Position| free_for_player(grid@, players@, p) {
                let p = choose|p: Position| free_for_player(grid@, players@, p);
                assert(!has_cannonball_at(existing@, p));
            }
        }
        let r = GameState {
            grid,
            players,
            cannonballs,
            turn: 1,
            targeted_tiles: Vec::new(),
            mode,
        };
        proof {
            assert(is_rectangular(r.grid@)) by {
                if rows > 0 {
                    assert(cols_of(r.grid@) == cols);
                }
            }
            assert(r.wf());
            assert(forall|x: int, y: int| in_bounds(r.grid@, x, y) ==> #[trigger] cell_at(r.grid@, x, y) == Cell::Solid);
            assert((exists|p: Position| free_for_player(r.grid@, r.players@, p)) ==> r.cannonballs@.len() >= 1);
        }
        r
    }
}

/// `n` distinct indices below `n` hit every index below `n`.
pub proof fn lemma_indices_cover(s: Seq<usize>, n: int, w: int)
    requires
        s.len() == n,
        0 <= w < n,
        forall|i: int| 0 <= i < s.len() ==> #[trigger] s[i] < n,
        forall|i: int, j: int| 0 <= i < j < s.len() ==> s[i] != s[j],
    ensures
        exists|i: int| 0 <= i < s.len() && s[i] == w,
{
    let t = s.map_values(|v: usize| v as int);
    assert(t.no_duplicates()) by {
        assert forall|i: int, j: int| 0 <= i < t.len() && 0 <= j < t.len() && i != j implies t[i] != t[j] by {
            if i < j {
                assert(s[i] != s[j]);
            } else {
                assert(s[j] != s[i]);
            }
        }
    }
    t.unique_seq_to_set();
    seq_to_set_is_finite(t);
    let range = set_int_range(0, n);
    lemma_int_range(0, n);
    assert(t.to_set().subset_of(range)) by {
        assert forall|x: int| t.to_set().contains(x) implies range.contains(x) by {
            let i = choose|i: int| 0 <= i < t.len() && t[i] == x;
            assert(s[i] < n);
        }
    }
    lemma_subset_equality(t.to_set(), range);
    assert(range.contains(w));
    assert(t.to_set().contains(w));
    let i = choose|i: int| 0 <= i < t.len() && t[i] == w;
    assert(s[i] as int == w);
}

} // verus!
