//! Core game types and the grid model.
//!
//! A position's `x` is the row and `y` the column: the cell under a
//! position is `grid[x][y]`. `Up`/`Down` move along rows, `Left`/`Right`
//! along columns.

use vstd::prelude::*;

verus! {

/// Available game modes.
#[derive(Debug, Clone, Copy, PartialEq, Eq, Hash, Structural)]
pub enum GameMode {
    /// One solid tile breaks at the end of every turn.
    Classic,
    /// One solid tile cracks each turn; cracked tiles break on the next.
    Cracked,
}

/// Position on the grid: `x` is the row, `y` the column.
#[derive(Debug, Clone, Copy, PartialEq, Eq, Hash, Structural)]
pub struct Position {
    pub x: usize,
    pub y: usize,
}

/// Movement directions.
#[derive(Debug, Clone, Copy, PartialEq, Eq, Hash, Structural)]
pub enum Direction {
    Up,
    Down,
    Left,
    Right,
    /// No movement.
    Stay,
}

/// State of a grid cell.
#[derive(Debug, Clone, Copy, PartialEq, Eq, Hash, Structural)]
pub enum Cell {
    /// Walkable tile.
    Solid,
    /// Walkable tile that breaks at the end of the next turn.
    Cracked,
    /// Lava: a player standing here dies.
    Broken,
}

impl Cell {
    /// True for a solid tile.
    pub fn is_solid(&self) -> (r: bool)
        ensures
            r == (*self == Cell::Solid),
    {
        match self {
            Cell::Solid => true,
            _ => false,
        }
    }

    /// True for a broken (lava) tile.
    pub fn is_broken(&self) -> (r: bool)
        ensures
            r == (*self == Cell::Broken),
    {
        match self {
            Cell::Broken => true,
            _ => false,
        }
    }
}

/// A player inside a running game.
#[derive(Debug, Clone)]
pub struct Player {
    /// Player number, assigned by roster order starting at 1.
    pub id: u8,
    pub username: String,
    pub pos: Position,
    pub cannonball_count: u32,
    pub is_alive: bool,
}

impl Player {
    /// A living player at `pos` holding no cannonball.
    pub fn new(id: u8, pos: Position, username: String) -> (r: Self)
        ensures
            r.id == id,
            r.pos == pos,
            r.username@ == username@,
            r.cannonball_count == 0,
            r.is_alive,
    {
        Player { id, username, pos, cannonball_count: 0, is_alive: true }
    }
}

/// A cannonball lying on the grid.
#[derive(Debug, Clone, Copy, PartialEq, Eq, Structural)]
pub struct Cannonball {
    pub pos: Position,
}

/// A tile targeted by a shot this turn; it breaks when the turn resolves.
#[derive(Debug, Clone, Copy, PartialEq, Eq, Structural)]
pub struct TargetedTile {
    pub x: usize,
    pub y: usize,
}

/// Number of columns of a grid (the length of its first row).
pub open spec fn cols_of(grid: Seq<Vec<Cell>>) -> int {
    if grid.len() == 0 {
        0
    } else {
        grid[0]@.len() as int
    }
}

/// Every row has the length of the first.
pub open spec fn is_rectangular(grid: Seq<Vec<Cell>>) -> bool {
    forall|r: int| 0 <= r < grid.len() ==> #[trigger] grid[r]@.len() == cols_of(grid)
}

/// The cell at row `x`, column `y`.
pub open spec fn cell_at(grid: Seq<Vec<Cell>>, x: int, y: int) -> Cell {
    grid[x]@[y]
}

/// True when `(x, y)` lies inside the grid.
pub open spec fn in_bounds(grid: Seq<Vec<Cell>>, x: int, y: int) -> bool {
    0 <= x < grid.len() && 0 <= y < grid[x]@.len()
}

/// A `rows` x `cols` grid of solid tiles.
pub fn generate_grid(rows: usize, cols: usize) -> (grid: Vec<Vec<Cell>>)
    ensures
        grid@.len() == rows,
        forall|r: int| 0 <= r < rows ==> #[trigger] grid@[r]@.len() == cols,
        forall|r: int, c: int|
            0 <= r < rows && 0 <= c < cols ==> #[trigger] grid@[r]@[c] == Cell::Solid,
{
    let mut grid: Vec<Vec<Cell>> = Vec::new();
    let mut r: usize = 0;
    while r < rows
        invariant
            r <= rows,
            grid@.len() == r,
            forall|i: int| 0 <= i < r ==> #[trigger] grid@[i]@.len() == cols,
            forall|i: int, c: int|
                0 <= i < r && 0 <= c < cols ==> #[trigger] grid@[i]@[c] == Cell::Solid,
        decreases rows - r,
    {
        let mut row: Vec<Cell> = Vec::new();
        let mut c: usize = 0;
        while c < cols
            invariant
                c <= cols,
                row@.len() == c,
                forall|j: int| 0 <= j < c ==> #[trigger] row@[j] == Cell::Solid,
            decreases cols - c,
        {
            row.push(Cell::Solid);
            c = c + 1;
        }
        grid.push(row);
        r = r + 1;
    }
    grid
}

/// A participant's identity and display name.
#[derive(Debug, Clone)]
pub struct PlayerInfo {
    /// Stable identity (a wallet address).
    pub id: String,
    pub username: String,
}

/// An action a player submits for one turn.
#[derive(Debug, Clone, Copy, PartialEq, Eq, Structural)]
pub enum PlayerAction {
    Move(Direction),
    Shoot { x: usize, y: usize },
}

/// Full state of a running game.
#[derive(Debug, Clone)]
pub struct GameState {
    /// Rows of cells; `grid[x][y]` is row `x`, column `y`.
    pub grid: Vec<Vec<Cell>>,
    /// Players in roster order.
    pub players: Vec<Player>,
    pub cannonballs: Vec<Cannonball>,
    /// Current turn number, starting at 1.
    pub turn: u32,
    /// Tiles targeted by shots this turn.
    pub targeted_tiles: Vec<TargetedTile>,
    pub mode: GameMode,
}

impl GameState {
    /// The grid is rectangular and every targeted tile lies on it.
    pub open spec fn wf(&self) -> bool {
        &&& is_rectangular(self.grid@)
        &&& forall|k: int|
            0 <= k < self.targeted_tiles@.len() ==> in_bounds(
                self.grid@,
                #[trigger] self.targeted_tiles@[k].x as int,
                self.targeted_tiles@[k].y as int,
            )
    }

    /// Number of living players.
    pub open spec fn alive_count(&self) -> nat {
        count_alive(self.players@)
    }
}

/// Number of living players in `ps`.
pub open spec fn count_alive(ps: Seq<Player>) -> nat
    decreases ps.len(),
{
    if ps.len() == 0 {
        0
    } else {
        count_alive(ps.drop_last()) + if ps.last().is_alive {
            1nat
        } else {
            0nat
        }
    }
}

/// `a` and `b` have the same number of rows and the same row lengths.
pub open spec fn same_shape(a: Seq<Vec<Cell>>, b: Seq<Vec<Cell>>) -> bool {
    &&& a.len() == b.len()
    &&& forall|r: int| 0 <= r < a.len() ==> #[trigger] a[r]@.len() == b[r]@.len()
}

} // verus!
