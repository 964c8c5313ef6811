use crate::random::{random_below, random_bool};
use rand::rngs::StdRng;
use vstd::prelude::*;

verus! {

/// Side length of the square board.
pub const BOARD_SIZE: usize = 10;

/// Number of cells on a board.
pub const CELL_COUNT: usize = 100;

/// How many random spots a placement tries before it gives up.
pub const MAX_PLACEMENT_ATTEMPTS: usize = 10000;

/// Number of ships in a fleet.
pub const FLEET_LEN: usize = 10;

/// Random placement found no spot for a ship within its attempts.
#[derive(Clone, Copy, Debug, PartialEq, Eq, Structural)]
pub struct PlacementFailed {
    pub size: usize,
}

/// Size of ship `i` of the fleet: one of four cells, two of three, three of
/// two and four of one.
pub open spec fn fleet_size(i: int) -> int {
    if i == 0 {
        4
    } else if i < 3 {
        3
    } else if i < 6 {
        2
    } else {
        1
    }
}

/// Number of cells covered by the first `n` ships of the fleet.
pub open spec fn fleet_cells(n: int) -> int
    decreases n,
{
    if n <= 0 {
        0
    } else {
        fleet_cells(n - 1) + fleet_size(n - 1)
    }
}

/// Size of ship `i` of the fleet.
pub fn fleet_ship_size(i: usize) -> (size: usize)
    requires
        i < FLEET_LEN,
    ensures
        size == fleet_size(i as int),
{
    if i == 0 {
        4
    } else if i < 3 {
        3
    } else if i < 6 {
        2
    } else {
        1
    }
}

/// Number of sunken ships in `ships`.
pub open spec fn sunken_in(ships: Seq<ShipView>) -> nat
    decreases ships.len(),
{
    if ships.len() == 0 {
        0
    } else {
        sunken_in(ships.drop_last()) + if ships.last().sunken {
            1nat
        } else {
            0nat
        }
    }
}

/// Number of cells of `g` in state `s`.
pub open spec fn count_state(g: Seq<CellState>, s: CellState) -> nat
    decreases g.len(),
{
    if g.len() == 0 {
        0
    } else {
        count_state(g.drop_last(), s) + if g.last() == s {
            1nat
        } else {
            0nat
        }
    }
}

/// State of one cell of a board.
#[derive(Clone, Copy, Debug, PartialEq, Eq, Structural)]
pub enum CellState {
    Empty,
    Ship,
    Hit,
    Miss,
    Sunken,
}

/// A ship: the cells it covers, in order, and whether it has gone down.
pub struct Ship {
    positions: Vec<(usize, usize)>,
    is_sunken: bool,
}

/// The mathematical model of a ship.
pub struct ShipView {
    pub positions: Seq<(usize, usize)>,
    pub sunken: bool,
}

/// A square grid of cells, stored row by row, and the ships placed on it.
pub struct Board {
    grid: Vec<CellState>,
    ships: Vec<Ship>,
}

/// The mathematical model of a board: the cells row by row, and the ships.
pub struct BoardView {
    pub grid: Seq<CellState>,
    pub ships: Seq<ShipView>,
}

impl View for Ship {
    type V = ShipView;

    closed spec fn view(&self) -> ShipView {
        ShipView { positions: self.positions@, sunken: self.is_sunken }
    }
}

impl View for Board {
    type V = BoardView;

    closed spec fn view(&self) -> BoardView {
        BoardView { grid: self.grid@, ships: self.ships@.map_values(|s: Ship| s@) }
    }
}

pub open spec fn in_bounds(r: int, c: int) -> bool {
    0 <= r < BOARD_SIZE && 0 <= c < BOARD_SIZE
}

/// Index of a cell in the row-by-row grid.
pub open spec fn cell_index(r: int, c: int) -> int {
    r * BOARD_SIZE + c
}

/// Two distinct cells that share an edge or a corner.
pub open spec fn neighbours(r: int, c: int, nr: int, nc: int) -> bool {
    &&& (nr, nc) != (r, c)
    &&& -1 <= nr - r <= 1
    &&& -1 <= nc - c <= 1
}

/// Two cells at Chebyshev distance at most one (a cell touches itself).
pub open spec fn touching(p: (usize, usize), q: (usize, usize)) -> bool {
    &&& -1 <= p.0 - q.0 <= 1
    &&& -1 <= p.1 - q.1 <= 1
}

/// A cell that belongs to a ship, whatever has happened to it.
pub open spec fn is_occupied(s: CellState) -> bool {
    s == CellState::Ship || s == CellState::Hit || s == CellState::Sunken
}

/// What a shot at a cell in state `s` reports.
pub open spec fn fire_outcome(s: CellState) -> CellState {
    if s == CellState::Ship {
        CellState::Hit
    } else {
        CellState::Miss
    }
}

/// What a cell in state `s` becomes when it is shot at.
pub open spec fn fired_cell(s: CellState) -> CellState {
    match s {
        CellState::Empty => CellState::Miss,
        CellState::Ship => CellState::Hit,
        other => other,
    }
}

/// Cell `i` of a line of cells from `(row, col)`, rightwards when `horizontal`,
/// downwards otherwise.
pub open spec fn line_cell(row: int, col: int, i: int, horizontal: bool) -> (usize, usize) {
    if horizontal {
        (row as usize, (col + i) as usize)
    } else {
        ((row + i) as usize, col as usize)
    }
}

/// The `size` cells of a line from `(row, col)`.
pub open spec fn line(row: int, col: int, size: int, horizontal: bool) -> Seq<(usize, usize)> {
    Seq::new(size as nat, |i: int| line_cell(row, col, i, horizontal))
}

/// Some cell of `cells` lies at grid index `x`.
pub open spec fn covers(cells: Seq<(usize, usize)>, x: int) -> bool {
    exists|k: int| 0 <= k < cells.len() && cell_index(cells[k].0 as int, cells[k].1 as int) == x
}

/// `grid` with every cell of `cells` set to `v`.
pub open spec fn painted(grid: Seq<CellState>, cells: Seq<(usize, usize)>, v: CellState) -> Seq<
    CellState,
> {
    Seq::new(grid.len(), |x: int| if covers(cells, x) { v } else { grid[x] })
}

impl ShipView {
    /// Between one and `BOARD_SIZE` cells on the board, consecutive along a row
    /// or along a column.
    pub open spec fn wf(self) -> bool {
        let p = self.positions;
        &&& 1 <= p.len() <= BOARD_SIZE
        &&& forall|k: int| 0 <= k < p.len() ==> in_bounds(#[trigger] p[k].0 as int, p[k].1 as int)
        &&& self.is_row() || self.is_column()
    }

    /// The cells run right from the first one.
    pub open spec fn is_row(self) -> bool {
        forall|k: int|
            0 <= k < self.positions.len() ==> #[trigger] self.positions[k].0 == self.positions[0].0
                && self.positions[k].1 == self.positions[0].1 + k
    }

    /// The cells run down from the first one.
    pub open spec fn is_column(self) -> bool {
        forall|k: int|
            0 <= k < self.positions.len() ==> #[trigger] self.positions[k].1 == self.positions[0].1
                && self.positions[k].0 == self.positions[0].0 + k
    }
}

impl BoardView {
    pub open spec fn cell(self, r: int, c: int) -> CellState {
        self.grid[cell_index(r, c)]
    }

    pub open spec fn cell_at(self, p: (usize, usize)) -> CellState {
        self.cell(p.0 as int, p.1 as int)
    }

    /// A board with no ship and no shot.
    pub open spec fn is_empty_board(self) -> bool {
        &&& self.grid.len() == CELL_COUNT
        &&& self.ships.len() == 0
        &&& forall|x: int| 0 <= x < CELL_COUNT ==> #[trigger] self.grid[x] == CellState::Empty
    }

    /// The board's invariant: ships have their shape, ship cells and ships agree,
    /// and no two ships touch, not even at a corner.
    pub open spec fn wf(self) -> bool {
        &&& self.grid.len() == CELL_COUNT
        &&& forall|i: int| 0 <= i < self.ships.len() ==> (#[trigger] self.ships[i]).wf()
        &&& forall|i: int, k: int|
            0 <= i < self.ships.len() && 0 <= k < self.ships[i].positions.len() ==> {
                let s = self.cell_at(#[trigger] self.ships[i].positions[k]);
                if self.ships[i].sunken {
                    s == CellState::Sunken
                } else {
                    s == CellState::Ship || s == CellState::Hit
                }
            }
        &&& forall|r: int, c: int|
            in_bounds(r, c) && is_occupied(#[trigger] self.cell(r, c)) ==> self.owned(r, c)
        &&& self.ships_apart()
    }

    /// No cell of one ship equals or touches, even at a corner, a cell of another.
    pub open spec fn ships_apart(self) -> bool {
        forall|i: int, j: int, k: int, l: int|
            0 <= i < self.ships.len() && 0 <= j < self.ships.len() && i != j && 0 <= k
                < self.ships[i].positions.len() && 0 <= l < self.ships[j].positions.len()
                ==> !touching(
                #[trigger] self.ships[i].positions[k],
                #[trigger] self.ships[j].positions[l],
            )
    }

    /// Some ship covers cell `(r, c)`.
    pub open spec fn owned(self, r: int, c: int) -> bool {
        exists|i: int, k: int|
            0 <= i < self.ships.len() && 0 <= k < self.ships[i].positions.len()
                && #[trigger] self.ships[i].positions[k] == (r as usize, c as usize)
    }

    /// No cell of a ship holds a Ship cell among its eight neighbours.
    pub open spec fn area_clear(self, r: int, c: int) -> bool {
        forall|nr: int, nc: int|
            in_bounds(nr, nc) && neighbours(r, c, nr, nc) ==> #[trigger] self.cell(nr, nc)
                != CellState::Ship
    }

    /// A ship may cover cell `(r, c)`: on the board, empty, and clear around.
    pub open spec fn free_for_ship(self, r: int, c: int) -> bool {
        &&& in_bounds(r, c)
        &&& self.cell(r, c) == CellState::Empty
        &&& self.area_clear(r, c)
    }

    /// A ship of `size` cells fits from `(row, col)`, rightwards when
    /// `horizontal`, downwards otherwise.
    pub open spec fn can_place(self, row: int, col: int, size: int, horizontal: bool) -> bool {
        if horizontal {
            &&& col + size <= BOARD_SIZE
            &&& forall|i: int| 0 <= i < size ==> #[trigger] self.free_for_ship(row, col + i)
        } else {
            &&& row + size <= BOARD_SIZE
            &&& forall|i: int| 0 <= i < size ==> #[trigger] self.free_for_ship(row + i, col)
        }
    }

    /// The whole fleet afloat and apart, before any hit: ten ships of the
    /// fleet's sizes in order, on exactly 20 Ship cells.
    pub open spec fn is_fleet_laid_out(self) -> bool {
        &&& self.wf()
        &&& self.no_hits()
        &&& self.ships_apart()
        &&& self.ships.len() == FLEET_LEN
        &&& forall|i: int|
            0 <= i < FLEET_LEN ==> (#[trigger] self.ships[i]).positions.len() == fleet_size(i)
                && !self.ships[i].sunken
        &&& count_state(self.grid, CellState::Ship) == 20
    }

    /// No cell has been hit: the state in which ships are laid out.
    pub open spec fn no_hits(self) -> bool {
        forall|x: int|
            0 <= x < self.grid.len() ==> #[trigger] self.grid[x] != CellState::Hit && self.grid[x]
                != CellState::Sunken
    }

    /// The board with a new ship of `size` cells laid from `(row, col)`.
    pub open spec fn placed(self, row: int, col: int, size: int, horizontal: bool) -> BoardView {
        let cells = line(row, col, size, horizontal);
        BoardView {
            grid: painted(self.grid, cells, CellState::Ship),
            ships: self.ships.push(ShipView { positions: cells, sunken: false }),
        }
    }

    /// The board after a shot at `(r, c)`.
    pub open spec fn fired(self, r: int, c: int) -> BoardView {
        BoardView {
            grid: self.grid.update(cell_index(r, c), fired_cell(self.cell(r, c))),
            ships: self.ships,
        }
    }

    /// Ship `i` is afloat and every one of its cells is Hit: the next sink
    /// check sends it down.
    pub open spec fn sinks(self, i: int) -> bool {
        &&& !self.ships[i].sunken
        &&& forall|k: int|
            0 <= k < self.ships[i].positions.len() ==> self.cell_at(
                #[trigger] self.ships[i].positions[k],
            ) == CellState::Hit
    }

    /// The grid once the cells of the sinking ships among the first `n` are Sunken.
    pub open spec fn sunk_cells_upto(self, n: int) -> Seq<CellState> {
        Seq::new(
            self.grid.len(),
            |x: int|
                if exists|j: int|
                    #![trigger self.sinks(j), covers(self.ships[j].positions, x)]
                    0 <= j < n && self.sinks(j) && covers(self.ships[j].positions, x) {
                    CellState::Sunken
                } else {
                    self.grid[x]
                },
        )
    }

    /// The board after a sink check: every ship whose cells are all Hit is
    /// marked sunken and its cells become Sunken.
    pub open spec fn sink_all(self) -> BoardView {
        BoardView {
            grid: self.sunk_cells_upto(self.ships.len() as int),
            ships: Seq::new(
                self.ships.len(),
                |i: int|
                    ShipView {
                        positions: self.ships[i].positions,
                        sunken: self.ships[i].sunken || self.sinks(i),
                    },
            ),
        }
    }

    /// `sunk` holds, in increasing order, exactly the ships that the next sink
    /// check sends down.
    pub open spec fn lists_sinking(self, sunk: Seq<usize>) -> bool {
        &&& forall|k: int|
            0 <= k < sunk.len() ==> 0 <= #[trigger] sunk[k] < self.ships.len() && self.sinks(
                sunk[k] as int,
            )
        &&& forall|k: int, l: int| 0 <= k < l < sunk.len() ==> sunk[k] < sunk[l]
        &&& forall|i: int| 0 <= i < self.ships.len() && #[trigger] self.sinks(i) ==> sunk.contains(i as usize)
    }

    /// The board after a shot at `(r, c)` and, on a hit, a sink check.
    pub open spec fn shot(self, r: int, c: int) -> BoardView {
        if fire_outcome(self.cell(r, c)) == CellState::Hit {
            self.fired(r, c).sink_all()
        } else {
            self.fired(r, c)
        }
    }

    /// Number of sunken ships.
    pub open spec fn sunken_count(self) -> nat {
        sunken_in(self.ships)
    }

    /// Every ship is sunken.
    pub open spec fn all_sunken(self) -> bool {
        forall|i: int| 0 <= i < self.ships.len() ==> (#[trigger] self.ships[i]).sunken
    }
}

impl Board {
    pub open spec fn wf(&self) -> bool {
        self@.wf()
    }

    /// An empty board: every cell Empty, no ship.
    pub fn new() -> (b: Board)
        ensures
            b@.is_empty_board(),
            b.wf(),
    {
        let grid: Vec<CellState> = vec![CellState::Empty; CELL_COUNT];
        let b = Board { grid, ships: Vec::new() };
        assert(b@.ships =~= Seq::<ShipView>::empty());
        b
    }

    /// State of cell `(row, col)`.
    pub fn cell(&self, row: usize, col: usize) -> (s: CellState)
        requires
            self.wf(),
            row < BOARD_SIZE,
            col < BOARD_SIZE,
        ensures
            s == self@.cell(row as int, col as int),
    {
        self.grid[row * BOARD_SIZE + col]
    }

    /// Number of ships on the board.
    pub fn ship_count(&self) -> (n: usize)
        ensures
            n == self@.ships.len(),
    {
        self.ships.len()
    }

    /// Whether ship `i` is sunken.
    pub fn is_ship_sunken(&self, i: usize) -> (sunken: bool)
        requires
            i < self@.ships.len(),
        ensures
            sunken == self@.ships[i as int].sunken,
    {
        assert(self@.ships[i as int] == self.ships[i as int]@);
        self.ships[i].is_sunken
    }

    /// The cells of ship `i`, in order.
    pub fn ship_positions(&self, i: usize) -> (positions: Vec<(usize, usize)>)
        requires
            i < self@.ships.len(),
        ensures
            positions@ == self@.ships[i as int].positions,
    {
        assert(self@.ships[i as int] == self.ships[i as int]@);
        let ship = &self.ships[i];
        let mut positions: Vec<(usize, usize)> = Vec::new();
        let mut k: usize = 0;
        while k < ship.positions.len()
            invariant
                k <= ship.positions.len(),
                positions@ == ship.positions@.take(k as int),
            decreases ship.positions.len() - k,
        {
            positions.push(ship.positions[k]);
            assert(positions@ =~= ship.positions@.take(k + 1));
            k = k + 1;
        }
        assert(ship.positions@.take(k as int) =~= ship.positions@);
        positions
    }

    /// Whether none of the up to eight cells around `(row, col)` holds a Ship cell.
    pub fn is_area_clear(&self, row: usize, col: usize) -> (clear: bool)
        requires
            self.wf(),
        ensures
            clear == self@.area_clear(row as int, col as int),
    {
        if row > BOARD_SIZE || col > BOARD_SIZE {
            return true;
        }
        let mut dr: usize = 0;
        while dr < 3
            invariant
                self.wf(),
                row <= BOARD_SIZE,
                col <= BOARD_SIZE,
                dr <= 3,
                forall|nr: int, nc: int|
                    nr < row + dr - 1 && in_bounds(nr, nc) && neighbours(
                        row as int,
                        col as int,
                        nr,
                        nc,
                    ) ==> #[trigger] self@.cell(nr, nc) != CellState::Ship,
            decreases 3 - dr,
        {
            let mut dc: usize = 0;
            while dc < 3
                invariant
                    self.wf(),
                    row <= BOARD_SIZE,
                    col <= BOARD_SIZE,
                    dr < 3,
                    dc <= 3,
                    forall|nr: int, nc: int|
                        (nr < row + dr - 1 || (nr == row + dr - 1 && nc < col + dc - 1)) && in_bounds(
                            nr,
                            nc,
                        ) && neighbours(row as int, col as int, nr, nc) ==> #[trigger] self@.cell(
                            nr,
                            nc,
                        ) != CellState::Ship,
                decreases 3 - dc,
            {
                if (dr != 1 || dc != 1) && row + dr >= 1 && col + dc >= 1 {
                    let nr = row + dr - 1;
                    let nc = col + dc - 1;
                    if nr < BOARD_SIZE && nc < BOARD_SIZE && self.grid[nr * BOARD_SIZE + nc]
                        == CellState::Ship {
                        assert(neighbours(row as int, col as int, nr as int, nc as int));
                        assert(self@.cell(nr as int, nc as int) == CellState::Ship);
                        return false;
                    }
                }
                dc = dc + 1;
            }
            dr = dr + 1;
        }
        true
    }

    /// Whether a ship of `size` cells fits from `(row, col)`, rightwards when
    /// `direction` is true and downwards otherwise: every cell on the board,
    /// Empty, and with no Ship cell around it.
    pub fn can_place_ship(&self, row: usize, col: usize, size: usize, direction: bool) -> (ok:
        bool)
        requires
            self.wf(),
        ensures
            ok == self@.can_place(row as int, col as int, size as int, direction),
    {
        if direction {
            if size > BOARD_SIZE || col > BOARD_SIZE - size {
                return false;
            }
        } else {
            if size > BOARD_SIZE || row > BOARD_SIZE - size {
                return false;
            }
        }
        let mut i: usize = 0;
        while i < size
            invariant
                self.wf(),
                i <= size,
                direction ==> col + size <= BOARD_SIZE,
                !direction ==> row + size <= BOARD_SIZE,
                direction ==> forall|j: int|
                    0 <= j < i ==> #[trigger] self@.free_for_ship(row as int, col + j),
                !direction ==> forall|j: int|
                    0 <= j < i ==> #[trigger] self@.free_for_ship(row + j, col as int),
            decreases size - i,
        {
            let (r, c) = if direction {
                (row, col + i)
            } else {
                (row + i, col)
            };
            if r >= BOARD_SIZE || c >= BOARD_SIZE || self.grid[r * BOARD_SIZE + c]
                != CellState::Empty || !self.is_area_clear(r, c) {
                assert(!self@.free_for_ship(r as int, c as int));
                return false;
            }
            i = i + 1;
        }
        true
    }

    /// Lays a ship of `size` cells from `(row, col)`, rightwards when `direction`
    /// is true and downwards otherwise, if `can_place_ship` allows it; returns
    /// whether it did. Ships are laid out before the first shot.
    pub fn try_place_ship(&mut self, row: usize, col: usize, size: usize, direction: bool) -> (placed:
        bool)
        requires
            old(self).wf(),
            old(self)@.no_hits(),
            1 <= size,
        ensures
            placed == old(self)@.can_place(row as int, col as int, size as int, direction),
            placed ==> final(self)@ == old(self)@.placed(
                row as int,
                col as int,
                size as int,
                direction,
            ),
            placed ==> count_state(final(self)@.grid, CellState::Ship) == count_state(
                old(self)@.grid,
                CellState::Ship,
            ) + size,
            !placed ==> final(self)@ == old(self)@,
            final(self).wf(),
            final(self)@.no_hits(),
    {
        if !self.can_place_ship(row, col, size, direction) {
            return false;
        }
        let ghost cells = line(row as int, col as int, size as int, direction);
        proof {
            assert forall|k: int| 0 <= k < size implies #[trigger] cells[k] == (if direction {
                (row, (col + k) as usize)
            } else {
                ((row + k) as usize, col)
            }) && old(self)@.free_for_ship(cells[k].0 as int, cells[k].1 as int) by {
                if direction {
                    assert(old(self)@.free_for_ship(row as int, col + k));
                } else {
                    assert(old(self)@.free_for_ship(row + k, col as int));
                }
            }
        }
        let mut positions: Vec<(usize, usize)> = Vec::new();
        let mut i: usize = 0;
        while i < size
            invariant
                old(self).wf(),
                old(self)@.can_place(row as int, col as int, size as int, direction),
                cells == line(row as int, col as int, size as int, direction),
                i <= size,
                positions@ == cells.take(i as int),
                self.ships == old(self).ships,
                self.grid@ == painted(old(self).grid@, positions@, CellState::Ship),
                count_state(self.grid@, CellState::Ship) == count_state(old(self).grid@, CellState::Ship) + i,
                forall|k: int| 0 <= k < size ==> #[trigger] cells[k] == (if direction {
                    (row, (col + k) as usize)
                } else {
                    ((row + k) as usize, col)
                }) && old(self)@.free_for_ship(cells[k].0 as int, cells[k].1 as int),
            decreases size - i,
        {
            let (r, c) = if direction {
                (row, col + i)
            } else {
                (row + i, col)
            };
            assert(old(self)@.free_for_ship(r as int, c as int));
            assert(cells[i as int] == (r, c));
            let ghost before = positions@;
            proof {
                let x = cell_index(r as int, c as int);
                if covers(before, x) {
                    let k = choose|k: int| 0 <= k < before.len() && cell_index(before[k].0 as int, before[k].1 as int) == x;
                    assert(before[k] == cells[k]);
                    lemma_cell_index_injective(cells[k], (r, c));
                }
                assert(self.grid@[x] == CellState::Empty);
                lemma_count_update(self.grid@, x, CellState::Ship, CellState::Ship);
            }
            self.grid.set(r * BOARD_SIZE + c, CellState::Ship);
            positions.push((r, c));
            proof {
                assert(positions@ =~= cells.take(i + 1));
                assert forall|x: int| covers(positions@, x) <==> covers(before, x) || x
                    == cell_index(r as int, c as int) by {
                    if covers(positions@, x) {
                        let k = choose|k: int|
                            0 <= k < positions@.len() && cell_index(
                                positions@[k].0 as int,
                                positions@[k].1 as int,
                            ) == x;
                        if k < i {
                            assert(before[k] == positions@[k]);
                        }
                    }
                    if covers(before, x) {
                        let k = choose|k: int|
                            0 <= k < before.len() && cell_index(
                                before[k].0 as int,
                                before[k].1 as int,
                            ) == x;
                        assert(positions@[k] == before[k]);
                    }
                    if x == cell_index(r as int, c as int) {
                        assert(positions@[i as int] == (r, c));
                    }
                }
                let target = painted(old(self).grid@, positions@, CellState::Ship);
                let prev = painted(old(self).grid@, before, CellState::Ship);
                assert forall|x: int| 0 <= x < CELL_COUNT implies self.grid@[x] == target[x] by {
                    if x == cell_index(r as int, c as int) {
                        assert(positions@[i as int] == (r, c));
                        assert(covers(positions@, x));
                    } else {
                        assert(self.grid@[x] == prev[x]);
                        assert(covers(positions@, x) == covers(before, x));
                    }
                }
                assert(self.grid@ =~= target);
            }
            i = i + 1;
        }
        let ghost ships_before = self.ships@;
        self.ships.push(Ship { positions, is_sunken: false });
        proof {
            assert(positions@ =~= cells);
            let o = old(self)@;
            assert(self@.ships =~= o.ships.push(ShipView { positions: cells, sunken: false }));
            assert(self@ == o.placed(row as int, col as int, size as int, direction));
            lemma_placed_wf(o, row as int, col as int, size as int, direction);
        }
        true
    }

    /// Lays a ship of `size` cells at a random spot and in a random direction,
    /// drawing again while the ship does not fit, at most
    /// `MAX_PLACEMENT_ATTEMPTS` times. On failure the board is unchanged.
    pub fn place_ship(&mut self, size: usize, rng: &mut StdRng) -> (res: Result<(), PlacementFailed>)
        requires
            old(self).wf(),
            old(self)@.no_hits(),
            1 <= size,
        ensures
            final(self).wf(),
            final(self)@.no_hits(),
            match res {
                Ok(()) => {
                    &&& exists|row: int, col: int, horizontal: bool|
                        old(self)@.can_place(row, col, size as int, horizontal) && final(self)@
                            == #[trigger] old(self)@.placed(row, col, size as int, horizontal)
                    &&& count_state(final(self)@.grid, CellState::Ship) == count_state(
                        old(self)@.grid,
                        CellState::Ship,
                    ) + size
                    &&& final(self)@.ships.len() == old(self)@.ships.len() + 1
                    &&& final(self)@.ships.last().positions.len() == size
                    &&& final(self)@.ships.last().is_row() || final(self)@.ships.last().is_column()
                },
                Err(e) => final(self)@ == old(self)@ && e.size == size,
            },
    {
        let mut attempt: usize = 0;
        while attempt < MAX_PLACEMENT_ATTEMPTS
            invariant
                self@ == old(self)@,
                self.wf(),
                self@.no_hits(),
                1 <= size,
            decreases MAX_PLACEMENT_ATTEMPTS - attempt,
        {
            let row = random_below(rng, BOARD_SIZE);
            let col = random_below(rng, BOARD_SIZE);
            let direction = random_bool(rng);
            if self.try_place_ship(row, col, size, direction) {
                assert(old(self)@.can_place(row as int, col as int, size as int, direction));
                assert(self@.ships.last().wf());
                return Ok(());
            }
            attempt = attempt + 1;
        }
        Err(PlacementFailed { size })
    }

    /// Lays out the whole fleet on an empty board, largest ship first: one ship
    /// of four cells, two of three, three of two and four of one.
    pub fn place_fleet(&mut self, rng: &mut StdRng) -> (res: Result<(), PlacementFailed>)
        requires
            old(self)@.is_empty_board(),
        ensures
            final(self).wf(),
            final(self)@.no_hits(),
            res is Ok ==> final(self)@.is_fleet_laid_out(),
    {
        proof {
            let b = self@;
            assert forall|r: int, c: int| in_bounds(r, c) && is_occupied(#[trigger] b.cell(r, c)) implies b.owned(r, c) by {
                assert(b.grid[cell_index(r, c)] == CellState::Empty);
            }
            lemma_count_none(b.grid, CellState::Ship);
        }
        let mut i: usize = 0;
        while i < FLEET_LEN
            invariant
                self.wf(),
                self@.no_hits(),
                i <= FLEET_LEN,
                self@.ships.len() == i,
                forall|j: int|
                    0 <= j < i ==> (#[trigger] self@.ships[j]).positions.len() == fleet_size(j)
                        && !self@.ships[j].sunken,
                count_state(self@.grid, CellState::Ship) == fleet_cells(i as int),
            decreases FLEET_LEN - i,
        {
            let size = fleet_ship_size(i);
            let ghost before = self@;
            match self.place_ship(size, rng) {
                Ok(()) => {
                    proof {
                        let (row, col, h) = choose|row: int, col: int, h: bool|
                            before.can_place(row, col, size as int, h) && self@
                                == #[trigger] before.placed(row, col, size as int, h);
                        assert(self@.ships == before.ships.push(
                            ShipView { positions: line(row, col, size as int, h), sunken: false },
                        ));
                        assert forall|j: int| 0 <= j < i + 1 implies (#[trigger] self@.ships[j]).positions.len()
                            == fleet_size(j) && !self@.ships[j].sunken by {
                            if j < i {
                                assert(self@.ships[j] == before.ships[j]);
                            }
                        }
                    }
                },
                Err(e) => {
                    return Err(e);
                },
            }
            i = i + 1;
        }
        proof {
            reveal_with_fuel(fleet_cells, 11);
        }
        Ok(())
    }

    /// Shoots at `(row, col)`: an Empty cell becomes Miss and a Ship cell Hit;
    /// a cell already shot at stays as it is. Reports Hit for a Ship cell and
    /// Miss for any other.
    pub fn fire(&mut self, row: usize, col: usize) -> (outcome: CellState)
        requires
            old(self).wf(),
            row < BOARD_SIZE,
            col < BOARD_SIZE,
        ensures
            outcome == fire_outcome(old(self)@.cell(row as int, col as int)),
            final(self)@ == old(self)@.fired(row as int, col as int),
            final(self).wf(),
    {
        let x = row * BOARD_SIZE + col;
        let s = self.grid[x];
        let outcome = match s {
            CellState::Empty => {
                self.grid.set(x, CellState::Miss);
                CellState::Miss
            },
            CellState::Ship => {
                self.grid.set(x, CellState::Hit);
                CellState::Hit
            },
            _ => CellState::Miss,
        };
        proof {
            let o = old(self)@;
            let n = self@;
            assert(n.ships == o.ships);
            assert(n.grid =~= o.fired(row as int, col as int).grid);
            assert forall|r: int, c: int| in_bounds(r, c) && is_occupied(#[trigger] n.cell(r, c)) implies n.owned(r, c) by {
                assert(is_occupied(o.cell(r, c)));
                assert(o.owned(r, c));
            }
        }
        outcome
    }

    /// Sends down every afloat ship whose cells are all Hit: its cells become
    /// Sunken and it is marked sunken. Returns the indices of the ships sent
    /// down by this call, in increasing order.
    pub fn check_for_sunken_ships(&mut self) -> (sunk: Vec<usize>)
        requires
            old(self).wf(),
        ensures
            final(self)@ == old(self)@.sink_all(),
            final(self).wf(),
            old(self)@.lists_sinking(sunk@),
    {
        let ghost b = self@;
        let mut sunk: Vec<usize> = Vec::new();
        let n = self.ships.len();
        let mut i: usize = 0;
        while i < n
            invariant
                b.wf(),
                n == b.ships.len(),
                i <= n,
                self.grid@ == b.sunk_cells_upto(i as int),
                self@.ships.len() == n,
                forall|j: int| 0 <= j < n ==> (#[trigger] self@.ships[j]).positions == b.ships[j].positions,
                forall|j: int|
                    0 <= j < i ==> (#[trigger] self@.ships[j]).sunken == (b.ships[j].sunken || b.sinks(j)),
                forall|j: int| i <= j < n ==> (#[trigger] self@.ships[j]).sunken == b.ships[j].sunken,
                forall|k: int| 0 <= k < sunk.len() ==> #[trigger] sunk[k] < i && b.sinks(sunk[k] as int),
                forall|k: int, l: int| 0 <= k < l < sunk.len() ==> sunk[k] < sunk[l],
                forall|j: int| 0 <= j < i && #[trigger] b.sinks(j) ==> sunk@.contains(j as usize),
            decreases n - i,
        {
            assert(self@.ships[i as int] == self.ships[i as int]@);
            if !self.ships[i].is_sunken {
                let ghost pos = b.ships[i as int].positions;
                proof {
                    assert(b.ships[i as int].wf());
                    assert forall|k: int| 0 <= k < pos.len() implies #[trigger] self.grid@[cell_index(pos[k].0 as int, pos[k].1 as int)]
                        == b.cell_at(pos[k]) by {
                        lemma_unsunk_cell_kept(b, i as int, k, i as int);
                    }
                }
                let len = self.ships[i].positions.len();
                let ghost ships_now = self.ships@;
                let ghost view_now = self@.ships;
                let mut all_hit = true;
                let mut k: usize = 0;
                while k < len && all_hit
                    invariant
                        b.wf(),
                        self.ships@ == ships_now,
                        ships_now.len() == n,
                        0 <= i < n,
                        n == b.ships.len(),
                        self.ships[i as int]@.positions == pos,
                        pos == b.ships[i as int].positions,
                        len == pos.len(),
                        k <= len,
                        self.grid@ == b.sunk_cells_upto(i as int),
                        forall|m: int| 0 <= m < pos.len() ==> #[trigger] self.grid@[cell_index(pos[m].0 as int, pos[m].1 as int)]
                            == b.cell_at(pos[m]),
                        all_hit ==> forall|m: int| 0 <= m < k ==> b.cell_at(#[trigger] pos[m]) == CellState::Hit,
                        !all_hit ==> exists|m: int| 0 <= m < len && b.cell_at(#[trigger] pos[m]) != CellState::Hit,
                    decreases len - k + if all_hit {
                        1int
                    } else {
                        0int
                    },
                {
                    let (r, c) = self.ships[i].positions[k];
                    assert(pos[k as int] == (r, c));
                    assert(b.ships[i as int].wf());
                    assert(in_bounds(r as int, c as int));
                    if self.grid[r * BOARD_SIZE + c] != CellState::Hit {
                        all_hit = false;
                    } else {
                        k = k + 1;
                    }
                }
                assert(all_hit == b.sinks(i as int));
                if all_hit {
                    let mut k: usize = 0;
                    while k < len
                        invariant
                            b.wf(),
                            self.ships@ == ships_now,
                            ships_now.len() == n,
                            0 <= i < n,
                            n == b.ships.len(),
                            b.sinks(i as int),
                            self.ships[i as int]@.positions == pos,
                            pos == b.ships[i as int].positions,
                            len == pos.len(),
                            k <= len,
                            self.grid@ == painted(b.sunk_cells_upto(i as int), pos.take(k as int), CellState::Sunken),
                        decreases len - k,
                    {
                        let (r, c) = self.ships[i].positions[k];
                        assert(pos[k as int] == (r, c));
                        assert(b.ships[i as int].wf());
                        assert(in_bounds(r as int, c as int));
                        let ghost before = pos.take(k as int);
                        self.grid.set(r * BOARD_SIZE + c, CellState::Sunken);
                        proof {
                            let after = pos.take(k + 1);
                            let base = b.sunk_cells_upto(i as int);
                            let target = painted(base, after, CellState::Sunken);
                            let prev = painted(base, before, CellState::Sunken);
                            assert forall|x: int| 0 <= x < CELL_COUNT implies self.grid@[x] == target[x] by {
                                if x == cell_index(r as int, c as int) {
                                    assert(after[k as int] == (r, c));
                                    assert(covers(after, x));
                                } else {
                                    assert(self.grid@[x] == prev[x]);
                                    if covers(after, x) {
                                        let m = choose|m: int| 0 <= m < after.len() && cell_index(after[m].0 as int, after[m].1 as int) == x;
                                        assert(before[m] == after[m]);
                                    }
                                    if covers(before, x) {
                                        let m = choose|m: int| 0 <= m < before.len() && cell_index(before[m].0 as int, before[m].1 as int) == x;
                                        assert(before[m] == after[m]);
                                    }
                                }
                            }
                            assert(self.grid@ =~= target);
                        }
                        k = k + 1;
                    }
                    proof {
                        assert(pos.take(len as int) =~= pos);
                        lemma_sunk_step(b, i as int);
                    }
                    self.ships[i].is_sunken = true;
                    proof {
                        assert forall|j: int| 0 <= j < n implies #[trigger] self@.ships[j] == (if j == i {
                            ShipView { positions: pos, sunken: true }
                        } else {
                            view_now[j]
                        }) by {
                            assert(self@.ships[j] == self.ships@[j]@);
                            assert(view_now[j] == ships_now[j]@);
                        }
                    }
                    let ghost prev_sunk = sunk@;
                    sunk.push(i);
                    proof {
                        assert(sunk@.last() == i);
                        assert forall|j: int| 0 <= j < i + 1 && #[trigger] b.sinks(j) implies sunk@.contains(j as usize) by {
                            if j == i {
                                assert(sunk@[sunk.len() - 1] == i);
                            } else {
                                assert(prev_sunk.contains(j as usize));
                                let m = choose|m: int| 0 <= m < prev_sunk.len() && prev_sunk[m] == j as usize;
                                assert(sunk@[m] == j as usize);
                            }
                        }
                    }
                } else {
                    proof {
                        assert(b.sunk_cells_upto(i as int) =~= b.sunk_cells_upto(i + 1)) by {
                            assert forall|x: int| 0 <= x < CELL_COUNT implies b.sunk_cells_upto(i as int)[x] == b.sunk_cells_upto(i + 1)[x] by {
                                if exists|j: int| 0 <= j < i + 1 && b.sinks(j) && covers(b.ships[j].positions, x) {
                                    let j = choose|j: int| 0 <= j < i + 1 && b.sinks(j) && covers(b.ships[j].positions, x);
                                    assert(j != i);
                                }
                            }
                        }
                    }
                }
            } else {
                proof {
                    assert(!b.sinks(i as int));
                    assert forall|x: int| 0 <= x < CELL_COUNT implies b.sunk_cells_upto(i as int)[x] == b.sunk_cells_upto(i + 1)[x] by {
                        if exists|j: int| 0 <= j < i + 1 && b.sinks(j) && covers(b.ships[j].positions, x) {
                            let j = choose|j: int| 0 <= j < i + 1 && b.sinks(j) && covers(b.ships[j].positions, x);
                            assert(j != i);
                        }
                    }
                    assert(b.sunk_cells_upto(i as int) =~= b.sunk_cells_upto(i + 1));
                }
            }
            i = i + 1;
        }
        proof {
            let t = b.sink_all();
            assert forall|j: int| 0 <= j < n implies self@.ships[j] == t.ships[j] by {
                assert(self@.ships[j].positions == t.ships[j].positions);
                assert(self@.ships[j].sunken == t.ships[j].sunken);
            }
            assert(self@.ships =~= t.ships);
            assert(self@.grid =~= t.grid);
            lemma_sink_all_wf(b);
        }
        sunk
    }

    /// Whether every ship on the board is sunken.
    pub fn is_game_over(&self) -> (over: bool)
        requires
            self.wf(),
        ensures
            over == self@.all_sunken(),
    {
        let mut i: usize = 0;
        while i < self.ships.len()
            invariant
                i <= self.ships.len(),
                forall|j: int| 0 <= j < i ==> (#[trigger] self@.ships[j]).sunken,
            decreases self.ships.len() - i,
        {
            assert(self@.ships[i as int] == self.ships[i as int]@);
            if !self.ships[i].is_sunken {
                return false;
            }
            i = i + 1;
        }
        true
    }
}

proof fn lemma_count_update(g: Seq<CellState>, x: int, v: CellState, s: CellState)
    requires
        0 <= x < g.len(),
    ensures
        count_state(g.update(x, v), s) + (if g[x] == s {
            1int
        } else {
            0int
        }) == count_state(g, s) + (if v == s {
            1int
        } else {
            0int
        }),
    decreases g.len(),
{
    if x == g.len() - 1 {
        assert(g.update(x, v).drop_last() =~= g.drop_last());
    } else {
        assert(g.update(x, v).drop_last() =~= g.drop_last().update(x, v));
        lemma_count_update(g.drop_last(), x, v, s);
    }
}

proof fn lemma_count_none(g: Seq<CellState>, s: CellState)
    requires
        forall|x: int| 0 <= x < g.len() ==> g[x] != s,
    ensures
        count_state(g, s) == 0,
    decreases g.len(),
{
    if g.len() > 0 {
        lemma_count_none(g.drop_last(), s);
    }
}

proof fn lemma_cell_index_injective(p: (usize, usize), q: (usize, usize))
    requires
        in_bounds(p.0 as int, p.1 as int),
        in_bounds(q.0 as int, q.1 as int),
        cell_index(p.0 as int, p.1 as int) == cell_index(q.0 as int, q.1 as int),
    ensures
        p == q,
{
}

/// Two different ships of a well-formed board cover no common cell.
proof fn lemma_ships_disjoint(b: BoardView, i: int, j: int, x: int)
    requires
        b.wf(),
        0 <= i < b.ships.len(),
        0 <= j < b.ships.len(),
        i != j,
    ensures
        !(covers(b.ships[i].positions, x) && covers(b.ships[j].positions, x)),
{
    if covers(b.ships[i].positions, x) && covers(b.ships[j].positions, x) {
        let pi = b.ships[i].positions;
        let pj = b.ships[j].positions;
        let k = choose|k: int| 0 <= k < pi.len() && cell_index(pi[k].0 as int, pi[k].1 as int) == x;
        let l = choose|l: int| 0 <= l < pj.len() && cell_index(pj[l].0 as int, pj[l].1 as int) == x;
        assert(b.ships[i].wf());
        assert(b.ships[j].wf());
        assert(in_bounds(pi[k].0 as int, pi[k].1 as int));
        assert(in_bounds(pj[l].0 as int, pj[l].1 as int));
        lemma_cell_index_injective(pi[k], pj[l]);
        assert(!touching(b.ships[i].positions[k], b.ships[j].positions[l]));
    }
}

/// While sinking goes through the ships in order, the cells of a ship not yet
/// reached are as they were.
proof fn lemma_unsunk_cell_kept(b: BoardView, i: int, k: int, n: int)
    requires
        b.wf(),
        0 <= i < b.ships.len(),
        0 <= k < b.ships[i].positions.len(),
        n <= b.ships.len(),
        n <= i || !b.sinks(i),
    ensures
        ({
            let p = b.ships[i].positions[k];
            let x = cell_index(p.0 as int, p.1 as int);
            &&& 0 <= x < CELL_COUNT
            &&& b.sunk_cells_upto(n)[x] == b.grid[x]
        }),
{
    let p = b.ships[i].positions[k];
    let x = cell_index(p.0 as int, p.1 as int);
    assert(b.ships[i].wf());
    assert(in_bounds(p.0 as int, p.1 as int));
    assert(covers(b.ships[i].positions, x));
    if exists|j: int| 0 <= j < n && b.sinks(j) && covers(b.ships[j].positions, x) {
        let j = choose|j: int| 0 <= j < n && b.sinks(j) && covers(b.ships[j].positions, x);
        lemma_ships_disjoint(b, i, j, x);
    }
}

/// Painting the cells of sinking ship `i` extends the sunk cells from the first
/// `i` ships to the first `i + 1`.
proof fn lemma_sunk_step(b: BoardView, i: int)
    requires
        b.wf(),
        0 <= i < b.ships.len(),
        b.sinks(i),
    ensures
        painted(b.sunk_cells_upto(i), b.ships[i].positions, CellState::Sunken) == b.sunk_cells_upto(
            i + 1,
        ),
{
    let pos = b.ships[i].positions;
    let lhs = painted(b.sunk_cells_upto(i), pos, CellState::Sunken);
    let rhs = b.sunk_cells_upto(i + 1);
    assert forall|x: int| 0 <= x < CELL_COUNT implies lhs[x] == rhs[x] by {
        if covers(pos, x) {
            assert(b.sinks(i) && covers(b.ships[i].positions, x));
        } else if exists|j: int| 0 <= j < i + 1 && b.sinks(j) && covers(b.ships[j].positions, x) {
            let j = choose|j: int| 0 <= j < i + 1 && b.sinks(j) && covers(b.ships[j].positions, x);
            assert(j != i);
        }
    }
    assert(lhs =~= rhs);
}

/// A sink check keeps the board's invariant.
pub(crate) proof fn lemma_sink_all_wf(b: BoardView)
    requires
        b.wf(),
    ensures
        b.sink_all().wf(),
{
    let t = b.sink_all();
    let n = b.ships.len() as int;
    assert forall|i: int| 0 <= i < t.ships.len() implies (#[trigger] t.ships[i]).wf() by {
        assert(b.ships[i].wf());
        assert(t.ships[i].positions == b.ships[i].positions);
    }
    assert forall|i: int, k: int|
        0 <= i < t.ships.len() && 0 <= k < t.ships[i].positions.len() implies {
        let s = t.cell_at(#[trigger] t.ships[i].positions[k]);
        if t.ships[i].sunken {
            s == CellState::Sunken
        } else {
            s == CellState::Ship || s == CellState::Hit
        }
    } by {
        let p = b.ships[i].positions[k];
        let x = cell_index(p.0 as int, p.1 as int);
        assert(t.ships[i].positions[k] == p);
        assert(b.ships[i].wf());
        assert(in_bounds(p.0 as int, p.1 as int));
        assert(covers(b.ships[i].positions, x));
        if b.sinks(i) {
            assert(t.grid[x] == CellState::Sunken);
        } else {
            lemma_unsunk_cell_kept(b, i, k, n);
        }
    }
    assert forall|r: int, c: int| in_bounds(r, c) && is_occupied(#[trigger] t.cell(r, c)) implies t.owned(
        r,
        c,
    ) by {
        let x = cell_index(r, c);
        if exists|j: int| 0 <= j < n && b.sinks(j) && covers(b.ships[j].positions, x) {
            let j = choose|j: int| 0 <= j < n && b.sinks(j) && covers(b.ships[j].positions, x);
            let pj = b.ships[j].positions;
            let l = choose|l: int| 0 <= l < pj.len() && cell_index(pj[l].0 as int, pj[l].1 as int) == x;
            assert(b.ships[j].wf());
            assert(in_bounds(pj[l].0 as int, pj[l].1 as int));
            lemma_cell_index_injective(pj[l], (r as usize, c as usize));
            assert(t.ships[j].positions[l] == (r as usize, c as usize));
        } else {
            assert(is_occupied(b.cell(r, c)));
            assert(b.owned(r, c));
            let (i, k) = choose|i: int, k: int|
                0 <= i < b.ships.len() && 0 <= k < b.ships[i].positions.len()
                    && #[trigger] b.ships[i].positions[k] == (r as usize, c as usize);
            assert(t.ships[i].positions[k] == (r as usize, c as usize));
        }
    }
    assert forall|i: int, j: int, k: int, l: int|
        0 <= i < t.ships.len() && 0 <= j < t.ships.len() && i != j && 0 <= k
            < t.ships[i].positions.len() && 0 <= l < t.ships[j].positions.len() implies !touching(
        #[trigger] t.ships[i].positions[k],
        #[trigger] t.ships[j].positions[l],
    ) by {
        assert(t.ships[i].positions == b.ships[i].positions);
        assert(t.ships[j].positions == b.ships[j].positions);
        assert(!touching(b.ships[i].positions[k], b.ships[j].positions[l]));
    }
}

/// Laying out a ship where it fits keeps the board's invariant, and shoots nothing.
proof fn lemma_placed_wf(b: BoardView, row: int, col: int, size: int, horizontal: bool)
    requires
        b.wf(),
        b.no_hits(),
        b.can_place(row, col, size, horizontal),
        1 <= size,
    ensures
        b.placed(row, col, size, horizontal).wf(),
        b.placed(row, col, size, horizontal).no_hits(),
{
    let n = b.placed(row, col, size, horizontal);
    let cells = line(row, col, size, horizontal);
    let new_ship = ShipView { positions: cells, sunken: false };
    let last = b.ships.len() as int;
    assert(n.ships[last] == new_ship);
    assert forall|k: int| 0 <= k < size implies b.free_for_ship(
        #[trigger] cells[k].0 as int,
        cells[k].1 as int,
    ) by {
        if horizontal {
            assert(b.free_for_ship(row, col + k));
        } else {
            assert(b.free_for_ship(row + k, col));
        }
    }
    // The new ship has its shape.
    if horizontal {
        assert(b.free_for_ship(row, col + 0));
    } else {
        assert(b.free_for_ship(row + 0, col));
    }
    assert forall|k: int| 0 <= k < size implies #[trigger] cells[k] == (if horizontal {
        (row as usize, (col + k) as usize)
    } else {
        ((row + k) as usize, col as usize)
    }) && in_bounds(cells[k].0 as int, cells[k].1 as int) && (if horizontal {
        cells[k].0 == row && cells[k].1 == col + k
    } else {
        cells[k].0 == row + k && cells[k].1 == col
    }) by {
        assert(b.free_for_ship(cells[k].0 as int, cells[k].1 as int));
    }
    if horizontal {
        assert(new_ship.is_row());
    } else {
        assert(new_ship.is_column());
    }
    assert(new_ship.wf());
    assert forall|i: int| 0 <= i < n.ships.len() implies (#[trigger] n.ships[i]).wf() by {
        if i < last {
            assert(n.ships[i] == b.ships[i]);
        }
    }
    // Each cell keeps or takes the Ship state.
    assert forall|x: int| 0 <= x < CELL_COUNT implies #[trigger] n.grid[x] == (if covers(
        cells,
        x,
    ) {
        CellState::Ship
    } else {
        b.grid[x]
    }) by {}
    // Ships and their cells agree.
    assert forall|i: int, k: int|
        0 <= i < n.ships.len() && 0 <= k < n.ships[i].positions.len() implies {
        let s = n.cell_at(#[trigger] n.ships[i].positions[k]);
        if n.ships[i].sunken {
            s == CellState::Sunken
        } else {
            s == CellState::Ship || s == CellState::Hit
        }
    } by {
        let p = n.ships[i].positions[k];
        if i == last {
            assert(p == cells[k]);
            assert(covers(cells, cell_index(p.0 as int, p.1 as int)));
        } else {
            assert(n.ships[i] == b.ships[i]);
            let x = cell_index(p.0 as int, p.1 as int);
            assert(b.ships[i].wf());
            assert(in_bounds(p.0 as int, p.1 as int));
            assert(0 <= x < CELL_COUNT);
            assert(b.grid[x] != CellState::Sunken);
        }
    }
    // Every ship cell is owned.
    assert forall|r: int, c: int| in_bounds(r, c) && is_occupied(#[trigger] n.cell(r, c)) implies n.owned(
        r,
        c,
    ) by {
        let x = cell_index(r, c);
        if covers(cells, x) {
            let k = choose|k: int|
                0 <= k < cells.len() && cell_index(cells[k].0 as int, cells[k].1 as int) == x;
            assert(b.free_for_ship(cells[k].0 as int, cells[k].1 as int));
            lemma_cell_index_injective(cells[k], (r as usize, c as usize));
            assert(n.ships[last].positions[k] == (r as usize, c as usize));
        } else {
            assert(is_occupied(b.cell(r, c)));
            assert(b.owned(r, c));
            let (i, k) = choose|i: int, k: int|
                0 <= i < b.ships.len() && 0 <= k < b.ships[i].positions.len()
                    && #[trigger] b.ships[i].positions[k] == (r as usize, c as usize);
            assert(n.ships[i] == b.ships[i]);
            assert(n.ships[i].positions[k] == (r as usize, c as usize));
        }
    }
    // No two ships touch.
    assert forall|i: int, j: int, k: int, l: int|
        0 <= i < n.ships.len() && 0 <= j < n.ships.len() && i != j && 0 <= k
            < n.ships[i].positions.len() && 0 <= l < n.ships[j].positions.len() implies !touching(
        #[trigger] n.ships[i].positions[k],
        #[trigger] n.ships[j].positions[l],
    ) by {
        if i < last && j < last {
            assert(n.ships[i] == b.ships[i]);
            assert(n.ships[j] == b.ships[j]);
        } else {
            let (si, sk, oi, ok) = if i == last {
                (i, k, j, l)
            } else {
                (j, l, i, k)
            };
            let p = n.ships[si].positions[sk];
            let q = n.ships[oi].positions[ok];
            assert(p == cells[sk]);
            assert(n.ships[oi] == b.ships[oi]);
            assert(b.ships[oi].wf());
            assert(in_bounds(q.0 as int, q.1 as int));
            let s = b.cell_at(q);
            assert(s == CellState::Ship || s == CellState::Hit);
            assert(b.grid[cell_index(q.0 as int, q.1 as int)] != CellState::Hit);
            assert(b.free_for_ship(p.0 as int, p.1 as int));
            if touching(p, q) {
                if p == q {
                    assert(false);
                } else {
                    assert(neighbours(p.0 as int, p.1 as int, q.0 as int, q.1 as int));
                    assert(b.cell(q.0 as int, q.1 as int) != CellState::Ship);
                }
            }
        }
    }
    assert(n.wf());
}

} // verus!
