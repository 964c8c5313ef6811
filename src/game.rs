use crate::board::{fire_outcome, Board, BoardView, CellState, PlacementFailed, BOARD_SIZE};
use crate::random::random_below;
use rand::rngs::StdRng;
use vstd::prelude::*;

verus! {

/// Whose turn it is, or who has won.
#[derive(Clone, Copy, Debug, PartialEq, Eq, Structural)]
pub enum Turn {
    PlayerTurn,
    OpponentTurn,
    PlayerWon,
    OpponentWon,
}

impl Turn {
    pub open spec fn is_finished(self) -> bool {
        self == Turn::PlayerWon || self == Turn::OpponentWon
    }
}

/// The turn after a shot with `outcome` from the side whose turn is `t`; `sunk_all`
/// tells whether every ship of the board shot at is then sunken. A miss passes
/// the turn; a hit keeps it, or wins the game when it sank the last ship.
pub open spec fn next_turn(t: Turn, outcome: CellState, sunk_all: bool) -> Turn {
    match t {
        Turn::PlayerTurn => if outcome == CellState::Miss {
            Turn::OpponentTurn
        } else if sunk_all {
            Turn::PlayerWon
        } else {
            Turn::PlayerTurn
        },
        Turn::OpponentTurn => if outcome == CellState::Miss {
            Turn::PlayerTurn
        } else if sunk_all {
            Turn::OpponentWon
        } else {
            Turn::OpponentTurn
        },
        other => other,
    }
}

/// What a shot did: Hit or Miss, and the ships it sent down.
pub struct ShotReport {
    pub outcome: CellState,
    pub sunk: Vec<usize>,
}

/// The player's board, the opponent's board, and whose turn it is.
pub struct Game {
    player: Board,
    opponent: Board,
    turn: Turn,
}

pub struct GameView {
    pub player: BoardView,
    pub opponent: BoardView,
    pub turn: Turn,
}

impl View for Game {
    type V = GameView;

    closed spec fn view(&self) -> GameView {
        GameView { player: self.player@, opponent: self.opponent@, turn: self.turn }
    }
}

impl GameView {
    /// The board that the side whose turn it is shoots at.
    pub open spec fn target(self) -> BoardView {
        if self.turn == Turn::PlayerTurn {
            self.opponent
        } else {
            self.player
        }
    }
}

/// Shoots at `(row, col)` on `board` and, on a hit, runs the sink check.
fn shoot(board: &mut Board, row: usize, col: usize) -> (report: ShotReport)
    requires
        old(board).wf(),
        row < BOARD_SIZE,
        col < BOARD_SIZE,
    ensures
        final(board).wf(),
        report.outcome == fire_outcome(old(board)@.cell(row as int, col as int)),
        final(board)@ == old(board)@.shot(row as int, col as int),
        report.outcome == CellState::Hit ==> old(board)@.fired(row as int, col as int).lists_sinking(
            report.sunk@,
        ),
        report.outcome != CellState::Hit ==> report.sunk@.len() == 0,
{
    let outcome = board.fire(row, col);
    let sunk = if outcome == CellState::Hit {
        board.check_for_sunken_ships()
    } else {
        Vec::new()
    };
    ShotReport { outcome, sunk }
}

impl Game {
    pub open spec fn wf(&self) -> bool {
        self@.player.wf() && self@.opponent.wf()
    }

    /// A game on two given boards, the player to shoot first.
    pub fn from_boards(player: Board, opponent: Board) -> (g: Game)
        requires
            player.wf(),
            opponent.wf(),
        ensures
            g.wf(),
            g@.player == player@,
            g@.opponent == opponent@,
            g@.turn == Turn::PlayerTurn,
    {
        Game { player, opponent, turn: Turn::PlayerTurn }
    }

    /// A new game: a fleet laid out at random on each board, the player's first,
    /// and the player to shoot first.
    pub fn new(rng: &mut StdRng) -> (res: Result<Game, PlacementFailed>)
        ensures
            res matches Ok(g) ==> {
                &&& g.wf()
                &&& g@.turn == Turn::PlayerTurn
                &&& g@.player.is_fleet_laid_out()
                &&& g@.opponent.is_fleet_laid_out()
            },
    {
        let mut player = Board::new();
        player.place_fleet(rng)?;
        let mut opponent = Board::new();
        opponent.place_fleet(rng)?;
        Ok(Game { player, opponent, turn: Turn::PlayerTurn })
    }

    pub fn turn(&self) -> (t: Turn)
        ensures
            t == self@.turn,
    {
        self.turn
    }

    pub fn player_board(&self) -> (b: &Board)
        ensures
            b@ == self@.player,
    {
        &self.player
    }

    pub fn opponent_board(&self) -> (b: &Board)
        ensures
            b@ == self@.opponent,
    {
        &self.opponent
    }

    /// The side whose turn it is shoots at `(row, col)` on the other side's
    /// board; on a hit the sink check runs. A miss passes the turn, a hit keeps
    /// it, and a hit that leaves every ship of that board sunken wins the game.
    pub fn take_shot(&mut self, row: usize, col: usize) -> (report: ShotReport)
        requires
            old(self).wf(),
            !old(self)@.turn.is_finished(),
            row < BOARD_SIZE,
            col < BOARD_SIZE,
        ensures
            final(self).wf(),
            report.outcome == fire_outcome(old(self)@.target().cell(row as int, col as int)),
            final(self)@.target_after(old(self)@) == old(self)@.target().shot(row as int, col as int),
            old(self)@.turn == Turn::PlayerTurn ==> final(self)@.player == old(self)@.player,
            old(self)@.turn != Turn::PlayerTurn ==> final(self)@.opponent == old(self)@.opponent,
            final(self)@.turn == next_turn(
                old(self)@.turn,
                report.outcome,
                old(self)@.target().shot(row as int, col as int).all_sunken(),
            ),
            report.outcome == CellState::Hit ==> old(self)@.target().fired(
                row as int,
                col as int,
            ).lists_sinking(report.sunk@),
            report.outcome != CellState::Hit ==> report.sunk@.len() == 0,
    {
        let player_turn = self.turn == Turn::PlayerTurn;
        let report = if player_turn {
            shoot(&mut self.opponent, row, col)
        } else {
            shoot(&mut self.player, row, col)
        };
        let sunk_all = if player_turn {
            self.opponent.is_game_over()
        } else {
            self.player.is_game_over()
        };
        self.turn =
        if report.outcome == CellState::Miss {
            if player_turn {
                Turn::OpponentTurn
            } else {
                Turn::PlayerTurn
            }
        } else if sunk_all {
            if player_turn {
                Turn::PlayerWon
            } else {
                Turn::OpponentWon
            }
        } else {
            self.turn
        };
        report
    }
}

impl GameView {
    /// In this state, the board that was the target in `before`.
    pub open spec fn target_after(self, before: GameView) -> BoardView {
        if before.turn == Turn::PlayerTurn {
            self.opponent
        } else {
            self.player
        }
    }
}

/// A target for the opponent, drawn uniformly over the board.
pub fn generate_opponent_move(rng: &mut StdRng) -> (target: (usize, usize))
    ensures
        target.0 < BOARD_SIZE,
        target.1 < BOARD_SIZE,
{
    (random_below(rng, BOARD_SIZE), random_below(rng, BOARD_SIZE))
}

} // verus!
