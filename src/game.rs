//! A game: a board together with the solver that searches it.
use vstd::prelude::*;
use crate::board::{render_text, Board};
use crate::position::{
    lemma_cell_coords, lemma_has_moves, lemma_shape_bounds, BoardKind, Move, Player, Position, Shape,
};
use crate::search::{best_move_of, evaluation_of, Solver, INFINITY, WIN_SCORE};
use crate::table::no_entries;

verus! {

/// What a front end drives: the board as the game goes on, and the solver asked for moves.
pub struct Game {
    pub board: Board,
    pub solver: Solver,
}

/// `best_move` and `evaluation` answer from the position alone: two games on the same position
/// pick the same move and give the same evaluation, whatever their transposition tables hold
/// (filled by earlier searches or cleared).
pub proof fn lemma_answers_ignore_table(a: Game, b: Game)
    requires
        a.wf(),
        b.wf(),
        a.board@ == b.board@,
    ensures
        best_move_of(a.board@) == best_move_of(b.board@),
        evaluation_of(a.board@) == evaluation_of(b.board@),
{
}

/// Whole turns (two plies each, rounded up) in an evaluation, whichever side wins.
pub fn turns_to_win(eval: i32) -> (r: u32)
    ensures
        r == (if eval < 0 {
            -eval
        } else {
            eval as int
        } + 1) / 2,
{
    let plies: i64 = if eval < 0 {
        -(eval as i64)
    } else {
        eval as i64
    };
    ((plies + 1) / 2) as u32
}

impl Game {
    /// The board is well formed and the solver's table describes boards of its shape.
    pub open spec fn wf(&self) -> bool {
        &&& self.board.wf()
        &&& self.solver.wf()
        &&& self.solver.shape() == self.board@.shape
    }

    /// The mask of the cell at `pos` (row from the top, column from the left).
    pub open spec fn pos_move(&self, pos: (u32, u32)) -> Move {
        1u64 << (self.board@.shape.cell(pos.1 as int, self.board@.shape.height - 1 - pos.0)
            as u64)
    }

    /// An empty board of the given dimensions and kind, `X` to move, with an empty table.
    pub fn new(width: u32, height: u32, row: u32, kind: BoardKind) -> (g: Game)
        requires
            Shape::of(width, height, row, kind).wf(),
        ensures
            g.wf(),
            g.board@ == Position::start(Shape::of(width, height, row, kind)),
            g.solver.entries() == no_entries(),
    {
        Game {
            board: Board::new(width, height, row, kind),
            solver: Solver::new(Ghost(Shape::of(width, height, row, kind))),
        }
    }

    /// A free-placement game.
    pub fn new_xo(width: u32, height: u32, row: u32) -> (g: Game)
        requires
            Shape::of(width, height, row, BoardKind::XOBoard).wf(),
        ensures
            g.wf(),
            g.board@ == Position::start(Shape::of(width, height, row, BoardKind::XOBoard)),
            g.solver.entries() == no_entries(),
    {
        Game::new(width, height, row, BoardKind::XOBoard)
    }

    /// A gravity game.
    pub fn new_connect_four(width: u32, height: u32, row: u32) -> (g: Game)
        requires
            Shape::of(width, height, row, BoardKind::C4Board).wf(),
        ensures
            g.wf(),
            g.board@ == Position::start(Shape::of(width, height, row, BoardKind::C4Board)),
            g.solver.entries() == no_entries(),
    {
        Game::new(width, height, row, BoardKind::C4Board)
    }

    /// Plays the cell at `pos`.
    pub fn place(&mut self, pos: (u32, u32))
        requires
            old(self).wf(),
            pos.0 < old(self).board@.shape.height,
            pos.1 < old(self).board@.shape.width,
            old(self).board@.legal(old(self).pos_move(pos)),
        ensures
            final(self).wf(),
            final(self).board@ == old(self).board@.play(old(self).pos_move(pos)),
            final(self).solver == old(self).solver,
    {
        let mov = self.pos_to_move(pos);
        self.board.placebit(mov);
    }

    pub fn placebit(&mut self, mov: Move)
        requires
            old(self).wf(),
            old(self).board@.legal(mov),
        ensures
            final(self).wf(),
            final(self).board@ == old(self).board@.play(mov),
            final(self).solver == old(self).solver,
    {
        self.board.placebit(mov);
    }

    /// The move mask of the cell at `pos` (row from the top, column from the left).
    pub fn pos_to_move(&self, pos: (u32, u32)) -> (r: Move)
        requires
            self.wf(),
            pos.0 < self.board@.shape.height,
            pos.1 < self.board@.shape.width,
        ensures
            r == self.pos_move(pos),
    {
        let i = self.board.get_index(pos.0, pos.1);
        proof {
            lemma_cell_coords(
                self.board@.shape,
                pos.1 as int,
                self.board@.shape.height - 1 - pos.0,
            );
        }
        1u64 << i
    }

    /// The first best move for the player to move; the board is left as it was.
    pub fn best_move(&mut self) -> (r: Move)
        requires
            old(self).wf(),
            !old(self).board@.over(),
        ensures
            final(self).wf(),
            final(self).board@ == old(self).board@,
            r == best_move_of(old(self).board@),
    {
        proof {
            lemma_has_moves(self.board@);
        }
        self.solver.best_move(&mut self.board)
    }

    pub fn can_play(&self, mov: Move) -> (r: bool)
        requires
            self.wf(),
            self.board@.shape.gravity ==> mov < self.board@.shape.width,
        ensures
            r == self.board@.can_play(mov),
    {
        self.board.can_play(mov)
    }

    /// The board as text, without the bitboards.
    pub fn render(&self) -> (r: String)
        requires
            self.wf(),
        ensures
            r@ == render_text(self.board@, false),
    {
        self.board.render(false)
    }

    /// Whether a board of these dimensions fits the bitboards (and, for gravity, the column
    /// list): what the constructors require.
    pub fn fits(width: u32, height: u32, row: u32, kind: BoardKind) -> (r: bool)
        ensures
            r == Shape::of(width, height, row, kind).wf(),
    {
        if width < 1 || height < 1 || row < 1 || height > 63 || width > 64 {
            proof {
                if Shape::of(width, height, row, kind).wf() {
                    lemma_shape_bounds(Shape::of(width, height, row, kind));
                }
            }
            return false;
        }
        assert(width * (height + 1) <= 64 * 64) by (nonlinear_arith)
            requires
                width <= 64,
                height <= 63,
        ;
        let used: u32 = width * (height + 1);
        used <= 64 && (kind == BoardKind::XOBoard || width <= 10)
    }

    /// Plies to the end of the game under best play: `0` for a draw, positive when `X` wins,
    /// negative when `O` wins.
    pub fn evaluation(&mut self) -> (r: i32)
        requires
            old(self).wf(),
        ensures
            final(self).wf(),
            final(self).board@ == old(self).board@,
            r == evaluation_of(old(self).board@),
    {
        let player: i8 = match self.board.player() {
            Player::X => -1,
            Player::O => 1,
        };
        proof {
            crate::bits::lemma_count_le(self.board@.x | self.board@.o, 64);
            lemma_shape_bounds(self.board@.shape);
        }
        let v = self.solver.value_of(&mut self.board, INFINITY, player);
        assert(v * -player == if player == 1 { -v } else { v as int }) by (nonlinear_arith)
            requires
                player == 1 || player == -1,
        ;
        let score = v * -player as i32;
        if score == 0 {
            return 0;
        }
        match score < 0 {
            true => -WIN_SCORE - score,
            false => WIN_SCORE - score,
        }
    }
}

} // verus!
