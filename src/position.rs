//! The mathematical model of a board: shape, bitboards, player to move and column counters,
//! with the rules of play stated over it.
//!
//! Each column occupies `height + 1` consecutive bits: offset `0` is the bottom cell and offset
//! `height` is a sentinel that is never set, so that shifting a bitboard never carries a line
//! from one column into the next.
use vstd::prelude::*;
use vstd::arithmetic::div_mod::lemma_fundamental_div_mod_converse;
use crate::bits::{
    bit, count_bits, lemma_bit_or, lemma_bit_single, lemma_count_set, popcount,
};

verus! {

/// A move: a single-bit cell mask in free-placement games, a column index in gravity games.
pub type Move = u64;

#[derive(Clone, Copy, Debug, PartialEq, Eq, Structural)]
pub enum Player {
    X,
    O,
}

impl Player {
    /// The other player.
    pub fn not(self) -> (r: Player)
        ensures
            r == self.other(),
    {
        match self {
            Player::O => Player::X,
            Player::X => Player::O,
        }
    }

    pub open spec fn other(self) -> Player {
        match self {
            Player::O => Player::X,
            Player::X => Player::O,
        }
    }
}

#[derive(Clone, Copy, Debug, PartialEq, Eq, Structural)]
pub enum BoardKind {
    XOBoard,
    C4Board,
}

/// Dimensions and placement rule of a game.
pub struct Shape {
    pub width: nat,
    pub height: nat,
    pub row: nat,
    pub gravity: bool,
}

impl Shape {
    /// Bits per column, sentinel included.
    pub open spec fn stride(self) -> int {
        self.height + 1int
    }

    /// Bits used by the whole board.
    pub open spec fn used(self) -> int {
        self.width * self.stride()
    }

    /// Bit index of the cell `y` levels above the bottom of column `c`.
    pub open spec fn cell(self, c: int, y: int) -> int {
        c * self.stride() + y
    }

    /// Bit `i` stands for a cell of the board (not a sentinel, not past the last column).
    pub open spec fn valid(self, i: int) -> bool {
        0 <= i < self.used() && i % self.stride() != self.height
    }

    pub open spec fn wf(self) -> bool {
        &&& 1 <= self.width
        &&& 1 <= self.height
        &&& 1 <= self.row
        &&& self.used() <= 64
        &&& self.gravity ==> self.width <= 10
    }
}

/// The mathematical content of a board.
pub struct Position {
    pub shape: Shape,
    pub x: u64,
    pub o: u64,
    pub to_move: Player,
    /// Fill counter of each column (gravity games); all zero in free-placement games.
    pub tops: Seq<u64>,
}

/// Four directions: vertical, horizontal and the two diagonals.
pub open spec fn stride_of(height: int, dir: int) -> int {
    if dir == 0 {
        1
    } else if dir == 1 {
        height + 1
    } else if dir == 2 {
        height
    } else {
        height + 2
    }
}

/// `len` set bits of `b` starting at `start`, each `stride` after the previous.
pub open spec fn line_at(b: u64, start: int, stride: int, len: int) -> bool {
    forall|k: int| 0 <= k < len ==> #[trigger] bit(b, start + k * stride)
}

/// `b` holds a line of `len` bits spaced by `stride`.
pub open spec fn has_line(b: u64, stride: int, len: int) -> bool {
    exists|i: int| 0 <= i < 64 && line_at(b, i, stride, len)
}

impl Position {
    pub open spec fn board_of(self, p: Player) -> u64 {
        match p {
            Player::X => self.x,
            Player::O => self.o,
        }
    }

    pub open spec fn occupied(self, i: int) -> bool {
        bit(self.x, i) || bit(self.o, i)
    }

    /// Cell `i` exists and is empty.
    pub open spec fn free(self, i: int) -> bool {
        self.shape.valid(i) && !self.occupied(i)
    }

    /// Number of pieces on the board.
    pub open spec fn filled(self) -> nat {
        popcount(self.x | self.o)
    }

    /// Number of cells still empty: the plies that the game can still last.
    pub open spec fn empty_cells(self) -> int {
        self.shape.width * self.shape.height - self.filled()
    }

    pub open spec fn has_won(self, p: Player) -> bool {
        exists|dir: int|
            0 <= dir < 4 && #[trigger] has_line(
                self.board_of(p),
                stride_of(self.shape.height as int, dir),
                self.shape.row as int,
            )
    }

    pub open spec fn draw(self) -> bool {
        &&& self.filled() == self.shape.width * self.shape.height
        &&& !self.has_won(Player::X)
        &&& !self.has_won(Player::O)
    }

    pub open spec fn over(self) -> bool {
        self.has_won(Player::X) || self.has_won(Player::O) || self.draw()
    }

    pub open spec fn wf(self) -> bool {
        &&& self.shape.wf()
        &&& forall|i: int| #[trigger] bit(self.x, i) ==> self.shape.valid(i) && !bit(self.o, i)
        &&& forall|i: int| #[trigger] bit(self.o, i) ==> self.shape.valid(i)
        &&& self.to_move == Player::X ==> popcount(self.x) == popcount(self.o)
        &&& self.to_move == Player::O ==> popcount(self.x) == popcount(self.o) + 1
        &&& self.tops.len() == self.shape.width
        &&& forall|c: int| 0 <= c < self.shape.width ==> #[trigger] self.tops[c] <= self.shape.height
        &&& !self.shape.gravity ==> forall|c: int|
            0 <= c < self.shape.width ==> #[trigger] self.tops[c] == 0
        &&& self.shape.gravity ==> forall|c: int, y: int|
            0 <= c < self.shape.width && 0 <= y < self.shape.height ==> (#[trigger] self.occupied(
                self.shape.cell(c, y),
            ) <==> y < self.tops[c])
    }

    /// Free placement: the move is the mask of one empty cell.  Gravity: the column has room.
    pub open spec fn legal(self, m: Move) -> bool {
        if self.shape.gravity {
            m < self.shape.width && self.tops[m as int] < self.shape.height
        } else {
            exists|i: int| #[trigger] self.free(i) && m == 1u64 << (i as u64)
        }
    }

    /// The bit that move `m` sets (for gravity, the lowest empty cell of column `m`).
    pub open spec fn move_bit(self, m: Move) -> u64 {
        if self.shape.gravity {
            1u64 << (self.shape.cell(m as int, self.tops[m as int] as int) as u64)
        } else {
            m
        }
    }

    /// What `can_play` answers: free placement asks for a game in progress and an empty target;
    /// gravity only for room in the column.
    pub open spec fn can_play(self, m: Move) -> bool {
        if self.shape.gravity {
            self.tops[m as int] < self.shape.height
        } else {
            !self.over() && (self.x | self.o) & m == 0
        }
    }

    /// Masks of the free cells at positions `i..64`, in ascending order.
    pub open spec fn free_cells(self, i: int) -> Seq<Move>
        decreases 64 - i,
    {
        if i < 0 || i >= 64 {
            Seq::empty()
        } else {
            let rest = self.free_cells(i + 1);
            if self.free(i) {
                seq![1u64 << (i as u64)] + rest
            } else {
                rest
            }
        }
    }

    /// The columns among the first `n` that have room, in ascending order.
    pub open spec fn open_columns(self, n: int) -> Seq<Move>
        decreases n,
    {
        if n <= 0 {
            Seq::empty()
        } else {
            let first = self.open_columns(n - 1);
            if self.tops[n - 1] < self.shape.height {
                first.push((n - 1) as u64)
            } else {
                first
            }
        }
    }

    /// The legal moves in the order in which they are tried.
    pub open spec fn moves(self) -> Seq<Move> {
        if self.shape.gravity {
            self.open_columns(self.shape.width as int)
        } else {
            self.free_cells(0)
        }
    }

    pub open spec fn with_board(self, p: Player, b: u64) -> Position {
        match p {
            Player::X => Position { x: b, ..self },
            Player::O => Position { o: b, ..self },
        }
    }

    /// The position after the player to move plays `m`.
    pub open spec fn play(self, m: Move) -> Position {
        let b = self.board_of(self.to_move) | self.move_bit(m);
        let q = self.with_board(self.to_move, b);
        if self.shape.gravity {
            Position {
                to_move: self.to_move.other(),
                tops: self.tops.update(m as int, (self.tops[m as int] + 1) as u64),
                ..q
            }
        } else {
            Position { to_move: self.to_move.other(), ..q }
        }
    }

    /// The position after taking back `m`, the move that the other player made last.
    pub open spec fn undo(self, m: Move) -> Position {
        let last = self.to_move.other();
        if self.shape.gravity {
            let t = (self.tops[m as int] - 1) as u64;
            let below = Position { tops: self.tops.update(m as int, t), ..self };
            let b = self.board_of(last) ^ below.move_bit(m);
            Position { to_move: last, ..below.with_board(last, b) }
        } else {
            let b = self.board_of(last) ^ m;
            Position { to_move: last, ..self.with_board(last, b) }
        }
    }
}

proof fn bv_set_then_clear(x: u64, k: u64)
    by (bit_vector)
    requires
        k < 64,
        (x >> k) & 1u64 != 1u64,
    ensures
        (x | (1u64 << k)) ^ (1u64 << k) == x,
{
}

proof fn bv_or_swap(x: u64, y: u64, b: u64)
    by (bit_vector)
    ensures
        (x | b) | y == (x | y) | b,
        x | (y | b) == (x | y) | b,
{
}

/// The dimensions of a well-formed shape are small.
pub proof fn lemma_shape_bounds(s: Shape)
    requires
        s.wf(),
    ensures
        s.height <= 63,
        s.width <= 64,
        s.height + 2 <= 65,
        s.width * s.height <= 64,
{
    assert(s.width * s.height <= s.width * (s.height + 1)) by (nonlinear_arith)
        requires
            s.width >= 1,
    ;
    assert(s.height + 1 <= s.width * (s.height + 1)) by (nonlinear_arith)
        requires
            s.width >= 1,
    ;
    assert(s.width <= s.width * (s.height + 1)) by (nonlinear_arith)
        requires
            s.height >= 0,
    ;
}

/// Cell coordinates of a bit index of the board.
pub proof fn lemma_cell_coords(s: Shape, c: int, y: int)
    requires
        s.wf(),
        0 <= y < s.stride(),
        0 <= c,
    ensures
        s.cell(c, y) % s.stride() == y,
        s.cell(c, y) / s.stride() == c,
        s.cell(c, y) >= 0,
        c < s.width ==> s.cell(c, y) < s.used(),
{
    lemma_fundamental_div_mod_converse(s.cell(c, y), s.stride(), c, y);
    if c < s.width {
        assert(c * s.stride() + y < s.width * s.stride()) by (nonlinear_arith)
            requires
                0 <= y < s.stride(),
                0 <= c < s.width,
        ;
    }
}

/// Every bit index splits into a column and a level.
pub proof fn lemma_index_coords(s: Shape, i: int)
    requires
        s.wf(),
        0 <= i,
    ensures
        i == s.cell(i / s.stride(), i % s.stride()),
        0 <= i % s.stride() < s.stride(),
        0 <= i / s.stride(),
        i < s.used() ==> i / s.stride() < s.width,
{
    vstd::arithmetic::div_mod::lemma_fundamental_div_mod(i, s.stride());
    vstd::arithmetic::div_mod::lemma_mod_pos_bound(i, s.stride());
    vstd::arithmetic::div_mod::lemma_div_pos_is_pos(i, s.stride());
    if i < s.used() {
        let c = i / s.stride();
        assert(c < s.width) by (nonlinear_arith)
            requires
                i == s.stride() * c + i % s.stride(),
                0 <= i % s.stride(),
                i < s.width * s.stride(),
                s.stride() > 0,
        ;
    }
}

/// A legal move sets exactly one cell that was free.
pub proof fn lemma_move_target(p: Position, m: Move) -> (k: int)
    requires
        p.wf(),
        p.legal(m),
    ensures
        0 <= k < 64,
        p.free(k),
        p.move_bit(m) == 1u64 << (k as u64),
        p.shape.gravity ==> k == p.shape.cell(m as int, p.tops[m as int] as int),
{
    if p.shape.gravity {
        let k = p.shape.cell(m as int, p.tops[m as int] as int);
        lemma_cell_coords(p.shape, m as int, p.tops[m as int] as int);
        assert(p.occupied(p.shape.cell(m as int, p.tops[m as int] as int)) <==> p.tops[m as int]
            < p.tops[m as int]);
        k
    } else {
        let k = choose|i: int| #[trigger] p.free(i) && m == 1u64 << (i as u64);
        k
    }
}

/// Playing a legal move keeps the board well formed and adds one piece.
pub proof fn lemma_play(p: Position, m: Move)
    requires
        p.wf(),
        p.legal(m),
    ensures
        p.play(m).wf(),
        p.play(m).filled() == p.filled() + 1,
        p.play(m).shape == p.shape,
{
    let k = lemma_move_target(p, m);
    let q = p.play(m);
    let b = 1u64 << (k as u64);
    assert forall|i: int| #[trigger] bit(q.board_of(p.to_move), i) == (bit(
        p.board_of(p.to_move),
        i,
    ) || i == k) by {
        lemma_bit_or(p.board_of(p.to_move), b, i);
        lemma_bit_single(k as u64, i);
    }
    assert(q.board_of(p.to_move.other()) == p.board_of(p.to_move.other()));
    assert forall|i: int| #[trigger] q.occupied(i) == (p.occupied(i) || i == k) by {
        assert(bit(q.board_of(p.to_move), i) == (bit(p.board_of(p.to_move), i) || i == k));
    }
    assert forall|i: int| #[trigger] bit(q.x, i) implies q.shape.valid(i) && !bit(q.o, i) by {
        assert(q.occupied(i) == (p.occupied(i) || i == k));
        assert(bit(q.board_of(p.to_move), i) == (bit(p.board_of(p.to_move), i) || i == k));
    }
    assert forall|i: int| #[trigger] bit(q.o, i) implies q.shape.valid(i) by {
        assert(q.occupied(i) == (p.occupied(i) || i == k));
    }
    // counts
    lemma_count_set(p.board_of(p.to_move), k as u64, 64);
    assert(!bit(p.x | p.o, k)) by {
        lemma_bit_or(p.x, p.o, k);
    }
    lemma_count_set(p.x | p.o, k as u64, 64);
    bv_or_swap(p.x, p.o, b);
    if p.to_move == Player::X {
        assert(q.x | q.o == (p.x | p.o) | b);
    } else {
        assert(q.x | q.o == (p.x | p.o) | b);
    }
    if p.shape.gravity {
        let s = p.shape;
        let t = p.tops[m as int] as int;
        assert forall|c: int, y: int|
            0 <= c < s.width && 0 <= y < s.height implies (#[trigger] q.occupied(s.cell(c, y))
            <==> y < q.tops[c]) by {
            assert(q.occupied(s.cell(c, y)) == (p.occupied(s.cell(c, y)) || s.cell(c, y) == k));
            lemma_cell_coords(s, c, y);
            lemma_cell_coords(s, m as int, t);
            assert(p.occupied(s.cell(c, y)) <==> y < p.tops[c]);
            if c != m {
                assert(s.cell(c, y) != k);
                assert(q.tops[c] == p.tops[c]);
            } else {
                assert(s.cell(c, y) == k <==> y == t);
            }
        }
        assert forall|c: int| 0 <= c < s.width implies #[trigger] q.tops[c] <= s.height by {
            if c != m {
                assert(q.tops[c] == p.tops[c]);
            }
        }
    } else {
        assert(q.tops == p.tops);
    }
}

/// Taking back a move restores the position bit for bit.
pub proof fn lemma_undo_play(p: Position, m: Move)
    requires
        p.wf(),
        p.legal(m),
    ensures
        p.play(m).undo(m) == p,
{
    let k = lemma_move_target(p, m);
    let q = p.play(m);
    let b = 1u64 << (k as u64);
    assert(!bit(p.board_of(p.to_move), k));
    bv_set_then_clear(p.board_of(p.to_move), k as u64);
    if p.shape.gravity {
        let r = q.undo(m);
        assert(q.tops[m as int] == p.tops[m as int] + 1);
        assert(r.tops =~= p.tops);
        let below = Position { tops: q.tops.update(m as int, p.tops[m as int]), ..q };
        assert(below.move_bit(m) == p.move_bit(m));
        assert(r.x == p.x);
        assert(r.o == p.o);
    }
}

impl Shape {
    pub open spec fn of(width: u32, height: u32, row: u32, kind: BoardKind) -> Shape {
        Shape {
            width: width as nat,
            height: height as nat,
            row: row as nat,
            gravity: kind == BoardKind::C4Board,
        }
    }
}

impl Position {
    /// The empty board with `X` to move.
    pub open spec fn start(shape: Shape) -> Position {
        Position {
            shape,
            x: 0,
            o: 0,
            to_move: Player::X,
            tops: Seq::new(shape.width, |c: int| 0u64),
        }
    }
}

proof fn lemma_free_cells_legal(p: Position, i: int)
    requires
        !p.shape.gravity,
    ensures
        forall|j: int| 0 <= j < p.free_cells(i).len() ==> p.legal(#[trigger] p.free_cells(i)[j]),
    decreases 64 - i,
{
    if 0 <= i < 64 {
        lemma_free_cells_legal(p, i + 1);
        let rest = p.free_cells(i + 1);
        if p.free(i) {
            assert forall|j: int| 0 <= j < p.free_cells(i).len() implies p.legal(
                #[trigger] p.free_cells(i)[j],
            ) by {
                if j > 0 {
                    assert(p.free_cells(i)[j] == rest[j - 1]);
                } else {
                    assert(p.free(i) && p.free_cells(i)[j] == 1u64 << (i as u64));
                }
            }
        }
    }
}

proof fn lemma_open_columns_legal(p: Position, n: int)
    requires
        p.shape.gravity,
        n <= p.shape.width <= 64,
    ensures
        forall|j: int|
            0 <= j < p.open_columns(n).len() ==> p.legal(#[trigger] p.open_columns(n)[j]),
    decreases n,
{
    if n > 0 {
        lemma_open_columns_legal(p, n - 1);
        let first = p.open_columns(n - 1);
        assert forall|j: int| 0 <= j < p.open_columns(n).len() implies p.legal(
            #[trigger] p.open_columns(n)[j],
        ) by {
            if j < first.len() {
                assert(p.open_columns(n)[j] == first[j]);
            } else {
                assert(p.open_columns(n)[j] == (n - 1) as u64);
            }
        }
    }
}

/// Every enumerated move is legal.
pub proof fn lemma_moves_legal(p: Position)
    requires
        p.wf(),
    ensures
        forall|j: int| 0 <= j < p.moves().len() ==> p.legal(#[trigger] p.moves()[j]),
{
    lemma_shape_bounds(p.shape);
    if p.shape.gravity {
        lemma_open_columns_legal(p, p.shape.width as int);
    } else {
        lemma_free_cells_legal(p, 0);
    }
}

/// Column and level steps of the four directions: up, right, right-and-down, right-and-up.
pub open spec fn step(dir: int) -> (int, int) {
    if dir == 0 {
        (0, 1)
    } else if dir == 1 {
        (1, 0)
    } else if dir == 2 {
        (1, -1)
    } else {
        (1, 1)
    }
}

/// Column `c`, level `y` is a cell of the board.
pub open spec fn inside(s: Shape, c: int, y: int) -> bool {
    0 <= c < s.width && 0 <= y < s.height
}

/// Column `c`, level `y` is a cell of the board that `b` holds.
pub open spec fn holds(s: Shape, b: u64, c: int, y: int) -> bool {
    inside(s, c, y) && bit(b, s.cell(c, y))
}

/// `len` cells of the board held in `b`, from column `c` and level `y` on, one step apart in
/// direction `dir`.
pub open spec fn cell_line(s: Shape, b: u64, c: int, y: int, dir: int, len: int) -> bool {
    forall|k: int|
        0 <= k < len ==> #[trigger] holds(s, b, c + k * step(dir).0, y + k * step(dir).1)
}

proof fn lemma_step_stride(s: Shape, c: int, y: int, dir: int, k: int)
    requires
        s.wf(),
        0 <= dir < 4,
    ensures
        s.cell(c + k * step(dir).0, y + k * step(dir).1) == s.cell(c, y) + k * stride_of(
            s.height as int,
            dir,
        ),
{
    let h = s.height as int;
    let dc = step(dir).0;
    let dy = step(dir).1;
    assert(stride_of(h, dir) == dc * (h + 1) + dy);
    assert((c + k * dc) * (h + 1) + (y + k * dy) == c * (h + 1) + y + k * (dc * (h + 1) + dy))
        by (nonlinear_arith);
}

/// One step from a cell of the board lands on the bit one stride further; when that bit is a
/// cell of the board, it is the next cell of the line.
proof fn lemma_step_lands(s: Shape, c: int, y: int, dir: int)
    requires
        s.wf(),
        0 <= dir < 4,
        inside(s, c, y),
        s.valid(s.cell(c, y) + stride_of(s.height as int, dir)),
    ensures
        inside(s, c + step(dir).0, y + step(dir).1),
{
    let h = s.height as int;
    let j = s.cell(c, y) + stride_of(h, dir);
    assert((c + 1) * (h + 1) == c * (h + 1) + h + 1) by (nonlinear_arith);
    if dir == 0 {
        lemma_cell_coords(s, c, y + 1);
    } else if dir == 1 {
        assert(j == s.cell(c + 1, y));
        lemma_cell_coords(s, c + 1, y);
    } else if dir == 2 {
        if y == 0 {
            lemma_cell_coords(s, c, h);
        } else {
            assert(j == s.cell(c + 1, y - 1));
            lemma_cell_coords(s, c + 1, y - 1);
        }
    } else {
        assert(j == s.cell(c + 1, y + 1));
        lemma_cell_coords(s, c + 1, y + 1);
    }
}

/// A line of set bits one stride apart, from a bit of a board that holds only cells, is a line
/// of cells.
proof fn lemma_bits_to_cells(s: Shape, b: u64, i: int, dir: int, len: int, n: int)
    requires
        s.wf(),
        0 <= dir < 4,
        forall|j: int| #[trigger] bit(b, j) ==> s.valid(j),
        line_at(b, i, stride_of(s.height as int, dir), len),
        1 <= n <= len,
        0 <= i < 64,
    ensures
        cell_line(s, b, i / s.stride(), i % s.stride(), dir, n),
    decreases n,
{
    let c = i / s.stride();
    let y = i % s.stride();
    let st = stride_of(s.height as int, dir);
    lemma_index_coords(s, i);
    if n == 1 {
        assert(bit(b, i + 0 * st));
        lemma_step_stride(s, c, y, dir, 0);
        assert(holds(s, b, c + 0 * step(dir).0, y + 0 * step(dir).1));
    } else {
        lemma_bits_to_cells(s, b, i, dir, len, n - 1);
        let k = n - 2;
        let dc = step(dir).0;
        let dy = step(dir).1;
        assert(holds(s, b, c + k * dc, y + k * dy));
        let c2 = c + k * dc;
        let y2 = y + k * dy;
        lemma_step_stride(s, c, y, dir, k);
        lemma_step_stride(s, c, y, dir, k + 1);
        assert(bit(b, i + (k + 1) * st));
        assert(i + k * st + st == i + (k + 1) * st) by (nonlinear_arith);
        lemma_step_lands(s, c2, y2, dir);
        assert(c2 + dc == c + (k + 1) * dc) by (nonlinear_arith)
            requires
                c2 == c + k * dc,
        ;
        assert(y2 + dy == y + (k + 1) * dy) by (nonlinear_arith)
            requires
                y2 == y + k * dy,
        ;
        assert(holds(s, b, c + (k + 1) * dc, y + (k + 1) * dy));
        assert forall|k2: int| 0 <= k2 < n implies #[trigger] holds(
            s,
            b,
            c + k2 * dc,
            y + k2 * dy,
        ) by {
            if k2 < n - 1 {
                assert(holds(s, b, c + k2 * dc, y + k2 * dy));
            }
        }
    }
}

/// A player has won exactly when `row` of the player's cells lie on one line: a column, a row
/// of the grid, or one of the two diagonals.
pub proof fn lemma_win_is_line_of_cells(p: Position, pl: Player)
    requires
        p.wf(),
    ensures
        p.has_won(pl) <==> exists|dir: int, c: int, y: int|
            0 <= dir < 4 && #[trigger] cell_line(
                p.shape,
                p.board_of(pl),
                c,
                y,
                dir,
                p.shape.row as int,
            ),
{
    let s = p.shape;
    let b = p.board_of(pl);
    let len = s.row as int;
    assert forall|j: int| #[trigger] bit(b, j) implies s.valid(j) by {
        assert(bit(p.x, j) ==> s.valid(j));
        assert(bit(p.o, j) ==> s.valid(j));
    }
    if p.has_won(pl) {
        let dir = choose|dir: int|
            0 <= dir < 4 && #[trigger] has_line(b, stride_of(s.height as int, dir), len);
        let i = choose|i: int|
            0 <= i < 64 && line_at(b, i, stride_of(s.height as int, dir), len);
        lemma_bits_to_cells(s, b, i, dir, len, len);
        assert(cell_line(s, b, i / s.stride(), i % s.stride(), dir, len));
    }
    if exists|dir: int, c: int, y: int| 0 <= dir < 4 && #[trigger] cell_line(s, b, c, y, dir, len) {
        let (dir, c, y) = choose|dir: int, c: int, y: int|
            0 <= dir < 4 && #[trigger] cell_line(s, b, c, y, dir, len);
        let st = stride_of(s.height as int, dir);
        let i = s.cell(c, y);
        assert(holds(s, b, c + 0 * step(dir).0, y + 0 * step(dir).1));
        lemma_cell_coords(s, c, y);
        assert forall|k: int| 0 <= k < len implies #[trigger] bit(b, i + k * st) by {
            lemma_step_stride(s, c, y, dir, k);
            assert(holds(s, b, c + k * step(dir).0, y + k * step(dir).1));
        }
        assert(line_at(b, i, st, len));
        assert(has_line(b, stride_of(s.height as int, dir), len));
    }
}

/// The set bits of `v` are exactly the cells of the board.
pub open spec fn covers(s: Shape, v: u64) -> bool {
    forall|i: int| 0 <= i < 64 ==> (#[trigger] bit(v, i) <==> s.valid(i))
}

/// The set bits of `v` are cells of the board.
pub open spec fn within(s: Shape, v: u64) -> bool {
    forall|i: int| #[trigger] bit(v, i) ==> s.valid(i)
}

proof fn lemma_count_block(s: Shape, v: u64, c: int, y: int)
    requires
        s.wf(),
        within(s, v),
        0 <= c < s.width,
        0 <= y <= s.height + 1,
        count_bits(v, s.cell(c, 0)) <= c * s.height,
        covers(s, v) ==> count_bits(v, s.cell(c, 0)) == c * s.height,
    ensures
        count_bits(v, s.cell(c, 0) + y) <= c * s.height + if y <= s.height {
            y
        } else {
            s.height as int
        },
        covers(s, v) ==> count_bits(v, s.cell(c, 0) + y) == c * s.height + if y <= s.height {
            y
        } else {
            s.height as int
        },
    decreases y,
{
    if y > 0 {
        lemma_count_block(s, v, c, y - 1);
        lemma_cell_coords(s, c, y - 1);
        assert(s.cell(c, 0) + y - 1 == s.cell(c, y - 1));
        assert(bit(v, s.cell(c, y - 1)) ==> s.valid(s.cell(c, y - 1)));
        if covers(s, v) {
            assert(bit(v, s.cell(c, y - 1)) <==> s.valid(s.cell(c, y - 1)));
        }
    }
}

proof fn lemma_count_columns(s: Shape, v: u64, c: int)
    requires
        s.wf(),
        within(s, v),
        0 <= c <= s.width,
    ensures
        count_bits(v, s.cell(c, 0)) <= c * s.height,
        covers(s, v) ==> count_bits(v, s.cell(c, 0)) == c * s.height,
    decreases c,
{
    if c > 0 {
        lemma_count_columns(s, v, c - 1);
        lemma_count_block(s, v, c - 1, s.stride());
        assert(s.cell(c - 1, 0) + s.height + 1 == s.cell(c, 0)) by (nonlinear_arith);
        assert((c - 1) * s.height + s.height == c * s.height) by (nonlinear_arith);
    } else {
        assert(s.cell(0, 0) == 0);
    }
}

proof fn lemma_count_tail(s: Shape, v: u64, n: int)
    requires
        s.wf(),
        within(s, v),
        s.used() <= n <= 64,
    ensures
        count_bits(v, n) <= s.width * s.height,
        covers(s, v) ==> count_bits(v, n) == s.width * s.height,
    decreases n,
{
    if n > s.used() {
        lemma_count_tail(s, v, n - 1);
        assert(!bit(v, n - 1));
    } else {
        lemma_count_columns(s, v, s.width as int);
    }
}

/// A well-formed board holds at most one piece per cell.
pub proof fn lemma_filled_le(p: Position)
    requires
        p.wf(),
    ensures
        p.filled() <= p.shape.width * p.shape.height,
{
    let v = p.x | p.o;
    assert forall|i: int| #[trigger] bit(v, i) implies p.shape.valid(i) by {
        lemma_bit_or(p.x, p.o, i);
    }
    lemma_shape_bounds(p.shape);
    lemma_count_tail(p.shape, v, 64);
}

proof fn lemma_no_free_cells(p: Position, j: int, i: int)
    requires
        p.free_cells(j).len() == 0,
        0 <= j <= i < 64,
    ensures
        !p.free(i),
    decreases i - j,
{
    if j < i {
        lemma_no_free_cells(p, j + 1, i);
    }
}

proof fn lemma_no_open_columns(p: Position, n: int, c: int)
    requires
        p.open_columns(n).len() == 0,
        0 <= c < n,
    ensures
        p.tops[c] >= p.shape.height,
    decreases n,
{
    if c < n - 1 {
        lemma_no_open_columns(p, n - 1, c);
    }
}

/// A well-formed board that is not over has a legal move.
pub proof fn lemma_has_moves(p: Position)
    requires
        p.wf(),
        !p.over(),
    ensures
        p.moves().len() > 0,
{
    if p.moves().len() == 0 {
        let s = p.shape;
        let v = p.x | p.o;
        assert forall|i: int| 0 <= i < 64 && s.valid(i) implies p.occupied(i) by {
            if s.gravity {
                lemma_index_coords(s, i);
                let c = i / s.stride();
                let y = i % s.stride();
                lemma_no_open_columns(p, s.width as int, c);
                assert(p.occupied(s.cell(c, y)) <==> y < p.tops[c]);
            } else {
                lemma_no_free_cells(p, 0, i);
            }
        }
        assert forall|i: int| 0 <= i < 64 implies (#[trigger] bit(v, i) <==> s.valid(i)) by {
            lemma_bit_or(p.x, p.o, i);
        }
        lemma_count_tail(s, v, 64);
        assert(p.draw());
    }
}

/// On well-formed boards of one shape the bitboards determine the player to move and the
/// column counters.
pub proof fn lemma_same_bits(p: Position, q: Position)
    requires
        p.wf(),
        q.wf(),
        p.shape == q.shape,
        p.x == q.x,
        p.o == q.o,
    ensures
        p == q,
{
    assert(p.to_move == q.to_move);
    assert forall|c: int| 0 <= c < p.tops.len() implies p.tops[c] == q.tops[c] by {
        if p.shape.gravity {
            if p.tops[c] < q.tops[c] {
                assert(p.occupied(p.shape.cell(c, p.tops[c] as int)) <==> p.tops[c] < p.tops[c]);
                assert(q.occupied(q.shape.cell(c, p.tops[c] as int)) <==> p.tops[c] < q.tops[c]);
            }
            if q.tops[c] < p.tops[c] {
                assert(p.occupied(p.shape.cell(c, q.tops[c] as int)) <==> q.tops[c] < p.tops[c]);
                assert(q.occupied(q.shape.cell(c, q.tops[c] as int)) <==> q.tops[c] < q.tops[c]);
            }
        }
    }
    assert(p.tops =~= q.tops);
}

} // verus!
