//! The board: two bitboards, the player to move and, in gravity games, the column fill counters.
use vstd::prelude::*;
use vstd::arithmetic::div_mod::lemma_fundamental_div_mod_converse;
use crate::moves::{column_list, columns_new, columns_push, mask_moves, Moves};
use crate::position::{
    cell_line, has_line, lemma_cell_coords, lemma_play, lemma_shape_bounds,
    lemma_undo_play, lemma_win_is_line_of_cells, line_at, stride_of, BoardKind, Move, Player,
    Position, Shape,
};
use crate::bits::{
    binary_digits, bit, count_ones, lemma_bit_and, lemma_bit_high, lemma_bit_not, lemma_bit_or,
    lemma_bit_shr, lemma_bit_single, lemma_bit_test, lemma_bit_zero, lemma_count_zero,
    lemma_nonzero_iff_bit, push_binary, push_char,
};

verus! {

/// A board of one game; its view is the `Position` it stands for.  Well formed boards keep the
/// two bitboards disjoint and on cells of the board, alternate the players and, in gravity
/// games, keep every column filled from the bottom up to its counter.
#[derive(Clone)]
pub struct Board {
    width: u32,
    height: u32,
    row: u32,
    pub bitboards: [u64; 2],
    player: Player,
    top_mask: u64,
    used_bits: u8,
    col_tops: Vec<u64>,
    kind: BoardKind,
}

impl View for Board {
    type V = Position;

    closed spec fn view(&self) -> Position {
        Position {
            shape: Shape::of(self.width, self.height, self.row, self.kind),
            x: self.bitboards[0],
            o: self.bitboards[1],
            to_move: self.player,
            tops: self.col_tops@,
        }
    }
}

/// Bit `j` of the sentinel mask: the top (sentinel) bit of one of the first `width` columns.
pub open spec fn sentinel(height: int, width: int, j: int) -> bool {
    0 <= j < width * (height + 1) && j % (height + 1) == height
}

proof fn lemma_level_unique(h: int, c: int, q: int, j: int)
    by (nonlinear_arith)
    requires
        h >= 1,
        0 <= c,
        0 <= q,
        j == q * (h + 1) + h,
        c * (h + 1) <= j < (c + 1) * (h + 1),
    ensures
        q == c,
{
}

/// The mask of the sentinel bits of the first `width` columns.
fn generate_top_mask(width: u32, height: u32) -> (r: u64)
    requires
        1 <= height,
        width * (height + 1) <= 64,
    ensures
        forall|j: int| #[trigger] bit(r, j) == sentinel(height as int, width as int, j),
{
    let ghost h = height as int;
    let mut top_mask: u64 = 0;
    let mut c: u32 = 0;
    proof {
        assert forall|j: int| #[trigger] bit(top_mask, j) == sentinel(h, c as int, j) by {
            lemma_bit_zero(j);
        }
    }
    while c < width
        invariant
            c <= width,
            1 <= height,
            h == height,
            width * (height + 1) <= 64,
            forall|j: int| #[trigger] bit(top_mask, j) == sentinel(h, c as int, j),
        decreases width - c,
    {
        assert(c * (height + 1) + height < width * (height + 1)) by (nonlinear_arith)
            requires
                c < width,
        ;
        let k: u64 = c as u64 * (height as u64 + 1) + height as u64;
        let ghost old_mask = top_mask;
        top_mask = top_mask | (1u64 << k);
        proof {
            lemma_fundamental_div_mod_converse(k as int, h + 1, c as int, h);
            assert((c + 1) * (h + 1) == c * (h + 1) + h + 1) by (nonlinear_arith);
            assert forall|j: int| #[trigger] bit(top_mask, j) == sentinel(h, c + 1, j) by {
                lemma_bit_or(old_mask, 1u64 << k, j);
                lemma_bit_single(k, j);
                assert(bit(old_mask, j) == sentinel(h, c as int, j));
                if sentinel(h, c + 1, j) && !sentinel(h, c as int, j) {
                    vstd::arithmetic::div_mod::lemma_fundamental_div_mod(j, h + 1);
                    vstd::arithmetic::div_mod::lemma_div_pos_is_pos(j, h + 1);
                    assert((h + 1) * (j / (h + 1)) == (j / (h + 1)) * (h + 1)) by (nonlinear_arith);
                    lemma_level_unique(h, c as int, j / (h + 1), j);
                }
            }
        }
        c = c + 1;
    }
    top_mask
}

proof fn lemma_mask_moves(p: Position, mask: u64, j: int)
    requires
        0 <= j,
        forall|i: int| 0 <= i < 64 ==> #[trigger] bit(mask, i) == p.free(i),
    ensures
        mask_moves(mask, j) == p.free_cells(j),
    decreases 64 - j,
{
    if j < 64 {
        lemma_mask_moves(p, mask, j + 1);
    }
}

proof fn lemma_open_columns_len(p: Position, n: int)
    ensures
        p.open_columns(n).len() <= if n < 0 {
            0
        } else {
            n
        },
    decreases n,
{
    if n > 0 {
        lemma_open_columns_len(p, n - 1);
    }
}

/// A fresh cursor over the legal moves of `p`: in free placement the mask of exactly the empty
/// cells, in gravity the open columns in ascending order; the cursor at the start.
pub open spec fn fresh_moves(p: Position, r: Moves) -> bool {
    match r {
        Moves::XOMoves(mask, pos) => {
            &&& !p.shape.gravity
            &&& pos == 0
            &&& forall|i: int| #[trigger] bit(mask, i) == p.free(i)
        },
        Moves::C4Moves(v, pos) => {
            &&& p.shape.gravity
            &&& pos == 0
            &&& column_list(v) == p.open_columns(p.shape.width as int)
        },
    }
}

/// How a cell is drawn.
pub open spec fn cell_char(p: Position, i: int) -> char {
    if bit(p.x, i) {
        'X'
    } else if bit(p.o, i) {
        'O'
    } else {
        '.'
    }
}

/// The first `n` cells of row `r` (counted from the top), left to right.
pub open spec fn row_text(p: Position, r: int, n: int) -> Seq<char>
    decreases n,
{
    if n <= 0 {
        Seq::empty()
    } else {
        row_text(p, r, n - 1).push(cell_char(p, p.shape.cell(n - 1, p.shape.height - 1 - r)))
    }
}

/// The first `n` rows, top first, each ended by a newline.
pub open spec fn grid_text(p: Position, n: int) -> Seq<char>
    decreases n,
{
    if n <= 0 {
        Seq::empty()
    } else {
        grid_text(p, n - 1) + row_text(p, n - 1, p.shape.width as int).push('\n')
    }
}

/// The rendering of a board: its grid, then on request a blank line and both bitboards in
/// binary.
pub open spec fn render_text(p: Position, debug: bool) -> Seq<char> {
    let grid = grid_text(p, p.shape.height as int);
    if debug {
        grid + seq!['\n', 'X', ':', ' '] + binary_digits(p.x) + seq!['\n', 'O', ':', ' ']
            + binary_digits(p.o)
    } else {
        grid
    }
}

/// Whether `b` holds `len` set bits spaced by `stride`: the word is ANDed with itself shifted by
/// one more stride for each further bit of the line.
fn line_in(b: u64, stride: u64, len: u32) -> (r: bool)
    requires
        1 <= stride <= 65,
        1 <= len,
    ensures
        r == has_line(b, stride as int, len as int),
{
    let mut run: u64 = b;
    let mut k: u32 = 1;
    proof {
        assert forall|i: int| #[trigger] bit(run, i) == (0 <= i < 64 && line_at(b, i, stride as int, 1)) by {
            if 0 <= i < 64 {
                assert(i + 0 * stride == i);
            }
        }
    }
    while k < len && run != 0
        invariant
            1 <= k <= len,
            1 <= stride <= 65,
            forall|i: int| #[trigger] bit(run, i) == (0 <= i < 64 && line_at(b, i, stride as int, k as int)),
        decreases len - k,
    {
        assert(k as u64 * stride <= 0xffff_ffff * 65) by (nonlinear_arith)
            requires
                k <= 0xffff_ffff,
                stride <= 65,
        ;
        let shift: u64 = k as u64 * stride;
        let ghost prev = run;
        if shift >= 64 {
            run = 0;
        } else {
            run = run & (b >> shift);
        }
        proof {
            assert forall|i: int| #[trigger] bit(run, i) == (0 <= i < 64 && line_at(b, i, stride as int, k + 1)) by {
                if 0 <= i < 64 {
                    assert(bit(prev, i) == line_at(b, i, stride as int, k as int));
                    if shift >= 64 {
                        lemma_bit_zero(i);
                        assert(!bit(b, i + k * stride));
                    } else {
                        lemma_bit_and(prev, b >> shift, i);
                        lemma_bit_shr(b, shift, i);
                    }
                    if line_at(b, i, stride as int, k + 1) {
                        assert(bit(b, i + k * stride));
                    }
                    if line_at(b, i, stride as int, k as int) && bit(b, i + k * stride) {
                        assert forall|j: int| 0 <= j < k + 1 implies #[trigger] bit(b, i + j * stride) by {
                            if j < k {
                                assert(bit(b, i + j * stride));
                            }
                        }
                    }
                } else {
                    lemma_bit_zero(i);
                }
            }
        }
        k = k + 1;
    }
    proof {
        lemma_nonzero_iff_bit(run);
        if run == 0 {
            if has_line(b, stride as int, len as int) {
                let i = choose|i: int| 0 <= i < 64 && line_at(b, i, stride as int, len as int);
                assert(line_at(b, i, stride as int, k as int));
                assert(bit(run, i));
            }
        } else {
            let i = choose|i: int| bit(run, i);
            assert(line_at(b, i, stride as int, len as int));
        }
    }
    run != 0
}

impl Board {
    pub closed spec fn internal_ok(&self) -> bool {
        &&& self.used_bits as int == self@.shape.used()
        &&& forall|j: int|
            #[trigger] bit(self.top_mask, j) == sentinel(self.height as int, self.width as int, j)
    }

    pub open spec fn wf(&self) -> bool {
        self@.wf() && self.internal_ok()
    }

    pub fn new(width: u32, height: u32, row: u32, kind: BoardKind) -> (b: Board)
        requires
            Shape::of(width, height, row, kind).wf(),
        ensures
            b.wf(),
            b@ == Position::start(Shape::of(width, height, row, kind)),
    {
        let s = Ghost(Shape::of(width, height, row, kind));
        proof {
            lemma_shape_bounds(s@);
        }
        let used = (width * (height + 1)) as u8;
        let top_mask = generate_top_mask(width, height);
        let mut col_tops: Vec<u64> = Vec::new();
        let mut c: u32 = 0;
        while c < width
            invariant
                c <= width,
                col_tops@ == Seq::new(c as nat, |i: int| 0u64),
            decreases width - c,
        {
            col_tops.push(0);
            c = c + 1;
            assert(col_tops@ =~= Seq::new(c as nat, |i: int| 0u64));
        }
        let b = Board {
            width,
            height,
            row,
            bitboards: [0, 0],
            player: Player::X,
            top_mask,
            used_bits: used,
            col_tops,
            kind,
        };
        proof {
            assert(b@.tops =~= Position::start(s@).tops);
            assert forall|i: int| !#[trigger] bit(0u64, i) by {
                lemma_bit_zero(i);
            }
            lemma_count_zero(64);
            if s@.gravity {
                assert forall|c: int, y: int|
                    0 <= c < s@.width && 0 <= y < s@.height implies (#[trigger] b@.occupied(
                    s@.cell(c, y),
                ) <==> y < b@.tops[c]) by {
                    lemma_bit_zero(s@.cell(c, y));
                }
            }
        }
        b
    }

    /// Bit index of the cell at `row` (counted from the top) and `column`.
    pub(crate) fn get_index(&self, row: u32, column: u32) -> (r: u32)
        requires
            self.wf(),
            row < self@.shape.height,
            column < self@.shape.width,
        ensures
            r == self@.shape.cell(column as int, self@.shape.height - 1 - row),
    {
        proof {
            lemma_shape_bounds(self@.shape);
            lemma_cell_coords(self@.shape, column as int, self@.shape.height - 1 - row);
        }
        let height = self.height + 1;
        let row = row + 1;
        height - 1 - row + (column * height)
    }

    /// The move mask meets an occupied cell.
    fn occupied(&self, mov: Move) -> (r: bool)
        ensures
            r == ((self@.x | self@.o) & mov != 0),
    {
        (self.bitboards[0] | self.bitboards[1]) & mov != 0
    }

    pub fn placebit(&mut self, mov: Move)
        requires
            old(self).wf(),
            old(self)@.legal(mov),
        ensures
            final(self).wf(),
            final(self)@ == old(self)@.play(mov),
    {
        proof {
            lemma_play(self@, mov);
        }
        let ghost before = self@;
        match self.kind {
            BoardKind::XOBoard => {
                self.put(mov);
            },
            BoardKind::C4Board => {
                let col = mov as usize;
                let top = self.col_tops[col];
                proof {
                    lemma_cell_coords(before.shape, mov as int, top as int);
                }
                let b: u64 = 1u64 << (top + mov * (self.height as u64 + 1));
                self.put(b);
                self.col_tops.set(col, top + 1);
            },
        }
        self.player = self.player.not();
        proof {
            assert(self@.tops =~= before.play(mov).tops);
        }
    }

    /// Sets the bits of `b` in the bitboard of the player to move.
    fn put(&mut self, b: u64)
        ensures
            final(self).player == old(self).player,
            final(self).col_tops == old(self).col_tops,
            final(self).width == old(self).width,
            final(self).height == old(self).height,
            final(self).row == old(self).row,
            final(self).kind == old(self).kind,
            final(self).top_mask == old(self).top_mask,
            final(self).used_bits == old(self).used_bits,
            final(self)@.x == if old(self).player == Player::X {
                old(self)@.x | b
            } else {
                old(self)@.x
            },
            final(self)@.o == if old(self).player == Player::O {
                old(self)@.o | b
            } else {
                old(self)@.o
            },
    {
        match self.player {
            Player::X => {
                self.bitboards = [self.bitboards[0] | b, self.bitboards[1]];
            },
            Player::O => {
                self.bitboards = [self.bitboards[0], self.bitboards[1] | b];
            },
        }
    }

    /// Flips the bits of `b` in the bitboard of the player who moved last.
    fn take(&mut self, b: u64)
        ensures
            final(self).player == old(self).player,
            final(self).col_tops == old(self).col_tops,
            final(self).width == old(self).width,
            final(self).height == old(self).height,
            final(self).row == old(self).row,
            final(self).kind == old(self).kind,
            final(self).top_mask == old(self).top_mask,
            final(self).used_bits == old(self).used_bits,
            final(self)@.x == if old(self).player == Player::O {
                old(self)@.x ^ b
            } else {
                old(self)@.x
            },
            final(self)@.o == if old(self).player == Player::X {
                old(self)@.o ^ b
            } else {
                old(self)@.o
            },
    {
        match self.player {
            Player::O => {
                self.bitboards = [self.bitboards[0] ^ b, self.bitboards[1]];
            },
            Player::X => {
                self.bitboards = [self.bitboards[0], self.bitboards[1] ^ b];
            },
        }
    }

    /// Takes back `mov`, which must be the move played last.
    pub fn undo_move(&mut self, mov: Move)
        requires
            old(self).wf(),
            exists|q: Position| #[trigger] q.play(mov) == old(self)@ && q.wf() && q.legal(mov),
        ensures
            final(self).wf(),
            final(self)@ == old(self)@.undo(mov),
    {
        let ghost q = choose|q: Position| #[trigger] q.play(mov) == self@ && q.wf() && q.legal(mov);
        proof {
            lemma_undo_play(q, mov);
            lemma_play(q, mov);
        }
        let ghost before = self@;
        match self.kind {
            BoardKind::XOBoard => {
                self.take(mov);
            },
            BoardKind::C4Board => {
                let col = mov as usize;
                assert(before.tops[col as int] == q.tops[col as int] + 1);
                let top = self.col_tops[col] - 1;
                proof {
                    lemma_cell_coords(before.shape, mov as int, top as int);
                }
                self.col_tops.set(col, top);
                let b: u64 = 1u64 << (top + mov * (self.height as u64 + 1));
                self.take(b);
            },
        }
        self.player = self.player.not();
        proof {
            assert(self@.tops =~= before.undo(mov).tops);
        }
    }

    /// Whether `player` holds a line of `row` cells in one of the four directions.
    pub fn has_won(&self, player: Player) -> (r: bool)
        requires
            self.wf(),
        ensures
            r == self@.has_won(player),
            r <==> exists|dir: int, c: int, y: int|
                0 <= dir < 4 && #[trigger] cell_line(
                    self@.shape,
                    self@.board_of(player),
                    c,
                    y,
                    dir,
                    self@.shape.row as int,
                ),
    {
        proof {
            lemma_shape_bounds(self@.shape);
            lemma_win_is_line_of_cells(self@, player);
        }
        let bitboard = match player {
            Player::X => self.bitboards[0],
            Player::O => self.bitboards[1],
        };
        let h = self.height as u64;
        let ghost bb = self@.board_of(player);
        let ghost hh = self@.shape.height as int;
        let ghost len = self@.shape.row as int;
        let vert = line_in(bitboard, 1, self.row);
        let hori = line_in(bitboard, h + 1, self.row);
        let diag1 = line_in(bitboard, h, self.row);
        let diag2 = line_in(bitboard, h + 2, self.row);
        proof {
            assert(vert == has_line(bb, stride_of(hh, 0), len));
            assert(hori == has_line(bb, stride_of(hh, 1), len));
            assert(diag1 == has_line(bb, stride_of(hh, 2), len));
            assert(diag2 == has_line(bb, stride_of(hh, 3), len));
            if self@.has_won(player) {
                let d = choose|d: int| 0 <= d < 4 && #[trigger] has_line(bb, stride_of(hh, d), len);
                assert(d == 0 || d == 1 || d == 2 || d == 3);
            }
        }
        vert || hori || diag1 || diag2
    }

    /// All cells are filled and nobody has won.
    pub(crate) fn draw(&self) -> (r: bool)
        requires
            self.wf(),
        ensures
            r == self@.draw(),
    {
        proof {
            let s = self@.shape;
            assert(s.height * s.width <= s.width * (s.height + 1)) by (nonlinear_arith)
                requires
                    s.width >= 1,
            ;
        }
        count_ones(self.bitboards[0] | self.bitboards[1]) == self.height * self.width
            && !self.has_won(Player::X) && !self.has_won(Player::O)
    }

    /// Both bitboards, `X`'s first.
    pub(crate) fn bitboards(&self) -> (r: [u64; 2])
        ensures
            r[0] == self@.x,
            r[1] == self@.o,
    {
        self.bitboards
    }

    pub(crate) fn player(&self) -> (r: Player)
        ensures
            r == self@.to_move,
    {
        self.player
    }

    pub fn over(&self) -> (r: bool)
        requires
            self.wf(),
        ensures
            r == self@.over(),
    {
        self.has_won(Player::X) || self.has_won(Player::O) || self.draw()
    }

    pub fn can_play(&self, mov: Move) -> (r: bool)
        requires
            self.wf(),
            self@.shape.gravity ==> mov < self@.shape.width,
        ensures
            r == self@.can_play(mov),
    {
        match self.kind {
            BoardKind::XOBoard => !self.over() && !self.occupied(mov),
            BoardKind::C4Board => self.col_tops[mov as usize] < self.height as u64,
        }
    }

    /// A fresh cursor over the legal moves, in ascending cell or column order.
    pub fn generate_moves(&self) -> (r: Moves)
        requires
            self.wf(),
        ensures
            fresh_moves(self@, r),
            r.remaining() == self@.moves(),
    {
        let ghost p = self@;
        proof {
            lemma_shape_bounds(p.shape);
        }
        match self.kind {
            BoardKind::XOBoard => {
                let out: u64 = if self.used_bits < 64 {
                    (!0u64) << self.used_bits
                } else {
                    0
                };
                let mask = !(self.bitboards[0] | self.bitboards[1]) & !(out | self.top_mask);
                proof {
                    assert forall|i: int| 0 <= i < 64 implies #[trigger] bit(mask, i) == p.free(i) by {
                        lemma_bit_and(!(p.x | p.o), !(out | self.top_mask), i);
                        lemma_bit_not(p.x | p.o, i);
                        lemma_bit_not(out | self.top_mask, i);
                        lemma_bit_or(p.x, p.o, i);
                        lemma_bit_or(out, self.top_mask, i);
                        if self.used_bits < 64 {
                            lemma_bit_high(self.used_bits as u64, i);
                        } else {
                            lemma_bit_zero(i);
                        }
                        assert(bit(self.top_mask, i) == sentinel(
                            self.height as int,
                            self.width as int,
                            i,
                        ));
                    }
                    lemma_mask_moves(p, mask, 0);
                    assert forall|i: int| #[trigger] bit(mask, i) == p.free(i) by {
                        if !(0 <= i < 64) {
                            assert(!bit(mask, i));
                        }
                    }
                }
                Moves::XOMoves(mask, 0)
            },
            BoardKind::C4Board => {
                let mut cols = columns_new();
                let mut c: usize = 0;
                while c < self.col_tops.len()
                    invariant
                        self.wf(),
                        p == self@,
                        p.shape.gravity,
                        c <= self.col_tops.len(),
                        column_list(cols) == p.open_columns(c as int),
                    decreases self.col_tops.len() - c,
                {
                    proof {
                        lemma_open_columns_len(p, c as int);
                    }
                    if self.col_tops[c] < self.height as u64 {
                        columns_push(&mut cols, c as u64);
                    }
                    c = c + 1;
                }
                proof {
                    assert(column_list(cols).subrange(0, column_list(cols).len() as int)
                        =~= column_list(cols));
                }
                Moves::C4Moves(cols, 0)
            },
        }
    }

    /// The board as text: one line per row, top row first, `X`, `O` or `.` per cell.
    pub fn render(&self, debug: bool) -> (r: String)
        requires
            self.wf(),
        ensures
            r@ == render_text(self@, debug),
    {
        let ghost p = self@;
        let mut lines = String::new();
        let mut row: u32 = 0;
        while row < self.height
            invariant
                self.wf(),
                p == self@,
                row <= self.height,
                lines@ == grid_text(p, row as int),
            decreases self.height - row,
        {
            let ghost start = lines@;
            let mut col: u32 = 0;
            while col < self.width
                invariant
                    self.wf(),
                    p == self@,
                    row < self.height,
                    col <= self.width,
                    lines@ == start + row_text(p, row as int, col as int),
                decreases self.width - col,
            {
                let i = self.get_index(row, col);
                proof {
                    lemma_shape_bounds(p.shape);
                    lemma_cell_coords(p.shape, col as int, p.shape.height - 1 - row);
                    lemma_bit_test(p.x, i as u64);
                    lemma_bit_test(p.o, i as u64);
                }
                let mask: u64 = 1u64 << i;
                if self.bitboards[0] & mask != 0 {
                    push_char(&mut lines, 'X');
                } else if self.bitboards[1] & mask != 0 {
                    push_char(&mut lines, 'O');
                } else {
                    push_char(&mut lines, '.');
                }
                col = col + 1;
            }
            push_char(&mut lines, '\n');
            row = row + 1;
        }
        if debug {
            push_char(&mut lines, '\n');
            push_char(&mut lines, 'X');
            push_char(&mut lines, ':');
            push_char(&mut lines, ' ');
            push_binary(&mut lines, self.bitboards[0]);
            push_char(&mut lines, '\n');
            push_char(&mut lines, 'O');
            push_char(&mut lines, ':');
            push_char(&mut lines, ' ');
            push_binary(&mut lines, self.bitboards[1]);
            proof {
                assert(lines@ =~= render_text(p, debug));
            }
        }
        lines
    }
}

} // verus!
