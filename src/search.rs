//! Exhaustive negamax search with alpha-beta pruning, memoised in a transposition table.
use vstd::prelude::*;
use crate::bits::lemma_count_le;
use crate::board::Board;
use crate::position::{
    lemma_filled_le, lemma_has_moves, lemma_shape_bounds, lemma_moves_legal, lemma_play, lemma_same_bits, lemma_undo_play, Move,
    Player, Position, Shape,
};
use crate::table::{no_entries, table_entries, Key, Score, ScoreKind, TranspositionTable};

verus! {

pub const INFINITY: i32 = 2147483647;

pub const NEGINFINITY: i32 = -2147483647;

/// Depth budget of a search from the root: large enough never to run out.
pub const WIN_SCORE: i32 = 2147483647;

/// `1` when `O` is to move (so `X` moved last), `-1` when `X` is to move.
pub open spec fn sign_of(p: Position) -> int {
    if p.to_move == Player::O {
        1
    } else {
        -1
    }
}

pub open spec fn larger(a: int, b: int) -> int {
    if a >= b {
        a
    } else {
        b
    }
}

/// Score of a finished game for the player to move: a draw is `0`, a win for `X` is
/// `-depth * sign`, a win for `O` is `depth * sign`.
pub open spec fn terminal_score(p: Position, depth: int) -> int {
    if p.draw() {
        0
    } else if p.has_won(Player::X) {
        -depth * sign_of(p)
    } else {
        depth * sign_of(p)
    }
}

/// Negamax value of `p` for the player to move, with `depth` plies of budget left: the score of
/// a finished game, else the best of the negated values of the moves, tried in order.
pub open spec fn game_value(p: Position, depth: int) -> int
    decreases 64 - p.filled(), 1int, 0int,
{
    if p.over() {
        terminal_score(p, depth)
    } else {
        best_reply(p, depth, p.moves())
    }
}

/// The best negated value among the moves `ms` from `p` (`NEGINFINITY` when there are none).
/// A legal move always fills one more cell; the test on `filled` only makes termination evident.
pub open spec fn best_reply(p: Position, depth: int, ms: Seq<Move>) -> int
    decreases 64 - p.filled(), 0int, ms.len(),
{
    if ms.len() == 0 {
        NEGINFINITY as int
    } else {
        let rest = best_reply(p, depth, ms.drop_last());
        let q = p.play(ms.last());
        if q.filled() > p.filled() {
            proof {
                lemma_count_le(q.x | q.o, 64);
            }
            larger(rest, -game_value(q, depth - 1))
        } else {
            rest
        }
    }
}

/// Among the moves `ms`, the score and the first move of highest score, each move scored by the
/// negated value of the position it leads to.
pub open spec fn root_pick(p: Position, ms: Seq<Move>) -> (int, Move)
    decreases ms.len(),
{
    if ms.len() == 0 {
        (NEGINFINITY as int, 0u64)
    } else {
        let prev = root_pick(p, ms.drop_last());
        let s = -game_value(p.play(ms.last()), WIN_SCORE as int);
        if ms.len() == 1 || s > prev.0 {
            (s, ms.last())
        } else {
            prev
        }
    }
}

/// The move that the search picks: the first of the best moves in enumeration order.
pub open spec fn best_move_of(p: Position) -> Move {
    root_pick(p, p.moves()).1
}

/// The outcome from `X`'s side in plies: `0` for a draw, `n > 0` when `X` wins in `n` plies,
/// `-n` when `O` wins in `n` plies.
pub open spec fn evaluation_of(p: Position) -> int {
    let score = game_value(p, INFINITY as int) * -sign_of(p);
    if score == 0 {
        0
    } else if score < 0 {
        -(WIN_SCORE as int) - score
    } else {
        WIN_SCORE as int - score
    }
}

/// What a search with window `(alpha, beta)` may answer about the value `v`: an upper bound when
/// it fails low, a lower bound when it fails high, the value itself in between.
pub open spec fn fail_soft(r: int, alpha: int, beta: int, v: int) -> bool {
    &&& r <= alpha ==> v <= r
    &&& r >= beta ==> v >= r
    &&& alpha < r < beta ==> v == r
}

/// The entry lies within its depth budget and is correct for every well-formed position of this
/// shape with these bitboards.
pub open spec fn entry_sound(shape: Shape, key: Key, score: Score) -> bool {
    &&& -key.1 <= score.value <= key.1
    &&& forall|q: Position|
        q.wf() && q.shape == shape && q.x == key.0[0] && q.o == key.0[1] ==> score.bounds(
            #[trigger] game_value(q, key.1 as int),
        )
}

/// Values stay within the window of the search.
pub proof fn lemma_value_range(p: Position, depth: int)
    requires
        p.wf(),
        p.empty_cells() <= depth <= INFINITY,
    ensures
        NEGINFINITY <= game_value(p, depth) <= INFINITY,
    decreases 64 - p.filled(), 1int, 0int,
{
    lemma_count_le(p.x | p.o, 64);
    lemma_filled_le(p);
    if !p.over() {
        lemma_moves_legal(p);
        lemma_reply_range(p, depth, p.moves());
    }
}

proof fn lemma_reply_range(p: Position, depth: int, ms: Seq<Move>)
    requires
        p.wf(),
        p.empty_cells() <= depth <= INFINITY,
        forall|j: int| 0 <= j < ms.len() ==> p.legal(#[trigger] ms[j]),
    ensures
        NEGINFINITY <= best_reply(p, depth, ms) <= INFINITY,
    decreases 64 - p.filled(), 0int, ms.len(),
{
    lemma_count_le(p.x | p.o, 64);
    lemma_filled_le(p);
    if ms.len() > 0 {
        let m = ms.last();
        assert(p.legal(ms[ms.len() - 1]));
        lemma_reply_range(p, depth, ms.drop_last());
        lemma_play(p, m);
        lemma_count_le(p.play(m).x | p.play(m).o, 64);
        lemma_filled_le(p.play(m));
        lemma_value_range(p.play(m), depth - 1);
    }
}

/// Trying more moves never lowers the best reply.
proof fn lemma_reply_prefix(p: Position, depth: int, ms: Seq<Move>, n: int)
    requires
        0 <= n <= ms.len(),
    ensures
        best_reply(p, depth, ms.take(n)) <= best_reply(p, depth, ms),
    decreases ms.len() - n,
{
    if n < ms.len() {
        lemma_reply_prefix(p, depth, ms, n + 1);
        assert(ms.take(n + 1).drop_last() =~= ms.take(n));
    } else {
        assert(ms.take(n) =~= ms);
    }
}

/// A value found with `depth` plies of budget lies within `depth` of zero, and strictly so
/// unless the game is already over.
pub proof fn lemma_value_bound(p: Position, depth: int)
    requires
        p.wf(),
        p.empty_cells() <= depth <= INFINITY,
    ensures
        -depth <= game_value(p, depth) <= depth,
        !p.over() ==> -(depth - 1) <= game_value(p, depth) <= depth - 1,
    decreases 64 - p.filled(), 1int, 0int,
{
    lemma_count_le(p.x | p.o, 64);
    lemma_filled_le(p);
    if !p.over() {
        lemma_moves_legal(p);
        lemma_has_moves(p);
        lemma_reply_bound(p, depth, p.moves());
    }
}

proof fn lemma_reply_bound(p: Position, depth: int, ms: Seq<Move>)
    requires
        p.wf(),
        p.empty_cells() <= depth <= INFINITY,
        ms.len() > 0,
        forall|j: int| 0 <= j < ms.len() ==> p.legal(#[trigger] ms[j]),
    ensures
        -(depth - 1) <= best_reply(p, depth, ms) <= depth - 1,
    decreases 64 - p.filled(), 0int, ms.len(),
{
    lemma_count_le(p.x | p.o, 64);
    lemma_filled_le(p);
    let m = ms.last();
    assert(p.legal(ms[ms.len() - 1]));
    if ms.len() > 1 {
        lemma_reply_bound(p, depth, ms.drop_last());
    } else {
        assert(best_reply(p, depth, ms.drop_last()) == NEGINFINITY);
    }
    lemma_play(p, m);
    lemma_count_le(p.play(m).x | p.play(m).o, 64);
    lemma_filled_le(p.play(m));
    lemma_value_bound(p.play(m), depth - 1);
}

/// A drawn board evaluates to exactly zero.
pub proof fn lemma_draw_evaluates_to_zero(p: Position)
    requires
        p.draw(),
    ensures
        evaluation_of(p) == 0,
{
}

/// For a game in progress, the evaluation is zero exactly when best play by both sides draws,
/// positive exactly when `X` wins and negative exactly when `O` wins under best play.
pub proof fn lemma_evaluation_sign(p: Position)
    requires
        p.wf(),
        !p.over(),
    ensures
        evaluation_of(p) == 0 <==> game_value(p, INFINITY as int) == 0,
        evaluation_of(p) > 0 <==> game_value(p, INFINITY as int) * -sign_of(p) > 0,
        evaluation_of(p) < 0 <==> game_value(p, INFINITY as int) * -sign_of(p) < 0,
{
    lemma_count_le(p.x | p.o, 64);
    lemma_filled_le(p);
    lemma_shape_bounds(p.shape);
    lemma_value_bound(p, INFINITY as int);
    let v = game_value(p, INFINITY as int);
    assert(v * -sign_of(p) == if sign_of(p) == 1 { -v } else { v }) by (nonlinear_arith)
        requires
            sign_of(p) == 1 || sign_of(p) == -1,
    ;
}

/// The search engine: it owns the transposition table, whose entries stay sound for boards of
/// one shape.
pub struct Solver {
    transpositions: TranspositionTable,
    shape: Ghost<Shape>,
}

impl Solver {
    /// The board shape whose positions the table describes.
    pub closed spec fn shape(&self) -> Shape {
        self.shape@
    }

    pub closed spec fn entries(&self) -> Map<Key, Score> {
        table_entries(self.transpositions)
    }

    /// Every entry of the table is sound.
    pub closed spec fn wf(&self) -> bool {
        forall|k: Key| #[trigger]
            table_entries(self.transpositions).contains_key(k) ==> entry_sound(
                self.shape@,
                k,
                table_entries(self.transpositions)[k],
            )
    }

    pub(crate) fn new(shape: Ghost<Shape>) -> (s: Solver)
        ensures
            s.wf(),
            s.shape() == shape@,
            s.entries() == no_entries(),
    {
        Solver { transpositions: TranspositionTable::new(), shape }
    }

    /// Negamax value of the board for the player to move, searched in the window
    /// `(alpha, beta)`; `player` is `1` when `O` is to move and `-1` when `X` is.
    pub(crate) fn negamax(
        &mut self,
        board: &mut Board,
        depth: i32,
        alpha: i32,
        beta: i32,
        player: i8,
    ) -> (r: i32)
        requires
            old(self).wf(),
            old(board).wf(),
            old(self).shape() == old(board)@.shape,
            player as int == sign_of(old(board)@),
            NEGINFINITY <= alpha < beta <= INFINITY,
            old(board)@.empty_cells() <= depth,
        ensures
            final(self).wf(),
            final(self).shape() == old(self).shape(),
            final(board).wf(),
            final(board)@ == old(board)@,
            NEGINFINITY <= r <= INFINITY,
            -depth <= r <= depth,
            fail_soft(r as int, alpha as int, beta as int, game_value(old(board)@, depth as int)),
            old(board)@.over() ==> r == terminal_score(old(board)@, depth as int),
            forall|k: Key| #[trigger]
                old(self).entries().contains_key(k) ==> final(self).entries().contains_key(k),
        decreases 64 - old(board)@.filled(),
    {
        let ghost p = board@;
        let ghost start = self.entries();
        let ghost v = game_value(p, depth as int);
        proof {
            lemma_count_le(p.x | p.o, 64);
            lemma_filled_le(p);
        }
        let orig_alpha = alpha;
        let ghost orig_beta = beta as int;
        let mut alpha = alpha;
        let mut beta = beta;
        if board.over() {
            assert(player == 1 || player == -1);
            if board.draw() {
                return 0;
            }
            if board.has_won(Player::X) {
                return -(depth) * (player as i32);
            }
            return (depth) * (player as i32);
        }
        let key: Key = (board.bitboards(), depth);
        match self.transpositions.get(&key) {
            Some(position) => {
                proof {
                    assert(table_entries(self.transpositions).contains_key(key));
                    assert(entry_sound(self.shape@, key, position));
                    assert(position.bounds(game_value(p, key.1 as int)));
                }
                match position.kind {
                    ScoreKind::Exact => return position.value,
                    ScoreKind::LowerBound => {
                        if position.value > alpha {
                            alpha = position.value;
                        }
                    },
                    ScoreKind::UpperBound => {
                        if position.value < beta {
                            beta = position.value;
                        }
                    },
                }
                if alpha >= beta {
                    return position.value;
                }
            },
            None => {},
        }
        let ghost alpha_t = alpha as int;
        let ghost beta_t = beta as int;
        assert(alpha_t > orig_alpha ==> v >= alpha_t);
        assert(beta_t < orig_beta ==> v <= beta_t);
        let mut moves = board.generate_moves();
        let ghost ms = p.moves();
        proof {
            lemma_moves_legal(p);
            lemma_has_moves(p);
            lemma_play(p, ms[0]);
            lemma_filled_le(p.play(ms[0]));
            assert(ms.subrange(0, ms.len() as int) =~= ms);
        }
        let mut value: i32 = NEGINFINITY;
        let ghost mut n: int = 0;
        loop
            invariant_except_break
                alpha < beta,
                best_reply(p, depth as int, ms.take(n)) <= value,
            invariant
                old(board)@ == p,
                forall|k: Key| #[trigger] start.contains_key(k) ==> self.entries().contains_key(k),
                ms.len() > 0,
                1 <= depth,
                n == 0 ==> value == NEGINFINITY,
                n > 0 ==> -(depth - 1) <= value <= depth - 1,
                self.wf(),
                self.shape() == p.shape,
                board.wf(),
                board@ == p,
                p.wf(),
                !p.over(),
                player as int == sign_of(p),
                p.empty_cells() <= depth,
                p.filled() <= 64,
                NEGINFINITY <= alpha_t < beta_t <= INFINITY,
                beta as int == beta_t,
                ms == p.moves(),
                0 <= n <= ms.len(),
                moves.remaining() == ms.subrange(n, ms.len() as int),
                forall|j: int| 0 <= j < ms.len() ==> p.legal(#[trigger] ms[j]),
                NEGINFINITY <= value <= INFINITY,
                alpha as int == larger(alpha_t, value as int),
                value > alpha_t ==> best_reply(p, depth as int, ms.take(n)) >= value,
            ensures
                forall|k: Key| #[trigger] start.contains_key(k) ==> self.entries().contains_key(k),
                -(depth - 1) <= value <= depth - 1,
                self.wf(),
                self.shape() == p.shape,
                board.wf(),
                board@ == p,
                NEGINFINITY <= value <= INFINITY,
                value >= beta_t ==> game_value(p, depth as int) >= value,
                value < beta_t ==> game_value(p, depth as int) <= value && (value > alpha_t
                    ==> game_value(p, depth as int) >= value),
            decreases ms.len() - n,
        {
            match moves.next() {
                None => {
                    proof {
                        assert(ms.take(n) =~= ms);
                    }
                    break;
                },
                Some(mov) => {
                    let ghost mm = ms[n];
                    assert(mov == mm);
                    proof {
                        lemma_play(p, mov);
                        lemma_undo_play(p, mov);
                        lemma_count_le(p.play(mov).x | p.play(mov).o, 64);
                        lemma_filled_le(p.play(mov));
                    }
                    board.placebit(mov);
                    let ghost child = board@;
                    let ngresult = -self.negamax(board, depth - 1, -beta, -alpha, -player);
                    board.undo_move(mov);
                    proof {
                        assert(ms.take(n + 1).drop_last() =~= ms.take(n));
                        assert(ms.take(n + 1).last() == mov);
                        assert(best_reply(p, depth as int, ms.take(n + 1)) == larger(
                            best_reply(p, depth as int, ms.take(n)),
                            -game_value(child, depth - 1),
                        ));
                    }
                    if ngresult > value {
                        value = ngresult;
                    }
                    if value > alpha {
                        alpha = value;
                    }
                    proof {
                        n = n + 1;
                        assert(ms.subrange(n - 1, ms.len() as int).drop_first() =~= ms.subrange(
                            n,
                            ms.len() as int,
                        ));
                    }
                    if alpha >= beta {
                        proof {
                            lemma_reply_prefix(p, depth as int, ms, n);
                        }
                        break;
                    }
                },
            }
        }
        let kind = if value <= orig_alpha {
            ScoreKind::UpperBound
        } else if value >= beta {
            ScoreKind::LowerBound
        } else {
            ScoreKind::Exact
        };
        let score = Score { value, kind };
        proof {
            assert(score.bounds(v));
            assert forall|q: Position|
                q.wf() && q.shape == self.shape@ && q.x == key.0[0] && q.o == key.0[1] implies score.bounds(
                #[trigger] game_value(q, key.1 as int),
            ) by {
                lemma_same_bits(p, q);
            }
        }
        self.transpositions.insert(key, score);
        value
    }

    /// Exact value of the board for the player to move (a search with the full window).
    pub(crate) fn value_of(&mut self, board: &mut Board, depth: i32, player: i8) -> (r: i32)
        requires
            old(self).wf(),
            old(board).wf(),
            old(self).shape() == old(board)@.shape,
            player as int == sign_of(old(board)@),
            old(board)@.empty_cells() <= depth,
        ensures
            final(self).wf(),
            final(self).shape() == old(self).shape(),
            final(board).wf(),
            final(board)@ == old(board)@,
            r == game_value(old(board)@, depth as int),
            NEGINFINITY <= r <= INFINITY,
            forall|k: Key| #[trigger]
                old(self).entries().contains_key(k) ==> final(self).entries().contains_key(k),
    {
        proof {
            lemma_value_range(board@, depth as int);
        }
        self.negamax(board, depth, NEGINFINITY, INFINITY, player)
    }

    /// The first move of highest score, every move searched to the end of the game.
    pub(crate) fn best_move(&mut self, board: &mut Board) -> (r: Move)
        requires
            old(self).wf(),
            old(board).wf(),
            old(self).shape() == old(board)@.shape,
            old(board)@.moves().len() > 0,
        ensures
            final(self).wf(),
            final(self).shape() == old(self).shape(),
            final(board).wf(),
            final(board)@ == old(board)@,
            r == best_move_of(old(board)@),
            forall|k: Key| #[trigger]
                old(self).entries().contains_key(k) ==> final(self).entries().contains_key(k),
    {
        let ghost p = board@;
        let ghost start = self.entries();
        let player: i8 = match board.player() {
            Player::O => -1,
            Player::X => 1,
        };
        let mut best_score = NEGINFINITY;
        let mut best_move: Option<Move> = None;
        let mut moves = board.generate_moves();
        let ghost ms = p.moves();
        proof {
            lemma_moves_legal(p);
            lemma_count_le(p.x | p.o, 64);
            lemma_filled_le(p);
            assert(ms.subrange(0, ms.len() as int) =~= ms);
        }
        let ghost mut n: int = 0;
        loop
            invariant
                forall|k: Key| #[trigger] start.contains_key(k) ==> self.entries().contains_key(k),
                self.wf(),
                self.shape() == p.shape,
                board.wf(),
                board@ == p,
                p.wf(),
                player as int == -sign_of(p),
                p.filled() <= 64,
                ms == p.moves(),
                ms.len() > 0,
                0 <= n <= ms.len(),
                moves.remaining() == ms.subrange(n, ms.len() as int),
                forall|j: int| 0 <= j < ms.len() ==> p.legal(#[trigger] ms[j]),
                n == 0 <==> best_move.is_none(),
                n > 0 ==> best_move == Some(root_pick(p, ms.take(n)).1) && best_score
                    == root_pick(p, ms.take(n)).0,
            ensures
                forall|k: Key| #[trigger] start.contains_key(k) ==> self.entries().contains_key(k),
                self.wf(),
                self.shape() == p.shape,
                board.wf(),
                board@ == p,
                best_move == Some(best_move_of(p)),
            decreases ms.len() - n,
        {
            match moves.next() {
                None => {
                    proof {
                        assert(ms.take(n) =~= ms);
                    }
                    break;
                },
                Some(mov) => {
                    assert(mov == ms[n]);
                    proof {
                        lemma_play(p, mov);
                        lemma_undo_play(p, mov);
                    }
                    proof {
                        lemma_shape_bounds(p.shape);
                    }
                    board.placebit(mov);
                    let score = -self.value_of(board, WIN_SCORE, player);
                    board.undo_move(mov);
                    proof {
                        assert(ms.take(n + 1).drop_last() =~= ms.take(n));
                        assert(ms.take(n + 1).last() == mov);
                    }
                    if best_move.is_none() || score > best_score {
                        best_score = score;
                        best_move = Some(mov);
                    }
                    proof {
                        n = n + 1;
                        assert(ms.subrange(n - 1, ms.len() as int).drop_first() =~= ms.subrange(
                            n,
                            ms.len() as int,
                        ));
                    }
                },
            }
        }
        best_move.unwrap()
    }

    pub fn clear_transpositions(&mut self)
        ensures
            final(self).wf(),
            final(self).shape() == old(self).shape(),
            final(self).entries() == no_entries(),
    {
        self.transpositions.clear();
    }
}

} // verus!
