use vstd::prelude::*;
use crate::game::{
    Board, BoardView, GameError, Offset, Tile, cell_index, count_stones, free_moves, fresh_board,
    lemma_count_below_len, lemma_place_undo_round_trip, negatable, on_board,
};

verus! {

/// Game value of a winner: +1 when player one won, -1 when player two won,
/// 0 for a draw.
pub open spec fn outcome(w: Tile) -> int {
    match w {
        Tile::One => 1,
        Tile::Two => -1,
        Tile::Empty => 0,
    }
}

/// Column and row of the cell at position `i` of the row-major order.
pub open spec fn cell_x(b: BoardView, i: int) -> int {
    i % b.size
}

pub open spec fn cell_y(b: BoardView, i: int) -> int {
    i / b.size
}

/// Exact game value of `b` when `maximizer` tells whether the side to
/// choose next maximises (+1 is best for it) or minimises.
pub open spec fn minimax_value(b: BoardView, maximizer: bool) -> int
    decreases b.cells.len() - b.turn, b.cells.len() + 1,
{
    if !b.wf() || b.turn >= b.cells.len() {
        outcome(b.winner)
    } else if b.over {
        outcome(b.winner)
    } else {
        best_upto(b, maximizer, b.cells.len() as int)
    }
}

/// The best value for the chooser over the empty cells among the first `i`;
/// -2 (for a maximiser) or 2 (for a minimiser) when there is none.
pub open spec fn best_upto(b: BoardView, maximizer: bool, i: int) -> int
    decreases b.cells.len() - b.turn, i,
    via best_upto_decreases
{
    if i <= 0 || i > b.cells.len() || !b.wf() || b.turn >= b.cells.len() || b.over {
        if maximizer {
            -2
        } else {
            2
        }
    } else {
        let rest = best_upto(b, maximizer, i - 1);
        if b.cells[i - 1] == Tile::Empty {
            let v = minimax_value(b.placed(cell_x(b, i - 1), cell_y(b, i - 1)), !maximizer);
            if maximizer {
                if v > rest {
                    v
                } else {
                    rest
                }
            } else {
                if v < rest {
                    v
                } else {
                    rest
                }
            }
        } else {
            rest
        }
    }
}

#[via_fn]
proof fn best_upto_decreases(b: BoardView, maximizer: bool, i: int) {
    if 0 < i <= b.cells.len() && b.wf() && b.turn < b.cells.len() && !b.over {
        lemma_cell_coords(b, i - 1);
        let c = b.placed(cell_x(b, i - 1), cell_y(b, i - 1));
        assert(c.cells.len() == b.cells.len());
        assert(c.turn == b.turn + 1);
    }
}

proof fn lemma_cell_coords(b: BoardView, i: int)
    requires
        b.dims_ok(),
        0 <= i < b.cells.len(),
    ensures
        on_board(b.size, cell_x(b, i), cell_y(b, i)),
        cell_index(b.size, cell_x(b, i), cell_y(b, i)) == i,
{
    vstd::arithmetic::div_mod::lemma_fundamental_div_mod(i, b.size);
    vstd::arithmetic::div_mod::lemma_mod_bound(i, b.size);
    let q = i / b.size;
    assert(0 <= q < b.size) by (nonlinear_arith)
        requires
            i == b.size * q + (i % b.size),
            0 <= i % b.size < b.size,
            0 <= i < b.size * b.size,
            0 < b.size,
    ;
}

/// A row of cells that is not all stones has an empty cell.
pub proof fn lemma_has_empty(cells: Seq<Tile>)
    requires
        count_stones(cells) < cells.len(),
    ensures
        exists|i: int| 0 <= i < cells.len() && cells[i] == Tile::Empty,
    decreases cells.len(),
{
    if cells.last() != Tile::Empty {
        lemma_has_empty(cells.drop_last());
        let i = choose|i: int| 0 <= i < cells.drop_last().len() && cells.drop_last()[i] == Tile::Empty;
        assert(cells[i] == Tile::Empty);
    } else {
        assert(cells[cells.len() - 1] == Tile::Empty);
    }
}

/// A value lies between -1 and 1.
pub proof fn lemma_value_bounds(b: BoardView, maximizer: bool)
    ensures
        -1 <= minimax_value(b, maximizer) <= 1,
    decreases b.cells.len() - b.turn, b.cells.len() + 1,
{
    if b.wf() && b.turn < b.cells.len() && !b.over {
        lemma_has_empty(b.cells);
        let j = choose|j: int| 0 <= j < b.cells.len() && b.cells[j] == Tile::Empty;
        lemma_best_bounds(b, maximizer, b.cells.len() as int, j);
    }
}

proof fn lemma_best_bounds(b: BoardView, maximizer: bool, i: int, j: int)
    requires
        b.wf(),
        b.turn < b.cells.len(),
        !b.over,
        0 <= i <= b.cells.len(),
        0 <= j < b.cells.len(),
        b.cells[j] == Tile::Empty,
    ensures
        maximizer ==> -2 <= best_upto(b, maximizer, i) <= 1,
        !maximizer ==> -1 <= best_upto(b, maximizer, i) <= 2,
        j < i ==> -1 <= best_upto(b, maximizer, i) <= 1,
    decreases b.cells.len() - b.turn, i,
{
    if i > 0 {
        lemma_best_bounds(b, maximizer, i - 1, j);
        if b.cells[i - 1] == Tile::Empty {
            lemma_count_below_len(b.cells, i - 1);
            lemma_cell_coords(b, i - 1);
            lemma_place_undo_round_trip(b, cell_x(b, i - 1), cell_y(b, i - 1));
            lemma_value_bounds(b.placed(cell_x(b, i - 1), cell_y(b, i - 1)), !maximizer);
        }
    }
}

/// The value of the position after a stone on the cell at position `i`.
pub open spec fn child_value(b: BoardView, maximizer: bool, i: int) -> int {
    minimax_value(b.placed(cell_x(b, i), cell_y(b, i)), !maximizer)
}

/// A maximiser's best value over the first `i` cells reaches `t` exactly when
/// some empty cell among them leads to a value that reaches `t`; a
/// minimiser's, when every empty cell among them does.
pub proof fn lemma_best_threshold(b: BoardView, maximizer: bool, i: int, t: int)
    requires
        b.wf(),
        !b.over,
        b.turn < b.cells.len(),
        0 <= i <= b.cells.len(),
        -1 <= t <= 1,
    ensures
        maximizer ==> (best_upto(b, maximizer, i) >= t <==> exists|j: int|
            0 <= j < i && b.cells[j] == Tile::Empty && #[trigger] child_value(b, maximizer, j) >= t),
        !maximizer ==> (best_upto(b, maximizer, i) >= t <==> forall|j: int|
            0 <= j < i && b.cells[j] == Tile::Empty ==> #[trigger] child_value(b, maximizer, j) >= t),
    decreases i,
{
    if i > 0 {
        lemma_best_threshold(b, maximizer, i - 1, t);
        if maximizer {
            if best_upto(b, maximizer, i) >= t {
                if best_upto(b, maximizer, i - 1) < t {
                    assert(b.cells[i - 1] == Tile::Empty && child_value(b, maximizer, i - 1) >= t);
                }
            }
        } else {
            if best_upto(b, maximizer, i) >= t {
                assert forall|j: int|
                    0 <= j < i && b.cells[j] == Tile::Empty implies #[trigger] child_value(b, maximizer, j) >= t by {
                    if j < i - 1 {
                        assert(best_upto(b, maximizer, i - 1) >= t);
                    }
                }
            }
            if forall|j: int| 0 <= j < i && b.cells[j] == Tile::Empty ==> #[trigger] child_value(b, maximizer, j) >= t {
                assert forall|j: int|
                    0 <= j < i - 1 && b.cells[j] == Tile::Empty implies #[trigger] child_value(b, maximizer, j) >= t by {
                    assert(0 <= j < i);
                }
                assert(best_upto(b, maximizer, i - 1) >= t);
                if b.cells[i - 1] == Tile::Empty {
                    assert(child_value(b, maximizer, i - 1) >= t);
                }
            }
        }
    }
}

/// Once the chooser's best value is reached, looking at more cells keeps it.
proof fn lemma_best_monotone(b: BoardView, maximizer: bool, i: int, n: int)
    requires
        0 <= i <= n <= b.cells.len(),
    ensures
        maximizer ==> best_upto(b, maximizer, i) <= best_upto(b, maximizer, n),
        !maximizer ==> best_upto(b, maximizer, i) >= best_upto(b, maximizer, n),
    decreases n - i,
{
    if i < n {
        lemma_best_monotone(b, maximizer, i, n - 1);
    }
}

/// Search state beside the board: which cells are still free to play.
pub struct Tree {
    /// `legal[i]` tells whether the cell at position `i` of the row-major
    /// order is empty.
    pub legal: Vec<bool>,
}

impl Tree {
    /// The free cells agree with the empty cells of `b`.
    pub open spec fn synced(&self, b: BoardView) -> bool {
        &&& self.legal@.len() == b.cells.len()
        &&& forall|i: int| 0 <= i < b.cells.len() ==> (#[trigger] self.legal@[i] <==> b.cells[i] == Tile::Empty)
    }

    /// Every cell of a `size` × `size` board free.
    pub fn new(size: i32) -> (r: Tree)
        requires
            0 < size,
            size * size <= usize::MAX,
        ensures
            r.legal@.len() == size * size,
            forall|i: int| 0 <= i < size * size ==> r.legal@[i],
    {
        let n: usize = (size as usize) * (size as usize);
        let mut legal: Vec<bool> = Vec::new();
        let mut i: usize = 0;
        while i < n
            invariant
                i <= n,
                legal@.len() == i,
                forall|j: int| 0 <= j < i ==> legal@[j],
            decreases n - i,
        {
            legal.push(true);
            i += 1;
        }
        Tree { legal }
    }

    /// Game value of a finished board: +1, -1 or 0.
    pub fn evaluate(&self, board: &Board) -> (r: i32)
        ensures
            r == outcome(board@.winner),
    {
        match board.winner() {
            Tile::One => 1,
            Tile::Two => -1,
            Tile::Empty => 0,
        }
    }

    /// The free cells, as coordinates, in row-major order.
    pub fn expand(&self, board: &Board) -> (r: Vec<(i32, i32)>)
        requires
            board@.dims_ok(),
            self.synced(board@),
        ensures
            r@ == free_moves(board@, board@.cells.len() as int),
    {
        let mut moves: Vec<(i32, i32)> = Vec::new();
        let mut i: usize = 0;
        while i < self.legal.len()
            invariant
                board@.dims_ok(),
                self.synced(board@),
                i <= self.legal@.len(),
                moves@ == free_moves(board@, i as int),
            decreases self.legal@.len() - i,
        {
            if self.legal[i] {
                let (x, y) = board.coords(i);
                moves.push((x, y));
            }
            i += 1;
        }
        moves
    }

    /// A copy of `board` with the mover's stone on (x, y); `board` itself is
    /// left alone.
    pub fn calculate(&self, board: &Board, x: i32, y: i32) -> (r: Board)
        requires
            board@.wf(),
            on_board(board@.size, x as int, y as int),
            board@.cell(x as int, y as int) == Tile::Empty,
        ensures
            r@ == board@.placed(x as int, y as int),
            r@.wf(),
    {
        let mut new_board = board.snapshot();
        new_board.place_proof(x, y);
        new_board
    }

    /// Exact game value by exhaustive search, playing on `board` and taking
    /// every move back. A maximiser stops at the first +1, a minimiser at the
    /// first -1.
    pub fn minimax(&mut self, board: &mut Board, maximizer: bool) -> (r: i32)
        requires
            old(board)@.wf(),
            old(self).synced(old(board)@),
        ensures
            r == minimax_value(old(board)@, maximizer),
            final(board)@ == old(board)@,
            final(self).legal@ == old(self).legal@,
    {
        proof {
            lemma_count_at_most(board@);
        }
        self.minimax_from(board, maximizer, Ghost((board@.cells.len() - board@.turn) as nat))
    }

    fn minimax_from(&mut self, board: &mut Board, maximizer: bool, Ghost(remaining): Ghost<nat>) -> (r: i32)
        requires
            old(board)@.wf(),
            old(self).synced(old(board)@),
            remaining == old(board)@.cells.len() - old(board)@.turn,
        ensures
            r == minimax_value(old(board)@, maximizer),
            final(board)@ == old(board)@,
            final(self).legal@ == old(self).legal@,
        decreases remaining,
    {
        if board.is_over() {
            return self.evaluate(board);
        }
        let ghost b0 = board@;
        let ghost l0 = self.legal@;
        let n = self.legal.len();
        let mut best: i32 = if maximizer {
            -2
        } else {
            2
        };
        let mut i: usize = 0;
        while i < n
            invariant
                board@ == b0,
                self.legal@ == l0,
                old(board)@ == b0,
                old(self).legal@ == l0,
                b0.wf(),
                !b0.over,
                remaining == b0.cells.len() - b0.turn,
                self.synced(b0),
                n == b0.cells.len(),
                i <= n,
                best == best_upto(b0, maximizer, i as int),
            decreases n - i,
        {
            if self.legal[i] {
                let (x, y) = board.coords(i);
                proof {
                    lemma_cell_coords(b0, i as int);
                    lemma_count_below_len(b0.cells, i as int);
                    lemma_place_undo_round_trip(b0, x as int, y as int);
                }
                self.legal.set(i, false);
                board.place_proof(x, y);
                assert(self.synced(board@)) by {
                    assert forall|j: int| 0 <= j < b0.cells.len() implies (#[trigger] self.legal@[j] <==> board@.cells[j] == Tile::Empty) by {}
                }
                assert(board@.cells.len() == b0.cells.len());
                assert(board@.turn == b0.turn + 1);
                let v = self.minimax_from(board, !maximizer, Ghost((remaining - 1) as nat));
                board.undo(x, y);
                self.legal.set(i, true);
                assert(self.legal@ =~= l0);
                if (maximizer && v > best) || (!maximizer && v < best) {
                    best = v;
                }
                assert(best == best_upto(b0, maximizer, i as int + 1));
                if (maximizer && best == 1) || (!maximizer && best == -1) {
                    proof {
                        assert(minimax_value(b0, maximizer) == best_upto(b0, maximizer, n as int));
                        lemma_value_bounds(b0, maximizer);
                        lemma_best_monotone(b0, maximizer, i as int + 1, n as int);
                    }
                    return best;
                }
            }
            i += 1;
        }
        best
    }

    /// Game value by alpha-beta search on `board`, taking every move back.
    /// Inside the window (alpha, beta) the result is exact; a result at or
    /// below alpha bounds the value from above, one at or above beta bounds
    /// it from below. With a window that holds -1 and 1 the result is exact.
    pub fn alphabeta(&mut self, board: &mut Board, maximizer: bool, alpha: i32, beta: i32) -> (r: i32)
        requires
            old(board)@.wf(),
            old(self).synced(old(board)@),
            -2 <= alpha < beta <= 2,
        ensures
            -2 <= r <= 2,
            alpha < r < beta ==> r == minimax_value(old(board)@, maximizer),
            r <= alpha ==> minimax_value(old(board)@, maximizer) <= r,
            r >= beta ==> minimax_value(old(board)@, maximizer) >= r,
            alpha <= -1 && 1 <= beta ==> r == minimax_value(old(board)@, maximizer),
            final(board)@ == old(board)@,
            final(self).legal@ == old(self).legal@,
    {
        proof {
            lemma_count_at_most(board@);
            lemma_value_bounds(board@, maximizer);
        }
        self.alphabeta_from(board, maximizer, alpha, beta, Ghost((board@.cells.len() - board@.turn) as nat))
    }

    fn alphabeta_from(
        &mut self,
        board: &mut Board,
        maximizer: bool,
        alpha: i32,
        beta: i32,
        Ghost(remaining): Ghost<nat>,
    ) -> (r: i32)
        requires
            old(board)@.wf(),
            old(self).synced(old(board)@),
            -2 <= alpha < beta <= 2,
            remaining == old(board)@.cells.len() - old(board)@.turn,
        ensures
            -2 <= r <= 2,
            alpha < r < beta ==> r == minimax_value(old(board)@, maximizer),
            r <= alpha ==> minimax_value(old(board)@, maximizer) <= r,
            r >= beta ==> minimax_value(old(board)@, maximizer) >= r,
            final(board)@ == old(board)@,
            final(self).legal@ == old(self).legal@,
        decreases remaining,
    {
        if board.is_over() {
            return self.evaluate(board);
        }
        let ghost b0 = board@;
        let ghost l0 = self.legal@;
        let n = self.legal.len();
        let mut best: i32 = if maximizer {
            -2
        } else {
            2
        };
        let mut i: usize = 0;
        while i < n
            invariant
                board@ == b0,
                self.legal@ == l0,
                old(board)@ == b0,
                old(self).legal@ == l0,
                b0.wf(),
                !b0.over,
                remaining == b0.cells.len() - b0.turn,
                self.synced(b0),
                n == b0.cells.len(),
                i <= n,
                -2 <= alpha < beta <= 2,
                -2 <= best <= 2,
                maximizer ==> best < beta && best_upto(b0, maximizer, i as int) <= best && (best > alpha
                    ==> best <= best_upto(b0, maximizer, i as int)),
                !maximizer ==> best > alpha && best_upto(b0, maximizer, i as int) >= best && (best < beta
                    ==> best >= best_upto(b0, maximizer, i as int)),
            decreases n - i,
        {
            if self.legal[i] {
                let (x, y) = board.coords(i);
                proof {
                    lemma_cell_coords(b0, i as int);
                    lemma_count_below_len(b0.cells, i as int);
                    lemma_place_undo_round_trip(b0, x as int, y as int);
                }
                self.legal.set(i, false);
                board.place_proof(x, y);
                assert(self.synced(board@)) by {
                    assert forall|j: int| 0 <= j < b0.cells.len() implies (#[trigger] self.legal@[j] <==> board@.cells[j] == Tile::Empty) by {}
                }
                assert(board@.cells.len() == b0.cells.len());
                assert(board@.turn == b0.turn + 1);
                let ghost child = board@;
                let (lo, hi) = if maximizer {
                    (if best > alpha { best } else { alpha }, beta)
                } else {
                    (alpha, if best < beta { best } else { beta })
                };
                let v = self.alphabeta_from(board, !maximizer, lo, hi, Ghost((remaining - 1) as nat));
                board.undo(x, y);
                self.legal.set(i, true);
                assert(self.legal@ =~= l0);
                let ghost cv = minimax_value(child, !maximizer);
                assert(child == b0.placed(cell_x(b0, i as int), cell_y(b0, i as int)));
                assert(best_upto(b0, maximizer, i as int + 1) == if maximizer {
                    if cv > best_upto(b0, maximizer, i as int) { cv } else { best_upto(b0, maximizer, i as int) }
                } else {
                    if cv < best_upto(b0, maximizer, i as int) { cv } else { best_upto(b0, maximizer, i as int) }
                });
                if maximizer {
                    if v > best {
                        best = v;
                    }
                    if best >= beta {
                        proof {
                            lemma_best_monotone(b0, maximizer, i as int + 1, n as int);
                            assert(minimax_value(b0, maximizer) == best_upto(b0, maximizer, n as int));
                        }
                        return best;
                    }
                } else {
                    if v < best {
                        best = v;
                    }
                    if best <= alpha {
                        proof {
                            lemma_best_monotone(b0, maximizer, i as int + 1, n as int);
                            assert(minimax_value(b0, maximizer) == best_upto(b0, maximizer, n as int));
                        }
                        return best;
                    }
                }
            }
            i += 1;
        }
        assert(minimax_value(b0, maximizer) == best_upto(b0, maximizer, n as int));
        best
    }
}

/// The position after player one's opening stone in the centre cell
/// (`size / 2`, `size / 2`) of a new board.
pub open spec fn centre_opening(size: int, shape1: Seq<Offset>, shape2: Seq<Offset>) -> BoardView {
    fresh_board(size, shape1, shape2).placed(size / 2, size / 2)
}

/// Sets up a board, opens with player one's stone in the centre, and the
/// free cells that go with it.
fn open_in_centre(size: i32, shape1: &mut Vec<Offset>, shape2: &mut Vec<Offset>) -> (r: Result<
    (Board, Tree),
    GameError,
>)
    requires
        negatable(old(shape1)@),
        negatable(old(shape2)@),
        size * size <= usize::MAX,
    ensures
        final(shape1)@ == old(shape1)@,
        final(shape2)@ == old(shape2)@,
        size <= 0 ==> r == Err::<(Board, Tree), GameError>(GameError::IllegalBoardSize),
        size > 0 ==> r is Ok && r->Ok_0.0@ == centre_opening(size as int, old(shape1)@, old(shape2)@)
            && r->Ok_0.0@.wf() && r->Ok_0.1.synced(r->Ok_0.0@),
{
    let mut board = match Board::setup(size, shape1, shape2) {
        Ok(b) => b,
        Err(e) => {
            return Err(e);
        },
    };
    let c = size / 2;
    let mut tree = Tree::new(size);
    let idx = board.index_of(c, c);
    board.place_proof(c, c);
    tree.legal.set(idx, false);
    assert(tree.synced(board@));
    Ok((board, tree))
}

/// Game value, by exhaustive search, of the position after player one's
/// opening stone in the centre, with player two to choose.
pub fn simulate_minimax(size: i32, shape1: &mut Vec<Offset>, shape2: &mut Vec<Offset>) -> (r: Result<
    i32,
    GameError,
>)
    requires
        negatable(old(shape1)@),
        negatable(old(shape2)@),
        size * size <= usize::MAX,
    ensures
        final(shape1)@ == old(shape1)@,
        final(shape2)@ == old(shape2)@,
        size <= 0 ==> r == Err::<i32, GameError>(GameError::IllegalBoardSize),
        size > 0 ==> r == Ok::<i32, GameError>(
            minimax_value(centre_opening(size as int, old(shape1)@, old(shape2)@), false) as i32,
        ),
{
    let (mut board, mut tree) = match open_in_centre(size, shape1, shape2) {
        Ok(bt) => bt,
        Err(e) => {
            return Err(e);
        },
    };
    Ok(tree.minimax(&mut board, false))
}

/// Game value, by alpha-beta search with the full window, of the position
/// after player one's opening stone in the centre, with player two to choose.
pub fn simulate_alphabeta(size: i32, shape1: &mut Vec<Offset>, shape2: &mut Vec<Offset>) -> (r: Result<
    i32,
    GameError,
>)
    requires
        negatable(old(shape1)@),
        negatable(old(shape2)@),
        size * size <= usize::MAX,
    ensures
        final(shape1)@ == old(shape1)@,
        final(shape2)@ == old(shape2)@,
        size <= 0 ==> r == Err::<i32, GameError>(GameError::IllegalBoardSize),
        size > 0 ==> r == Ok::<i32, GameError>(
            minimax_value(centre_opening(size as int, old(shape1)@, old(shape2)@), false) as i32,
        ),
{
    let (mut board, mut tree) = match open_in_centre(size, shape1, shape2) {
        Ok(bt) => bt,
        Err(e) => {
            return Err(e);
        },
    };
    Ok(tree.alphabeta(&mut board, false, -2, 2))
}

proof fn lemma_count_at_most(b: BoardView)
    requires
        b.wf(),
    ensures
        b.turn <= b.cells.len(),
{
    crate::game::lemma_count_at_most_len(b.cells);
}

} // verus!
