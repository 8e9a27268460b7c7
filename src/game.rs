use vstd::prelude::*;

verus! {

/// Content of one board cell.
#[derive(Clone, Copy, Debug, PartialEq, Eq, Hash, Structural)]
pub enum Tile {
    One,
    Two,
    Empty,
}

/// An offset of a shape, relative to an arbitrary reference cell.
pub type Offset = (i32, i32);

/// Offsets whose coordinates can be negated without overflow.
pub open spec fn negatable(s: Seq<Offset>) -> bool {
    forall|i: int| 0 <= i < s.len() ==> s[i].0 != i32::MIN && #[trigger] s[i].1 != i32::MIN
}

/// Quarter turn of one offset: (x, y) becomes (-y, x).
pub open spec fn rotate_point(p: Offset) -> Offset {
    ((-p.1) as i32, p.0)
}

/// Reflection of one offset in the vertical axis: (x, y) becomes (-x, y).
pub open spec fn mirror_point(p: Offset) -> Offset {
    ((-p.0) as i32, p.1)
}

pub open spec fn rotate_shape(s: Seq<Offset>) -> Seq<Offset> {
    s.map_values(|p: Offset| rotate_point(p))
}

pub open spec fn mirror_shape(s: Seq<Offset>) -> Seq<Offset> {
    s.map_values(|p: Offset| mirror_point(p))
}

/// The shape turned `n` quarter turns.
pub open spec fn rotate_times(s: Seq<Offset>, n: nat) -> Seq<Offset>
    decreases n,
{
    if n == 0 {
        s
    } else {
        rotate_shape(rotate_times(s, (n - 1) as nat))
    }
}

/// The `k`-th symmetric variant of `base`: the four quarter turns of the
/// shape, then the four quarter turns of its mirror image.
pub open spec fn variant(base: Seq<Offset>, k: int) -> Seq<Offset> {
    if k < 4 {
        rotate_times(base, (k + 1) as nat)
    } else {
        rotate_times(mirror_shape(base), (k - 3) as nat)
    }
}

/// Squared Euclidean distance of two offsets.
pub open spec fn dist2(p: Offset, q: Offset) -> int {
    (p.0 - q.0) * (p.0 - q.0) + (p.1 - q.1) * (p.1 - q.1)
}

proof fn lemma_rotate_shape(s: Seq<Offset>)
    requires
        negatable(s),
    ensures
        rotate_shape(s).len() == s.len(),
        negatable(rotate_shape(s)),
        forall|i: int|
            0 <= i < s.len() ==> (#[trigger] rotate_shape(s)[i]).0 == -s[i].1
                && rotate_shape(s)[i].1 == s[i].0,
{
    assert forall|i: int| 0 <= i < s.len() implies (#[trigger] rotate_shape(s)[i]).0 == -s[i].1
        && rotate_shape(s)[i].1 == s[i].0 by {}
}

proof fn lemma_mirror_shape(s: Seq<Offset>)
    requires
        negatable(s),
    ensures
        mirror_shape(s).len() == s.len(),
        negatable(mirror_shape(s)),
        forall|i: int|
            0 <= i < s.len() ==> (#[trigger] mirror_shape(s)[i]).0 == -s[i].0
                && mirror_shape(s)[i].1 == s[i].1,
{
}

proof fn lemma_rotate_times(s: Seq<Offset>, n: nat)
    requires
        negatable(s),
    ensures
        rotate_times(s, n).len() == s.len(),
        negatable(rotate_times(s, n)),
    decreases n,
{
    if n > 0 {
        lemma_rotate_times(s, (n - 1) as nat);
        lemma_rotate_shape(rotate_times(s, (n - 1) as nat));
    }
}

proof fn lemma_full_turn(s: Seq<Offset>)
    requires
        negatable(s),
    ensures
        rotate_times(s, 4) == s,
{
    lemma_rotate_times(s, 1);
    lemma_rotate_times(s, 2);
    lemma_rotate_times(s, 3);
    lemma_rotate_shape(s);
    lemma_rotate_shape(rotate_times(s, 1));
    lemma_rotate_shape(rotate_times(s, 2));
    lemma_rotate_shape(rotate_times(s, 3));
    let r1 = rotate_times(s, 1);
    let r2 = rotate_times(s, 2);
    let r3 = rotate_times(s, 3);
    let r4 = rotate_times(s, 4);
    assert(rotate_times(s, 0) == s);
    assert(r1 == rotate_shape(s));
    assert(r2 == rotate_shape(r1));
    assert(r3 == rotate_shape(r2));
    assert(r4 == rotate_shape(r3));
    assert forall|i: int| 0 <= i < s.len() implies r4[i] == s[i] by {
        assert(r1[i].0 == -s[i].1 && r1[i].1 == s[i].0);
        assert(r2[i].0 == -r1[i].1 && r2[i].1 == r1[i].0);
        assert(r3[i].0 == -r2[i].1 && r3[i].1 == r2[i].0);
        assert(r4[i].0 == -r3[i].1 && r4[i].1 == r3[i].0);
    }
    assert(r4 =~= s);
}

proof fn lemma_double_mirror(s: Seq<Offset>)
    requires
        negatable(s),
    ensures
        mirror_shape(mirror_shape(s)) == s,
{
    lemma_mirror_shape(s);
    lemma_mirror_shape(mirror_shape(s));
    assert(mirror_shape(mirror_shape(s)) =~= s);
}

proof fn lemma_rotate_keeps_distances(s: Seq<Offset>, n: nat)
    requires
        negatable(s),
    ensures
        forall|i: int, j: int|
            0 <= i < s.len() && 0 <= j < s.len() ==> dist2(
                #[trigger] rotate_times(s, n)[i],
                #[trigger] rotate_times(s, n)[j],
            ) == dist2(s[i], s[j]),
    decreases n,
{
    if n > 0 {
        let prev = rotate_times(s, (n - 1) as nat);
        lemma_rotate_keeps_distances(s, (n - 1) as nat);
        lemma_rotate_times(s, (n - 1) as nat);
        lemma_rotate_shape(prev);
        assert forall|i: int, j: int|
            0 <= i < s.len() && 0 <= j < s.len() implies dist2(
            #[trigger] rotate_times(s, n)[i],
            #[trigger] rotate_times(s, n)[j],
        ) == dist2(s[i], s[j]) by {
            assert(dist2(rotate_shape(prev)[i], rotate_shape(prev)[j]) == dist2(prev[i], prev[j]))
                by (nonlinear_arith)
                requires
                    rotate_shape(prev)[i].0 == -prev[i].1,
                    rotate_shape(prev)[i].1 == prev[i].0,
                    rotate_shape(prev)[j].0 == -prev[j].1,
                    rotate_shape(prev)[j].1 == prev[j].0,
            ;
        }
    }
}

/// Every symmetric variant is a rigid image of the base shape: it has as many
/// offsets, and any two offsets lie as far apart as the corresponding offsets
/// of the base shape.
pub proof fn lemma_variants_are_rigid(base: Seq<Offset>, k: int)
    requires
        negatable(base),
        0 <= k < 8,
    ensures
        variant(base, k).len() == base.len(),
        forall|i: int, j: int|
            0 <= i < base.len() && 0 <= j < base.len() ==> dist2(
                #[trigger] variant(base, k)[i],
                #[trigger] variant(base, k)[j],
            ) == dist2(base[i], base[j]),
{
    if k < 4 {
        lemma_rotate_times(base, (k + 1) as nat);
        lemma_rotate_keeps_distances(base, (k + 1) as nat);
    } else {
        let m = mirror_shape(base);
        lemma_mirror_shape(base);
        lemma_rotate_times(m, (k - 3) as nat);
        lemma_rotate_keeps_distances(m, (k - 3) as nat);
        assert forall|i: int, j: int|
            0 <= i < base.len() && 0 <= j < base.len() implies dist2(
            #[trigger] variant(base, k)[i],
            #[trigger] variant(base, k)[j],
        ) == dist2(base[i], base[j]) by {
            assert(dist2(m[i], m[j]) == dist2(base[i], base[j])) by (nonlinear_arith)
                requires
                    m[i].0 == -base[i].0,
                    m[i].1 == base[i].1,
                    m[j].0 == -base[j].0,
                    m[j].1 == base[j].1,
            ;
        }
    }
}

/// Turns every offset of `shape` a quarter turn, in place.
fn rotate_in_place(shape: &mut Vec<Offset>)
    requires
        negatable(old(shape)@),
    ensures
        final(shape)@ == rotate_shape(old(shape)@),
        negatable(final(shape)@),
{
    proof {
        lemma_rotate_shape(old(shape)@);
    }
    let ghost s0 = shape@;
    let n = shape.len();
    let mut i: usize = 0;
    while i < n
        invariant
            n == shape.len(),
            n == s0.len(),
            i <= n,
            negatable(s0),
            forall|j: int| 0 <= j < i ==> shape@[j] == rotate_shape(s0)[j],
            forall|j: int| i <= j < n ==> shape@[j] == s0[j],
        decreases n - i,
    {
        let (sx, sy) = shape[i];
        assert(s0[i as int].1 != i32::MIN);
        shape.set(i, (-sy, sx));
        i += 1;
    }
    assert(shape@ =~= rotate_shape(s0));
}

/// Reflects every offset of `shape` in the vertical axis, in place.
fn mirror_in_place(shape: &mut Vec<Offset>)
    requires
        negatable(old(shape)@),
    ensures
        final(shape)@ == mirror_shape(old(shape)@),
        negatable(final(shape)@),
{
    proof {
        lemma_mirror_shape(old(shape)@);
    }
    let ghost s0 = shape@;
    let n = shape.len();
    let mut i: usize = 0;
    while i < n
        invariant
            n == shape.len(),
            n == s0.len(),
            i <= n,
            negatable(s0),
            forall|j: int| 0 <= j < i ==> shape@[j] == mirror_shape(s0)[j],
            forall|j: int| i <= j < n ==> shape@[j] == s0[j],
        decreases n - i,
    {
        let (sx, sy) = shape[i];
        assert(s0[i as int].1 != i32::MIN);
        shape.set(i, (-sx, sy));
        i += 1;
    }
    assert(shape@ =~= mirror_shape(s0));
}

/// An element-by-element copy of a shape.
fn copy_shape(shape: &Vec<Offset>) -> (r: Vec<Offset>)
    ensures
        r@ == shape@,
{
    let mut r: Vec<Offset> = Vec::new();
    let mut i: usize = 0;
    while i < shape.len()
        invariant
            i <= shape.len(),
            r@ == shape@.subrange(0, i as int),
        decreases shape.len() - i,
    {
        r.push(shape[i]);
        i += 1;
    }
    assert(r@ =~= shape@);
    r
}

/// The eight symmetric variants of a base shape, in a fixed order: its four
/// quarter turns, then the four quarter turns of its mirror image. Equal
/// variants of a symmetric shape are all kept. The shape is turned in place
/// along the way and is left as it was given.
pub fn get_shapes(shape: &mut Vec<Offset>) -> (r: Vec<Vec<Offset>>)
    requires
        negatable(old(shape)@),
    ensures
        r@.len() == 8,
        forall|k: int| 0 <= k < 8 ==> (#[trigger] r@[k])@ == variant(old(shape)@, k),
        final(shape)@ == old(shape)@,
{
    let ghost base = shape@;
    let mut variants: Vec<Vec<Offset>> = Vec::new();
    let mut round: usize = 0;
    while round < 2
        invariant
            round <= 2,
            negatable(base),
            variants@.len() == 4 * round,
            round == 0 ==> shape@ == base,
            round == 1 ==> shape@ == mirror_shape(base),
            round == 2 ==> shape@ == base,
            forall|k: int| 0 <= k < variants@.len() ==> (#[trigger] variants@[k])@ == variant(base, k),
        decreases 2 - round,
    {
        let ghost start = shape@;
        proof {
            lemma_mirror_shape(base);
        }
        let mut turn: usize = 0;
        while turn < 4
            invariant
                round < 2,
                turn <= 4,
                negatable(base),
                negatable(start),
                round == 0 ==> start == base,
                round == 1 ==> start == mirror_shape(base),
                shape@ == rotate_times(start, turn as nat),
                variants@.len() == 4 * round + turn,
                forall|k: int| 0 <= k < variants@.len() ==> (#[trigger] variants@[k])@ == variant(base, k),
            decreases 4 - turn,
        {
            proof {
                lemma_rotate_times(start, turn as nat);
            }
            rotate_in_place(shape);
            let copy = copy_shape(shape);
            variants.push(copy);
            turn += 1;
        }
        proof {
            lemma_full_turn(start);
            lemma_double_mirror(base);
        }
        mirror_in_place(shape);
        round += 1;
    }
    variants
}

/// The eight symmetric variants of one player's winning shape.
pub struct Shapes {
    pub shapes: Vec<Vec<Offset>>,
}

impl View for Shapes {
    type V = Seq<Seq<Offset>>;

    open spec fn view(&self) -> Seq<Seq<Offset>> {
        self.shapes@.map_values(|v: Vec<Offset>| v@)
    }
}

impl Shapes {
    /// An element-by-element copy.
    pub fn copy(&self) -> (r: Shapes)
        ensures
            r@ == self@,
    {
        let mut shapes: Vec<Vec<Offset>> = Vec::new();
        let mut i: usize = 0;
        while i < self.shapes.len()
            invariant
                i <= self.shapes@.len(),
                shapes@.len() == i,
                forall|k: int| 0 <= k < i ==> (#[trigger] shapes@[k])@ == self.shapes@[k]@,
            decreases self.shapes@.len() - i,
        {
            shapes.push(copy_shape(&self.shapes[i]));
            i += 1;
        }
        let r = Shapes { shapes };
        assert(r@ =~= self@);
        r
    }

    /// The variants of `shape`, which is left as it was given.
    pub fn new(shape: &mut Vec<Offset>) -> (r: Shapes)
        requires
            negatable(old(shape)@),
        ensures
            r@.len() == 8,
            forall|k: int| 0 <= k < 8 ==> #[trigger] r@[k] == variant(old(shape)@, k),
            final(shape)@ == old(shape)@,
    {
        let shapes = get_shapes(shape);
        Shapes { shapes }
    }
}

/// The 64-bit digest of a board's cells and side to move. Two positions
/// may share one.
pub uninterp spec fn digest(cells: Seq<Tile>, player_one: bool) -> u64;

/// Relies on `BuildHasher::hash_one` with std's `DefaultHasher`, over the
/// cells and the side to move: a digest that depends on those values alone.
#[verifier::external_body]
pub(crate) fn position_hash(b: &Board) -> (r: u64)
    ensures
        r == digest(b@.cells, b@.player_one),
{
    std::hash::BuildHasher::hash_one(
        &std::hash::BuildHasherDefault::<std::collections::hash_map::DefaultHasher>::default(),
        (&b.field, b.player_one),
    )
}

/// Why a placement, or the setup of a board, was refused.
#[derive(Clone, Copy, Debug, PartialEq, Eq, Structural)]
pub enum GameError {
    /// The side length of a board must be positive.
    IllegalBoardSize,
    /// A coordinate lies outside `[0, size)`.
    CoordinateOutOfRange,
    /// The target cell already holds a stone.
    AlreadyOccupied,
}

/// Number of cells that hold a stone.
pub open spec fn count_stones(cells: Seq<Tile>) -> nat
    decreases cells.len(),
{
    if cells.len() == 0 {
        0
    } else {
        count_stones(cells.drop_last()) + if cells.last() == Tile::Empty {
            0nat
        } else {
            1nat
        }
    }
}

pub proof fn lemma_count_update(cells: Seq<Tile>, i: int, t: Tile)
    requires
        0 <= i < cells.len(),
    ensures
        count_stones(cells.update(i, t)) + (if cells[i] == Tile::Empty {
            0int
        } else {
            1int
        }) == count_stones(cells) + (if t == Tile::Empty {
            0int
        } else {
            1int
        }),
    decreases cells.len(),
{
    let u = cells.update(i, t);
    if i == cells.len() - 1 {
        assert(u.drop_last() =~= cells.drop_last());
    } else {
        assert(u.drop_last() =~= cells.drop_last().update(i, t));
        lemma_count_update(cells.drop_last(), i, t);
    }
}

/// A row of cells with an empty one among them is not all stones.
pub proof fn lemma_count_below_len(cells: Seq<Tile>, i: int)
    requires
        0 <= i < cells.len(),
        cells[i] == Tile::Empty,
    ensures
        count_stones(cells) < cells.len(),
    decreases cells.len(),
{
    lemma_count_at_most_len(cells.drop_last());
    if i < cells.len() - 1 {
        lemma_count_below_len(cells.drop_last(), i);
    }
}

pub proof fn lemma_count_at_most_len(cells: Seq<Tile>)
    ensures
        count_stones(cells) <= cells.len(),
    decreases cells.len(),
{
    if cells.len() > 0 {
        lemma_count_at_most_len(cells.drop_last());
    }
}

proof fn lemma_count_all_empty(cells: Seq<Tile>)
    requires
        forall|i: int| 0 <= i < cells.len() ==> cells[i] == Tile::Empty,
    ensures
        count_stones(cells) == 0,
    decreases cells.len(),
{
    if cells.len() > 0 {
        lemma_count_all_empty(cells.drop_last());
    }
}

pub open spec fn on_board(size: int, x: int, y: int) -> bool {
    0 <= x < size && 0 <= y < size
}

/// Position of cell (x, y) in the row-major cell sequence.
pub open spec fn cell_index(size: int, x: int, y: int) -> int {
    y * size + x
}

pub proof fn lemma_cell_index(size: int, x: int, y: int)
    requires
        on_board(size, x, y),
    ensures
        0 <= y * size <= cell_index(size, x, y) < size * size,
{
    assert(0 <= y * size <= y * size + x < size * size) by (nonlinear_arith)
        requires
            0 <= x < size,
            0 <= y < size,
    ;
}

/// The mathematical state of a board.
pub struct BoardView {
    pub size: int,
    pub cells: Seq<Tile>,
    pub turn: int,
    pub player_one: bool,
    pub over: bool,
    pub winner: Tile,
    pub shapes1: Seq<Seq<Offset>>,
    pub shapes2: Seq<Seq<Offset>>,
}

impl BoardView {
    pub open spec fn cell(self, x: int, y: int) -> Tile {
        self.cells[cell_index(self.size, x, y)]
    }

    pub open spec fn mover(self) -> Tile {
        if self.player_one {
            Tile::One
        } else {
            Tile::Two
        }
    }

    pub open spec fn shapes_of(self, t: Tile) -> Seq<Seq<Offset>> {
        if t == Tile::One {
            self.shapes1
        } else {
            self.shapes2
        }
    }

    pub open spec fn is_full(self) -> bool {
        self.turn == self.size * self.size
    }

    /// Cell (px, py) is on the board and holds `t`.
    pub open spec fn holds(self, px: int, py: int, t: Tile) -> bool {
        on_board(self.size, px, py) && self.cell(px, py) == t
    }

    /// With offset `a` of `shape` laid on (x, y), the cell under offset `j` holds `t`.
    pub open spec fn covered(self, shape: Seq<Offset>, a: int, j: int, x: int, y: int, t: Tile) -> bool {
        self.holds(x + shape[j].0 - shape[a].0, y + shape[j].1 - shape[a].1, t)
    }

    /// With offset `a` of `shape` laid on (x, y), every cell under the shape holds `t`.
    pub open spec fn covers(self, shape: Seq<Offset>, a: int, x: int, y: int, t: Tile) -> bool {
        forall|j: int| 0 <= j < shape.len() ==> #[trigger] self.covered(shape, a, j, x, y, t)
    }

    /// Some variant of `t`'s shape, anchored at some offset on (x, y), is all `t`.
    pub open spec fn completes(self, x: int, y: int, t: Tile) -> bool {
        exists|k: int, a: int|
            0 <= k < self.shapes_of(t).len() && 0 <= a < self.shapes_of(t)[k].len()
                && #[trigger] self.covers(self.shapes_of(t)[k], a, x, y, t)
    }

    /// A positive side length, and one cell for each (x, y).
    pub open spec fn dims_ok(self) -> bool {
        &&& 0 < self.size <= i32::MAX
        &&& self.size * self.size <= usize::MAX
        &&& self.cells.len() == self.size * self.size
    }

    /// Cells and counters agree; a full board is over; an open game has no winner.
    pub open spec fn wf(self) -> bool {
        &&& self.dims_ok()
        &&& self.turn == count_stones(self.cells)
        &&& (self.is_full() ==> self.over)
        &&& (!self.over ==> self.winner == Tile::Empty)
    }

    /// The mover's stone on (x, y), before the move is evaluated.
    pub open spec fn stone_on(self, x: int, y: int) -> BoardView {
        BoardView {
            cells: self.cells.update(cell_index(self.size, x, y), self.mover()),
            turn: self.turn + 1,
            ..self
        }
    }

    /// The mover's stone on (x, y), and the terminal evaluation of that move.
    pub open spec fn with_stone(self, x: int, y: int) -> BoardView {
        let t = self.mover();
        let b = self.stone_on(x, y);
        let won = b.completes(x, y, t);
        BoardView { over: won || b.is_full(), winner: if won { t } else { Tile::Empty }, ..b }
    }

    /// A placement during search: the side to move always changes.
    pub open spec fn placed(self, x: int, y: int) -> BoardView {
        BoardView { player_one: !self.player_one, ..self.with_stone(x, y) }
    }

    /// A placement in play: the side to move changes only while the game goes on.
    pub open spec fn played(self, x: int, y: int) -> BoardView {
        let b = self.with_stone(x, y);
        BoardView { player_one: if b.over { self.player_one } else { !self.player_one }, ..b }
    }

    /// The stone on (x, y) taken back, into the open position it was placed on.
    pub open spec fn undone(self, x: int, y: int) -> BoardView {
        BoardView {
            cells: self.cells.update(cell_index(self.size, x, y), Tile::Empty),
            turn: self.turn - 1,
            player_one: !self.player_one,
            over: false,
            winner: Tile::Empty,
            ..self
        }
    }

    /// The state of a fresh board.
    pub open spec fn is_initial(self) -> bool {
        &&& forall|i: int| 0 <= i < self.cells.len() ==> self.cells[i] == Tile::Empty
        &&& self.turn == 0
        &&& self.player_one
        &&& !self.over
        &&& self.winner == Tile::Empty
    }
}

proof fn lemma_cell_index_injective(size: int, x1: int, y1: int, x2: int, y2: int)
    requires
        on_board(size, x1, y1),
        on_board(size, x2, y2),
        cell_index(size, x1, y1) == cell_index(size, x2, y2),
    ensures
        x1 == x2 && y1 == y2,
{
    if y1 < y2 {
        assert(y1 * size + x1 < y2 * size + x2) by (nonlinear_arith)
            requires
                y1 < y2,
                0 <= x1 < size,
                0 <= x2,
        ;
    } else if y2 < y1 {
        assert(y2 * size + x2 < y1 * size + x1) by (nonlinear_arith)
            requires
                y2 < y1,
                0 <= x2 < size,
                0 <= x1,
        ;
    }
}

/// A search placement followed by taking the same stone back restores the
/// whole state of an open board: cells, stone count, side to move, terminal
/// flag and winner.
pub proof fn lemma_place_undo_round_trip(b: BoardView, x: int, y: int)
    requires
        b.wf(),
        !b.over,
        on_board(b.size, x, y),
        b.cell(x, y) == Tile::Empty,
    ensures
        b.placed(x, y).wf(),
        b.placed(x, y).cell(x, y) != Tile::Empty,
        b.placed(x, y).undone(x, y) == b,
{
    lemma_cell_index(b.size, x, y);
    let i = cell_index(b.size, x, y);
    lemma_count_below_len(b.cells, i);
    lemma_count_update(b.cells, i, b.mover());
    assert(b.placed(x, y).undone(x, y).cells =~= b.cells);
}

/// A placement in play that leaves the game open, followed by taking the
/// same stone back, restores the whole state of an open board.
pub proof fn lemma_play_undo_round_trip(b: BoardView, x: int, y: int)
    requires
        b.wf(),
        !b.over,
        on_board(b.size, x, y),
        b.cell(x, y) == Tile::Empty,
        !b.played(x, y).over,
    ensures
        b.played(x, y).wf(),
        b.played(x, y).cell(x, y) != Tile::Empty,
        b.played(x, y).undone(x, y) == b,
{
    lemma_place_undo_round_trip(b, x, y);
    assert(b.played(x, y).undone(x, y).cells =~= b.cells);
}

/// A stone that completes a variant of the mover's shape wins, whichever
/// variant it is, whichever offset of it the stone stands for, and however
/// the other stones of the variant came to be on the board.
pub proof fn lemma_completing_move_wins(b: BoardView, x: int, y: int, k: int, a: int)
    requires
        b.wf(),
        on_board(b.size, x, y),
        b.cell(x, y) == Tile::Empty,
        0 <= k < b.shapes_of(b.mover()).len(),
        0 <= a < b.shapes_of(b.mover())[k].len(),
        forall|j: int|
            0 <= j < b.shapes_of(b.mover())[k].len() ==> b.shapes_of(b.mover())[k][j]
                == b.shapes_of(b.mover())[k][a] || #[trigger] b.covered(
                b.shapes_of(b.mover())[k],
                a,
                j,
                x,
                y,
                b.mover(),
            ),
    ensures
        b.placed(x, y).over,
        b.placed(x, y).winner == b.mover(),
        b.played(x, y).over,
        b.played(x, y).winner == b.mover(),
        b.played(x, y).player_one == b.player_one,
{
    let t = b.mover();
    let shape = b.shapes_of(t)[k];
    let i = cell_index(b.size, x, y);
    lemma_cell_index(b.size, x, y);
    let c = b.stone_on(x, y);
    assert(c.shapes_of(t)[k] == shape);
    assert forall|j: int| 0 <= j < shape.len() implies #[trigger] c.covered(shape, a, j, x, y, t) by {
        let px = x + shape[j].0 - shape[a].0;
        let py = y + shape[j].1 - shape[a].1;
        if shape[j] == shape[a] {
            assert(px == x && py == y);
        } else {
            assert(b.covered(shape, a, j, x, y, t));
            lemma_cell_index(b.size, px, py);
            if cell_index(b.size, px, py) == i {
                lemma_cell_index_injective(b.size, px, py, x, y);
            }
        }
    }
    assert(c.covers(c.shapes_of(t)[k], a, x, y, t));
    assert(c.completes(x, y, t));
}

proof fn lemma_completes_same(c1: BoardView, c2: BoardView, x: int, y: int, t: Tile)
    requires
        c1.size == c2.size,
        c1.cells == c2.cells,
        c1.shapes1 == c2.shapes1,
        c1.shapes2 == c2.shapes2,
    ensures
        c1.completes(x, y, t) == c2.completes(x, y, t),
{
    assert forall|k: int, a: int| #[trigger] c1.covers(c1.shapes_of(t)[k], a, x, y, t) == c2.covers(
        c2.shapes_of(t)[k],
        a,
        x,
        y,
        t,
    ) by {
        let sh = c1.shapes_of(t)[k];
        assert(c1.shapes_of(t) == c2.shapes_of(t));
        if c1.covers(sh, a, x, y, t) {
            assert forall|j: int| 0 <= j < sh.len() implies #[trigger] c2.covered(sh, a, j, x, y, t) by {
                assert(c1.covered(sh, a, j, x, y, t));
            }
        }
        if c2.covers(sh, a, x, y, t) {
            assert forall|j: int| 0 <= j < sh.len() implies #[trigger] c1.covered(sh, a, j, x, y, t) by {
                assert(c2.covered(sh, a, j, x, y, t));
            }
        }
    }
    if c1.completes(x, y, t) {
        let (k, a) = choose|k: int, a: int|
            0 <= k < c1.shapes_of(t).len() && 0 <= a < c1.shapes_of(t)[k].len()
                && #[trigger] c1.covers(c1.shapes_of(t)[k], a, x, y, t);
        assert(c2.covers(c2.shapes_of(t)[k], a, x, y, t));
    }
    if c2.completes(x, y, t) {
        let (k, a) = choose|k: int, a: int|
            0 <= k < c2.shapes_of(t).len() && 0 <= a < c2.shapes_of(t)[k].len()
                && #[trigger] c2.covers(c2.shapes_of(t)[k], a, x, y, t);
        assert(c1.covers(c1.shapes_of(t)[k], a, x, y, t));
    }
}

/// Terminal detection depends on the position alone: two boards with the
/// same cells, stone count, side to move and shapes, however they were
/// reached, end in the same state after the same move.
pub proof fn lemma_outcome_depends_on_position(b1: BoardView, b2: BoardView, x: int, y: int)
    requires
        b1.size == b2.size,
        b1.cells == b2.cells,
        b1.turn == b2.turn,
        b1.player_one == b2.player_one,
        b1.shapes1 == b2.shapes1,
        b1.shapes2 == b2.shapes2,
    ensures
        b1.placed(x, y) == b2.placed(x, y),
        b1.played(x, y) == b2.played(x, y),
{
    lemma_completes_same(b1.stone_on(x, y), b2.stone_on(x, y), x, y, b1.mover());
}

/// A stone on the last empty cell that completes no shape ends the game in
/// a draw.
pub proof fn lemma_full_board_is_draw(b: BoardView, x: int, y: int)
    requires
        b.wf(),
        on_board(b.size, x, y),
        b.cell(x, y) == Tile::Empty,
        b.turn + 1 == b.size * b.size,
        !b.stone_on(x, y).completes(x, y, b.mover()),
    ensures
        b.placed(x, y).over,
        b.placed(x, y).winner == Tile::Empty,
        b.played(x, y).over,
        b.played(x, y).winner == Tile::Empty,
{
}

/// The empty cells among the first `i` of the row-major order, as
/// coordinates, in that order.
pub open spec fn free_moves(b: BoardView, i: int) -> Seq<Offset>
    decreases i,
{
    if i <= 0 {
        Seq::empty()
    } else if b.cells[i - 1] == Tile::Empty {
        free_moves(b, i - 1).push((((i - 1) % b.size) as i32, ((i - 1) / b.size) as i32))
    } else {
        free_moves(b, i - 1)
    }
}

proof fn lemma_free_moves_nonempty(b: BoardView, i: int, j: int)
    requires
        0 <= j < i <= b.cells.len(),
        b.cells[j] == Tile::Empty,
    ensures
        free_moves(b, i).len() > 0,
    decreases i,
{
    if j < i - 1 {
        lemma_free_moves_nonempty(b, i - 1, j);
    }
}

/// An open board has a free cell.
pub proof fn lemma_open_board_has_free_move(b: BoardView)
    requires
        b.wf(),
        !b.over,
    ensures
        free_moves(b, b.cells.len() as int).len() > 0,
{
    lemma_count_at_most_len(b.cells);
    crate::tree::lemma_has_empty(b.cells);
    let j = choose|j: int| 0 <= j < b.cells.len() && b.cells[j] == Tile::Empty;
    lemma_free_moves_nonempty(b, b.cells.len() as int, j);
}

/// Some entry of `s` carries digest `d`.
pub open spec fn has_digest(s: Seq<(u64, Offset)>, d: u64) -> bool {
    exists|j: int| 0 <= j < s.len() && (#[trigger] s[j]).0 == d
}

/// The children that a search over a table of positions gives `b`, from
/// its first `i` cells: for each empty cell in row-major order, the digest
/// of the position after a stone there and the move, unless that digest is
/// one of `known` or was given to an earlier cell.
pub open spec fn table_children(known: Set<u64>, b: BoardView, i: int) -> Seq<(u64, Offset)>
    decreases i,
{
    if i <= 0 {
        Seq::empty()
    } else {
        let prev = table_children(known, b, i - 1);
        if b.cells[i - 1] != Tile::Empty {
            prev
        } else {
            let m: Offset = (((i - 1) % b.size) as i32, ((i - 1) / b.size) as i32);
            let p = b.placed(m.0 as int, m.1 as int);
            let d = digest(p.cells, p.player_one);
            if known.contains(d) || has_digest(prev, d) {
                prev
            } else {
                prev.push((d, m))
            }
        }
    }
}

/// The state of a new `size` × `size` board for the given base shapes.
pub open spec fn fresh_board(size: int, shape1: Seq<Offset>, shape2: Seq<Offset>) -> BoardView {
    BoardView {
        size,
        cells: Seq::new((size * size) as nat, |i: int| Tile::Empty),
        turn: 0,
        player_one: true,
        over: false,
        winner: Tile::Empty,
        shapes1: Seq::new(8, |k: int| variant(shape1, k)),
        shapes2: Seq::new(8, |k: int| variant(shape2, k)),
    }
}

/// The search placements of `moves`, in order, from `b`; the first move
/// off the board or on an occupied cell stops the replay with its error.
pub open spec fn replay(b: BoardView, moves: Seq<Offset>) -> Result<BoardView, GameError>
    decreases moves.len(),
{
    if moves.len() == 0 {
        Ok(b)
    } else {
        match replay(b, moves.drop_last()) {
            Err(e) => Err(e),
            Ok(c) => {
                let m = moves.last();
                if !on_board(c.size, m.0 as int, m.1 as int) {
                    Err(GameError::CoordinateOutOfRange)
                } else if c.cell(m.0 as int, m.1 as int) != Tile::Empty {
                    Err(GameError::AlreadyOccupied)
                } else {
                    Ok(c.placed(m.0 as int, m.1 as int))
                }
            },
        }
    }
}

/// A replay that goes through leaves the side to move changed once per move.
pub proof fn lemma_replay_parity(b: BoardView, moves: Seq<Offset>)
    requires
        replay(b, moves) is Ok,
    ensures
        replay(b, moves)->Ok_0.player_one == (b.player_one == (moves.len() % 2 == 0)),
    decreases moves.len(),
{
    if moves.len() > 0 {
        lemma_replay_parity(b, moves.drop_last());
    }
}

/// Every empty cell among the first `n` is among the free moves.
pub proof fn lemma_free_moves_cover(b: BoardView, n: int, i: int)
    requires
        0 <= i < n <= b.cells.len(),
        b.cells[i] == Tile::Empty,
    ensures
        exists|j: int|
            0 <= j < free_moves(b, n).len() && #[trigger] free_moves(b, n)[j] == ((i % b.size) as i32, (i
                / b.size) as i32),
    decreases n,
{
    if i < n - 1 {
        lemma_free_moves_cover(b, n - 1, i);
        let j = choose|j: int|
            0 <= j < free_moves(b, n - 1).len() && #[trigger] free_moves(b, n - 1)[j] == ((i % b.size) as i32, (i
                / b.size) as i32);
        assert(free_moves(b, n)[j] == free_moves(b, n - 1)[j]);
    } else {
        let j = free_moves(b, n - 1).len() as int;
        assert(free_moves(b, n)[j] == ((i % b.size) as i32, (i / b.size) as i32));
    }
}

/// A replay that stops on a move stops there whatever follows.
pub proof fn lemma_replay_stops(b: BoardView, moves: Seq<Offset>, i: int)
    requires
        0 <= i <= moves.len(),
        replay(b, moves.subrange(0, i)) is Err,
    ensures
        replay(b, moves) == replay(b, moves.subrange(0, i)),
    decreases moves.len() - i,
{
    if i < moves.len() {
        assert(moves.drop_last().subrange(0, i) =~= moves.subrange(0, i));
        lemma_replay_stops(b, moves.drop_last(), i);
    } else {
        assert(moves.subrange(0, i) =~= moves);
    }
}

/// A square board with the stones placed so far, the side to move, the
/// terminal state, and both players' winning shapes.
pub struct Board {
    pub size: i32,
    pub turn: usize,
    /// Row-major cells: (x, y) lies at `y * size + x`.
    pub field: Vec<Tile>,
    pub player_one: bool,
    pub game_over: bool,
    pub shapes1: Shapes,
    pub shapes2: Shapes,
    pub winner: Tile,
}

impl View for Board {
    type V = BoardView;

    open spec fn view(&self) -> BoardView {
        BoardView {
            size: self.size as int,
            cells: self.field@,
            turn: self.turn as int,
            player_one: self.player_one,
            over: self.game_over,
            winner: self.winner,
            shapes1: self.shapes1@,
            shapes2: self.shapes2@,
        }
    }
}

impl Board {
    /// A board of `size` × `size` empty cells with player one to move, and
    /// the variants of each player's shape. Each shape is left as it was given.
    pub fn setup(size: i32, shape1: &mut Vec<Offset>, shape2: &mut Vec<Offset>) -> (r: Result<
        Board,
        GameError,
    >)
        requires
            negatable(old(shape1)@),
            negatable(old(shape2)@),
            size * size <= usize::MAX,
        ensures
            size <= 0 ==> r == Err::<Board, GameError>(GameError::IllegalBoardSize),
            size > 0 ==> r is Ok,
            r is Ok ==> {
                let b = r->Ok_0@;
                &&& b.wf()
                &&& b.is_initial()
                &&& b == fresh_board(size as int, old(shape1)@, old(shape2)@)
                &&& b.size == size
                &&& b.shapes1.len() == 8
                &&& b.shapes2.len() == 8
                &&& forall|k: int| 0 <= k < 8 ==> #[trigger] b.shapes1[k] == variant(old(shape1)@, k)
                &&& forall|k: int| 0 <= k < 8 ==> #[trigger] b.shapes2[k] == variant(old(shape2)@, k)
            },
            final(shape1)@ == old(shape1)@,
            final(shape2)@ == old(shape2)@,
    {
        if size <= 0 {
            return Err(GameError::IllegalBoardSize);
        }
        let n: usize = (size as usize) * (size as usize);
        let mut field: Vec<Tile> = Vec::new();
        let mut i: usize = 0;
        while i < n
            invariant
                i <= n,
                field@.len() == i,
                forall|j: int| 0 <= j < i ==> field@[j] == Tile::Empty,
            decreases n - i,
        {
            field.push(Tile::Empty);
            i += 1;
        }
        proof {
            lemma_count_all_empty(field@);
            assert(0 < size * size) by (nonlinear_arith)
                requires
                    0 < size,
            ;
        }
        let ghost s1 = shape1@;
        let ghost s2 = shape2@;
        let shapes1 = Shapes::new(shape1);
        let shapes2 = Shapes::new(shape2);
        let b = Board {
            size,
            turn: 0,
            field,
            player_one: true,
            game_over: false,
            shapes1,
            shapes2,
            winner: Tile::Empty,
        };
        proof {
            let f = fresh_board(size as int, s1, s2);
            assert(b@.cells =~= f.cells);
            assert(b@.shapes1 =~= f.shapes1);
            assert(b@.shapes2 =~= f.shapes2);
        }
        Ok(b)
    }

    /// Clears every cell and returns to the state of a fresh board.
    pub fn reset(&mut self)
        requires
            old(self)@.wf(),
        ensures
            final(self)@.wf(),
            final(self)@.is_initial(),
            final(self)@.size == old(self)@.size,
            final(self)@.shapes1 == old(self)@.shapes1,
            final(self)@.shapes2 == old(self)@.shapes2,
    {
        let n = self.field.len();
        let mut i: usize = 0;
        while i < n
            invariant
                i <= n,
                self.field@.len() == n,
                self.size == old(self).size,
                self.shapes1 == old(self).shapes1,
                self.shapes2 == old(self).shapes2,
                forall|j: int| 0 <= j < i ==> self.field@[j] == Tile::Empty,
            decreases n - i,
        {
            self.field.set(i, Tile::Empty);
            i += 1;
        }
        proof {
            lemma_count_all_empty(self.field@);
            assert(0 < self.size * self.size) by (nonlinear_arith)
                requires
                    0 < self.size,
            ;
        }
        self.turn = 0;
        self.player_one = true;
        self.game_over = false;
        self.winner = Tile::Empty;
    }

    /// The tile on (x, y).
    pub fn cell(&self, x: i32, y: i32) -> (r: Tile)
        requires
            self@.wf(),
            on_board(self@.size, x as int, y as int),
        ensures
            r == self@.cell(x as int, y as int),
    {
        proof {
            lemma_cell_index(self.size as int, x as int, y as int);
        }
        self.field[(y as usize) * (self.size as usize) + (x as usize)]
    }

    /// An independent copy of the board, for hypothetical play beside it.
    pub fn snapshot(&self) -> (r: Board)
        ensures
            r@ == self@,
    {
        let mut field: Vec<Tile> = Vec::new();
        let mut i: usize = 0;
        while i < self.field.len()
            invariant
                i <= self.field@.len(),
                field@ == self.field@.subrange(0, i as int),
            decreases self.field@.len() - i,
        {
            field.push(self.field[i]);
            i += 1;
        }
        assert(field@ =~= self.field@);
        Board {
            size: self.size,
            turn: self.turn,
            field,
            player_one: self.player_one,
            game_over: self.game_over,
            shapes1: self.shapes1.copy(),
            shapes2: self.shapes2.copy(),
            winner: self.winner,
        }
    }

    /// Position of cell (x, y) in the row-major order.
    pub fn index_of(&self, x: i32, y: i32) -> (r: usize)
        requires
            self@.dims_ok(),
            on_board(self@.size, x as int, y as int),
        ensures
            r == cell_index(self@.size, x as int, y as int),
            r < self@.cells.len(),
    {
        proof {
            lemma_cell_index(self.size as int, x as int, y as int);
        }
        (y as usize) * (self.size as usize) + (x as usize)
    }

    /// The coordinates of the cell at position `i` of the row-major order.
    pub fn coords(&self, i: usize) -> (r: (i32, i32))
        requires
            self@.dims_ok(),
            i < self@.cells.len(),
        ensures
            on_board(self@.size, r.0 as int, r.1 as int),
            cell_index(self@.size, r.0 as int, r.1 as int) == i,
            r.0 as int == i as int % self@.size,
            r.1 as int == i as int / self@.size,
    {
        let size = self.size as usize;
        proof {
            let ii = i as int;
            let sz = size as int;
            vstd::arithmetic::div_mod::lemma_fundamental_div_mod(ii, sz);
            vstd::arithmetic::div_mod::lemma_mod_bound(ii, sz);
            let q = ii / sz;
            assert(0 <= q < sz) by (nonlinear_arith)
                requires
                    ii == sz * q + (ii % sz),
                    0 <= ii % sz < sz,
                    0 <= ii < sz * sz,
                    0 < sz,
            ;
            assert(ii == q * sz + ii % sz) by (nonlinear_arith)
                requires
                    ii == sz * q + (ii % sz),
            ;
        }
        ((i % size) as i32, (i / size) as i32)
    }

    /// Cell (px, py) is on the board and holds `t`.
    fn holds_at(&self, px: i64, py: i64, t: Tile) -> (r: bool)
        requires
            self@.dims_ok(),
        ensures
            r == self@.holds(px as int, py as int, t),
    {
        if px < 0 || py < 0 || px >= self.size as i64 || py >= self.size as i64 {
            return false;
        }
        proof {
            lemma_cell_index(self.size as int, px as int, py as int);
        }
        self.field[(py as usize) * (self.size as usize) + (px as usize)] == t
    }

    /// With offset `a` of `shape` on (x, y), every cell under the shape holds
    /// `t`; stops at the first cell that does not.
    fn covers_at(&self, shape: &Vec<Offset>, a: usize, x: i32, y: i32, t: Tile) -> (r: bool)
        requires
            self@.dims_ok(),
            a < shape@.len(),
        ensures
            r == self@.covers(shape@, a as int, x as int, y as int, t),
    {
        let (ax, ay) = shape[a];
        let mut j: usize = 0;
        while j < shape.len()
            invariant
                a < shape@.len(),
                j <= shape@.len(),
                (ax, ay) == shape@[a as int],
                self@.dims_ok(),
                forall|i: int| 0 <= i < j ==> #[trigger] self@.covered(shape@, a as int, i, x as int, y as int, t),
            decreases shape@.len() - j,
        {
            let (sx, sy) = shape[j];
            let px: i64 = x as i64 + sx as i64 - ax as i64;
            let py: i64 = y as i64 + sy as i64 - ay as i64;
            if !self.holds_at(px, py, t) {
                assert(!self@.covered(shape@, a as int, j as int, x as int, y as int, t));
                return false;
            }
            j += 1;
        }
        true
    }

    /// Some variant of `t`'s shape, anchored at some offset on (x, y), is all `t`.
    fn completes_at(&self, x: i32, y: i32, t: Tile) -> (r: bool)
        requires
            self@.dims_ok(),
        ensures
            r == self@.completes(x as int, y as int, t),
    {
        let shapes = if t == Tile::One {
            &self.shapes1.shapes
        } else {
            &self.shapes2.shapes
        };
        assert(self@.shapes_of(t).len() == shapes@.len());
        let mut k: usize = 0;
        while k < shapes.len()
            invariant
                self@.dims_ok(),
                k <= shapes@.len(),
                self@.shapes_of(t) == shapes@.map_values(|v: Vec<Offset>| v@),
                forall|k2: int, a2: int|
                    0 <= k2 < k && 0 <= a2 < self@.shapes_of(t)[k2].len() ==> !#[trigger] self@.covers(
                        self@.shapes_of(t)[k2],
                        a2,
                        x as int,
                        y as int,
                        t,
                    ),
            decreases shapes@.len() - k,
        {
            let shape = &shapes[k];
            assert(self@.shapes_of(t)[k as int] == shape@);
            let mut a: usize = 0;
            while a < shape.len()
                invariant
                    self@.dims_ok(),
                    k < shapes@.len(),
                    a <= shape@.len(),
                    self@.shapes_of(t) == shapes@.map_values(|v: Vec<Offset>| v@),
                    self@.shapes_of(t)[k as int] == shape@,
                    forall|k2: int, a2: int|
                        0 <= k2 < k && 0 <= a2 < self@.shapes_of(t)[k2].len() ==> !#[trigger] self@.covers(
                            self@.shapes_of(t)[k2],
                            a2,
                            x as int,
                            y as int,
                            t,
                        ),
                    forall|a2: int| 0 <= a2 < a ==> !#[trigger] self@.covers(shape@, a2, x as int, y as int, t),
                decreases shape@.len() - a,
            {
                if self.covers_at(shape, a, x, y, t) {
                    assert(self@.covers(self@.shapes_of(t)[k as int], a as int, x as int, y as int, t));
                    return true;
                }
                a += 1;
            }
            k += 1;
        }
        false
    }

    /// Terminal evaluation after the stone on (x, y): the side to move, who
    /// made that move, completed a variant of its shape there, or the board is
    /// full. Records the winner: the mover on a completed shape, else nobody.
    pub fn game_over(&mut self, x: i32, y: i32) -> (r: bool)
        requires
            old(self)@.dims_ok(),
        ensures
            r == (old(self)@.completes(x as int, y as int, old(self)@.mover()) || old(self)@.is_full()),
            final(self)@ == (BoardView {
                winner: if old(self)@.completes(x as int, y as int, old(self)@.mover()) {
                    old(self)@.mover()
                } else {
                    Tile::Empty
                },
                ..old(self)@
            }),
    {
        let active = self.player_to_move();
        if self.completes_at(x, y, active) {
            self.winner = active;
            return true;
        }
        self.winner = Tile::Empty;
        self.draw()
    }

    /// Every cell holds a stone.
    pub fn draw(&self) -> (r: bool)
        requires
            self.field@.len() == self.size * self.size,
        ensures
            r == self@.is_full(),
    {
        self.turn == self.field.len()
    }

    pub fn is_over(&self) -> (r: bool)
        ensures
            r == self@.over,
    {
        self.game_over
    }

    pub fn player_to_move(&self) -> (r: Tile)
        ensures
            r == self@.mover(),
    {
        if self.player_one {
            Tile::One
        } else {
            Tile::Two
        }
    }

    /// The winner of a finished game; `Empty` for a draw or an open game.
    pub fn winner(&self) -> (r: &Tile)
        ensures
            *r == self@.winner,
    {
        &self.winner
    }

    /// Puts the mover's stone on (x, y) and evaluates the move.
    fn put_stone(&mut self, x: i32, y: i32)
        requires
            old(self)@.wf(),
            on_board(old(self)@.size, x as int, y as int),
            old(self)@.cell(x as int, y as int) == Tile::Empty,
        ensures
            final(self)@ == old(self)@.with_stone(x as int, y as int),
            final(self)@.wf(),
    {
        let ghost b0 = self@;
        proof {
            lemma_cell_index(self.size as int, x as int, y as int);
            let i = cell_index(b0.size, x as int, y as int);
            lemma_count_below_len(b0.cells, i);
            lemma_count_update(b0.cells, i, b0.mover());
        }
        let active = self.player_to_move();
        let idx = (y as usize) * (self.size as usize) + (x as usize);
        self.field.set(idx, active);
        self.turn += 1;
        self.game_over = self.game_over(x, y);
        assert(self@ =~= b0.with_stone(x as int, y as int));
    }

    /// A placement during search, on an empty cell of the board: the side to
    /// move changes whatever the outcome.
    pub fn place_proof(&mut self, x: i32, y: i32)
        requires
            old(self)@.wf(),
            on_board(old(self)@.size, x as int, y as int),
            old(self)@.cell(x as int, y as int) == Tile::Empty,
        ensures
            final(self)@ == old(self)@.placed(x as int, y as int),
            final(self)@.wf(),
    {
        self.put_stone(x, y);
        self.player_one = !self.player_one;
    }

    /// A placement in play. Refused off the board or on an occupied cell, and
    /// then nothing changes. The side to move changes only while the game
    /// goes on.
    pub fn place(&mut self, x: i32, y: i32) -> (r: Result<(), GameError>)
        requires
            old(self)@.wf(),
        ensures
            final(self)@.wf(),
            !on_board(old(self)@.size, x as int, y as int) <==> r == Err::<(), GameError>(
                GameError::CoordinateOutOfRange,
            ),
            on_board(old(self)@.size, x as int, y as int) && old(self)@.cell(x as int, y as int)
                != Tile::Empty <==> r == Err::<(), GameError>(GameError::AlreadyOccupied),
            on_board(old(self)@.size, x as int, y as int) && old(self)@.cell(x as int, y as int) == Tile::Empty
                ==> r is Ok,
            r is Ok ==> final(self)@ == old(self)@.played(x as int, y as int),
            r is Err ==> final(self)@ == old(self)@,
    {
        if x < 0 || y < 0 || x >= self.size || y >= self.size {
            return Err(GameError::CoordinateOutOfRange);
        }
        if self.cell(x, y) != Tile::Empty {
            return Err(GameError::AlreadyOccupied);
        }
        self.put_stone(x, y);
        if !self.game_over {
            self.player_one = !self.player_one;
        }
        Ok(())
    }

    /// Takes back the stone on (x, y), into the open position before it:
    /// the cell is emptied, the count goes down, the side to move changes
    /// back, and the game is open again. The caller takes moves back in the
    /// reverse order of their placement.
    pub fn undo(&mut self, x: i32, y: i32)
        requires
            old(self)@.wf(),
            on_board(old(self)@.size, x as int, y as int),
            old(self)@.cell(x as int, y as int) != Tile::Empty,
        ensures
            final(self)@ == old(self)@.undone(x as int, y as int),
            final(self)@.wf(),
    {
        let ghost b0 = self@;
        proof {
            lemma_cell_index(self.size as int, x as int, y as int);
            let i = cell_index(b0.size, x as int, y as int);
            lemma_count_update(b0.cells, i, Tile::Empty);
            lemma_count_at_most_len(b0.cells);
        }
        let idx = (y as usize) * (self.size as usize) + (x as usize);
        self.field.set(idx, Tile::Empty);
        self.turn -= 1;
        self.player_one = !self.player_one;
        self.game_over = false;
        self.winner = Tile::Empty;
        assert(self@ =~= b0.undone(x as int, y as int));
    }
}

} // verus!
