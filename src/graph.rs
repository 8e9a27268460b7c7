use vstd::prelude::*;
use slotmap::{DefaultKey, Key, KeyData, SlotMap};
use crate::tree::{cell_x, cell_y, child_value, lemma_best_threshold, minimax_value};
use crate::game::{
    Board, BoardView, GameError, Offset, Tile, cell_index, free_moves, fresh_board,
    lemma_place_undo_round_trip, lemma_replay_stops, negatable, on_board, replay,
};

verus! {

/// The slot map that owns every node of a search, hidden from the verifier.
/// Verus does not take a declaration of `SlotMap` itself, whose key
/// parameter is bound by slotmap's `Key` trait.
#[verifier::external_body]
pub struct NodeArena {
    map: SlotMap<DefaultKey, Node>,
}

/// The nodes a slot map holds, each under the 64-bit handle of its key
/// (`KeyData::as_ffi`).
pub uninterp spec fn arena_nodes(m: NodeArena) -> Map<u64, Node>;

pub open spec fn no_nodes() -> Map<u64, Node> {
    Map::empty()
}

/// Relies on `SlotMap::with_key`: a new slot map holds nothing.
#[verifier::external_body]
fn arena_new() -> (r: NodeArena)
    ensures
        arena_nodes(r) == no_nodes(),
{
    NodeArena { map: SlotMap::with_key() }
}

/// Relies on `SlotMap::len`: the number of values held.
#[verifier::external_body]
fn arena_len(m: &NodeArena) -> (r: usize)
    ensures
        r == arena_nodes(*m).dom().len(),
{
    m.map.len()
}

/// Relies on `SlotMap::insert`, which panics only when no free slot is left
/// and `u32::MAX` slots are in use, and returns a key that no value held
/// before has; its handle is `KeyData::as_ffi` of the key, which tells keys
/// apart.
#[verifier::external_body]
fn arena_insert(m: &mut NodeArena, n: Node) -> (r: u64)
    requires
        arena_nodes(*old(m)).dom().len() + 1 < u32::MAX,
    ensures
        !arena_nodes(*old(m)).dom().contains(r),
        arena_nodes(*final(m)) == arena_nodes(*old(m)).insert(r, n),
{
    m.map.insert(n).data().as_ffi()
}

/// Relies on `SlotMap`'s `Index`, with the key that `KeyData::from_ffi` gives
/// back for a handle: the value held under that key.
#[verifier::external_body]
fn arena_get(m: &NodeArena, k: u64) -> (r: &Node)
    requires
        arena_nodes(*m).dom().contains(k),
    ensures
        *r == arena_nodes(*m)[k],
{
    &m.map[DefaultKey::from(KeyData::from_ffi(k))]
}

/// Relies on `SlotMap`'s `IndexMut`, with the key that `KeyData::from_ffi`
/// gives back for a handle: the value held under that key, to change in place.
#[verifier::external_body]
fn arena_get_mut(m: &mut NodeArena, k: u64) -> (r: &mut Node)
    requires
        arena_nodes(*old(m)).dom().contains(k),
    ensures
        *r == arena_nodes(*old(m))[k],
        arena_nodes(*final(m)) == arena_nodes(*old(m)).insert(k, *final(r)),
{
    &mut m.map[DefaultKey::from(KeyData::from_ffi(k))]
}

/// Outcome of a position for the prover, player one.
#[derive(Clone, Copy, Debug, PartialEq, Eq, Structural)]
pub enum Status {
    Disproven,
    Proven,
    Unknown,
}

/// OR: the prover chooses the move; AND: the opponent does.
#[allow(non_camel_case_types)]
#[derive(Clone, Copy, Debug, PartialEq, Eq, Structural)]
pub enum NodeType {
    AND,
    OR,
}

/// One position of the search tree.
pub struct Node {
    /// The move that led here; `None` at the root.
    pub turn: Option<(i32, i32)>,
    pub proof: i32,
    pub disproof: i32,
    pub expanded: bool,
    pub state: Status,
    pub node_type: NodeType,
    pub parent: Option<u64>,
    pub children: Vec<u64>,
    /// The board at this node.
    pub position: Ghost<BoardView>,
}

/// Bound on the number of nodes of one search: a slot map holds fewer
/// than `u32::MAX` values.
pub const NODE_LIMIT: u64 = 4294967294;

/// The number that stands for an unbounded proof or disproof number.
pub const INFINITY: i32 = 2147483647;

/// `a + b`, capped at `INFINITY`.
pub open spec fn sat_add(a: int, b: int) -> int {
    if a + b > INFINITY {
        INFINITY as int
    } else {
        a + b
    }
}

pub open spec fn min2(a: int, b: int) -> int {
    if a < b {
        a
    } else {
        b
    }
}

/// Capped sum of the proof numbers of the first `n` nodes of `cs`.
pub open spec fn sum_proof(nodes: Map<u64, Node>, cs: Seq<u64>, n: int) -> int
    decreases n,
{
    if n <= 0 {
        0
    } else {
        sat_add(sum_proof(nodes, cs, n - 1), nodes[cs[n - 1]].proof as int)
    }
}

/// Capped sum of the disproof numbers of the first `n` nodes of `cs`.
pub open spec fn sum_disproof(nodes: Map<u64, Node>, cs: Seq<u64>, n: int) -> int
    decreases n,
{
    if n <= 0 {
        0
    } else {
        sat_add(sum_disproof(nodes, cs, n - 1), nodes[cs[n - 1]].disproof as int)
    }
}

/// Least proof number among the first `n` nodes of `cs`; `INFINITY` for none.
pub open spec fn min_proof(nodes: Map<u64, Node>, cs: Seq<u64>, n: int) -> int
    decreases n,
{
    if n <= 0 {
        INFINITY as int
    } else {
        min2(min_proof(nodes, cs, n - 1), nodes[cs[n - 1]].proof as int)
    }
}

/// Least disproof number among the first `n` nodes of `cs`; `INFINITY` for none.
pub open spec fn min_disproof(nodes: Map<u64, Node>, cs: Seq<u64>, n: int) -> int
    decreases n,
{
    if n <= 0 {
        INFINITY as int
    } else {
        min2(min_disproof(nodes, cs, n - 1), nodes[cs[n - 1]].disproof as int)
    }
}

/// The proof and disproof numbers that node `k` takes from its children
/// once expanded, and from its status before.
pub open spec fn numbers(nodes: Map<u64, Node>, k: u64) -> (int, int) {
    let n = nodes[k];
    let cs = n.children@;
    if n.expanded {
        match n.node_type {
            NodeType::AND => (sum_proof(nodes, cs, cs.len() as int), min_disproof(nodes, cs, cs.len() as int)),
            NodeType::OR => (min_proof(nodes, cs, cs.len() as int), sum_disproof(nodes, cs, cs.len() as int)),
        }
    } else {
        match n.state {
            Status::Disproven => (INFINITY as int, 0),
            Status::Proven => (0, INFINITY as int),
            Status::Unknown => (1, 1),
        }
    }
}

/// The status that a position's terminal evaluation gives.
pub open spec fn status_of(b: BoardView, draw_is_loss: bool) -> Status {
    if !b.over {
        Status::Unknown
    } else {
        match b.winner {
            Tile::One => Status::Proven,
            Tile::Two => Status::Disproven,
            Tile::Empty => if draw_is_loss {
                Status::Disproven
            } else {
                Status::Proven
            },
        }
    }
}

/// `c` is the position reached from `p` by the move `m`, an empty cell of
/// the open position `p`.
pub open spec fn child_position(p: BoardView, m: (i32, i32), c: BoardView) -> bool {
    &&& on_board(p.size, m.0 as int, m.1 as int)
    &&& p.cell(m.0 as int, m.1 as int) == Tile::Empty
    &&& !p.over
    &&& c == p.placed(m.0 as int, m.1 as int)
}

/// What a node says of itself alone.
pub open spec fn node_local_ok(n: Node) -> bool {
    &&& n.position@.wf()
    &&& 0 <= n.proof
    &&& 0 <= n.disproof
    &&& (n.state != Status::Unknown ==> n.position@.over)
    &&& (n.expanded ==> !n.position@.over && n.children@.len() > 0)
    &&& (n.node_type == NodeType::OR <==> n.position@.player_one)
}

/// Among the nodes `cs`, one stands at `c`.
pub open spec fn has_child_at(nodes: Map<u64, Node>, cs: Seq<u64>, c: BoardView) -> bool {
    exists|j: int| 0 <= j < cs.len() && (#[trigger] nodes[cs[j]]).position@ == c
}

/// Every move from `p` leads to the position of one of the nodes `cs`.
pub open spec fn moves_covered(nodes: Map<u64, Node>, cs: Seq<u64>, p: BoardView) -> bool {
    forall|i: int|
        0 <= i < p.cells.len() && p.cells[i] == Tile::Empty ==> #[trigger] has_child_at(
            nodes,
            cs,
            p.placed(cell_x(p, i), cell_y(p, i)),
        )
}

/// Player one wins `b` with best play on both sides; a draw counts as a
/// win for player one unless `draw_is_loss`.
pub open spec fn prover_wins(b: BoardView, draw_is_loss: bool) -> bool {
    minimax_value(b, b.player_one) >= if draw_is_loss {
        1int
    } else {
        0int
    }
}

/// What a node's status and numbers claim of its position is true: a
/// status other than Unknown is the position's evaluation, proof number 0
/// means player one wins, disproof number 0 means it does not.
pub open spec fn node_sound(n: Node, draw_is_loss: bool) -> bool {
    &&& (n.state != Status::Unknown ==> n.state == status_of(n.position@, draw_is_loss))
    &&& (n.proof == 0 ==> prover_wins(n.position@, draw_is_loss) && n.disproof == INFINITY)
    &&& (n.disproof == 0 ==> !prover_wins(n.position@, draw_is_loss) && n.proof == INFINITY)
}

/// Numbers of children that pair 0 with `INFINITY` give their parent numbers
/// that do so too.
pub proof fn lemma_numbers_pair(nodes: Map<u64, Node>, cs: Seq<u64>, n: int)
    requires
        0 <= n <= cs.len(),
        forall|j: int|
            0 <= j < n ==> 0 <= #[trigger] nodes[cs[j]].proof && 0 <= nodes[cs[j]].disproof
                && (nodes[cs[j]].proof == 0 ==> nodes[cs[j]].disproof == INFINITY)
                && (nodes[cs[j]].disproof == 0 ==> nodes[cs[j]].proof == INFINITY),
    ensures
        min_proof(nodes, cs, n) == 0 ==> sum_disproof(nodes, cs, n) == INFINITY,
        sum_disproof(nodes, cs, n) == 0 ==> min_proof(nodes, cs, n) == INFINITY,
        min_disproof(nodes, cs, n) == 0 ==> sum_proof(nodes, cs, n) == INFINITY,
        sum_proof(nodes, cs, n) == 0 ==> min_disproof(nodes, cs, n) == INFINITY,
    decreases n,
{
    if n > 0 {
        lemma_numbers_pair(nodes, cs, n - 1);
        lemma_number_bounds(nodes, cs, n - 1);
        let c = nodes[cs[n - 1]];
        assert(0 <= c.proof && 0 <= c.disproof && (c.proof == 0 ==> c.disproof == INFINITY) && (c.disproof == 0
            ==> c.proof == INFINITY));
    }
}

pub open spec fn all_sound(nodes: Map<u64, Node>, draw_is_loss: bool) -> bool {
    forall|k: u64| nodes.dom().contains(k) ==> #[trigger] node_sound(nodes[k], draw_is_loss)
}

/// Node `k` agrees with its parent and its children.
pub open spec fn node_ok(nodes: Map<u64, Node>, root: u64, k: u64) -> bool {
    let n = nodes[k];
    &&& node_local_ok(n)
    &&& (k == root <==> n.parent is None)
    &&& (n.parent is Some ==> {
        let p = n.parent->Some_0;
        &&& nodes.dom().contains(p)
        &&& n.turn is Some
        &&& child_position(nodes[p].position@, n.turn->Some_0, n.position@)
    })
    &&& forall|j: int|
        0 <= j < n.children@.len() ==> nodes.dom().contains(#[trigger] n.children@[j])
            && nodes[n.children@[j]].parent == Some(k)
    &&& (n.expanded ==> moves_covered(nodes, n.children@, n.position@))
}

/// Node `k` is an unexpanded leaf whose numbers follow from its status.
pub open spec fn leaf_settled(nodes: Map<u64, Node>, k: u64) -> bool {
    &&& !nodes[k].expanded
    &&& nodes[k].children@.len() == 0
    &&& nodes[k].proof == numbers(nodes, k).0
    &&& nodes[k].disproof == numbers(nodes, k).1
}

/// Child `c` settles a node of type `t`: proof number 0 under OR,
/// disproof number 0 under AND.
pub open spec fn settles(t: NodeType, c: Node) -> bool {
    match t {
        NodeType::OR => c.proof == 0,
        NodeType::AND => c.disproof == 0,
    }
}

/// Index of the first of the first `n` nodes of `cs` that settles a node of
/// type `t`; `n` for none.
pub open spec fn first_settling(nodes: Map<u64, Node>, t: NodeType, cs: Seq<u64>, n: int) -> int
    decreases n,
{
    if n <= 0 {
        0
    } else {
        let f = first_settling(nodes, t, cs, n - 1);
        if f < n - 1 {
            f
        } else if settles(t, nodes[cs[n - 1]]) {
            n - 1
        } else {
            n
        }
    }
}

pub proof fn lemma_first_settling_stays(nodes: Map<u64, Node>, t: NodeType, cs: Seq<u64>, f: int, n: int)
    requires
        0 <= f < n,
        first_settling(nodes, t, cs, f + 1) == f,
    ensures
        first_settling(nodes, t, cs, n) == f,
    decreases n,
{
    if n > f + 1 {
        lemma_first_settling_stays(nodes, t, cs, f, n - 1);
    }
}

/// The number by which a node of type `t` picks among its children: the
/// proof number under OR, the disproof number under AND.
pub open spec fn pick_value(nodes: Map<u64, Node>, t: NodeType, c: u64) -> int {
    match t {
        NodeType::OR => nodes[c].proof as int,
        NodeType::AND => nodes[c].disproof as int,
    }
}

/// Index of the first child, among the first `n` of `cs`, with the least
/// pick value.
pub open spec fn first_min(nodes: Map<u64, Node>, t: NodeType, cs: Seq<u64>, n: int) -> int
    decreases n,
{
    if n <= 1 {
        0
    } else {
        let i = first_min(nodes, t, cs, n - 1);
        if pick_value(nodes, t, cs[n - 1]) < pick_value(nodes, t, cs[i]) {
            n - 1
        } else {
            i
        }
    }
}

/// The child that the most-proving descent takes from node `k`.
pub open spec fn best_child(nodes: Map<u64, Node>, k: u64) -> u64 {
    let cs = nodes[k].children@;
    cs[first_min(nodes, nodes[k].node_type, cs, cs.len() as int)]
}

/// The most-proving node below `k`: from `k`, the best child while the node
/// is expanded, for at most `fuel` steps.
pub open spec fn most_proving(nodes: Map<u64, Node>, k: u64, fuel: nat) -> u64
    decreases fuel,
{
    if fuel == 0 || !nodes[k].expanded {
        k
    } else {
        most_proving(nodes, best_child(nodes, k), (fuel - 1) as nat)
    }
}

/// The numbers of node `k` are those its children or its status give.
pub open spec fn fresh(nodes: Map<u64, Node>, k: u64) -> bool {
    nodes[k].proof == numbers(nodes, k).0 && nodes[k].disproof == numbers(nodes, k).1
}

/// Node `a` is `k` or one of its ancestors at most `n` steps up.
pub open spec fn up_from(nodes: Map<u64, Node>, k: u64, a: u64, n: nat) -> bool
    decreases n,
{
    k == a || (n > 0 && nodes[k].parent is Some && up_from(nodes, nodes[k].parent->Some_0, a, (n - 1) as nat))
}

proof fn lemma_up_from_parent(nodes: Map<u64, Node>, k: u64, c: u64, m: nat, p: u64)
    requires
        up_from(nodes, k, c, m),
        nodes[c].parent == Some(p),
    ensures
        up_from(nodes, k, p, m + 1),
    decreases m,
{
    if k != c {
        let q = nodes[k].parent->Some_0;
        lemma_up_from_parent(nodes, q, c, (m - 1) as nat, p);
        assert(((m + 1) - 1) as nat == m);
        assert(up_from(nodes, q, p, m));
    } else {
        assert(up_from(nodes, p, p, m));
        assert(((m + 1) - 1) as nat == m);
    }
}

proof fn lemma_up_from_more(nodes: Map<u64, Node>, k: u64, a: u64, m: nat, n: nat)
    requires
        up_from(nodes, k, a, m),
        m <= n,
    ensures
        up_from(nodes, k, a, n),
    decreases m,
{
    if k != a {
        lemma_up_from_more(nodes, nodes[k].parent->Some_0, a, (m - 1) as nat, (n - 1) as nat);
    }
}

/// The nodes that have been expanded.
pub open spec fn expanded_keys(nodes: Map<u64, Node>) -> Set<u64> {
    nodes.dom().filter(|k: u64| nodes[k].expanded)
}

/// Every node agrees with its parent and its children.
pub open spec fn links_ok(nodes: Map<u64, Node>, root: u64) -> bool {
    forall|k: u64| nodes.dom().contains(k) ==> #[trigger] node_ok(nodes, root, k)
}

/// Node `k` replaced by `n`, which keeps its move, parent and position and
/// has children that name it as their parent.
pub proof fn lemma_replace(nodes: Map<u64, Node>, root: u64, k: u64, n: Node)
    requires
        links_ok(nodes, root),
        nodes.dom().contains(k),
        n.turn == nodes[k].turn,
        n.parent == nodes[k].parent,
        n.position == nodes[k].position,
        node_local_ok(n),
        forall|j: int|
            0 <= j < n.children@.len() ==> nodes.dom().contains(#[trigger] n.children@[j])
                && nodes[n.children@[j]].parent == Some(k),
        n.expanded ==> moves_covered(nodes, n.children@, n.position@),
    ensures
        links_ok(nodes.insert(k, n), root),
{
    let m = nodes.insert(k, n);
    assert forall|k2: u64| m.dom().contains(k2) implies #[trigger] node_ok(m, root, k2) by {
        assert(node_ok(nodes, root, k2));
        let n2 = m[k2];
        assert forall|j: int| 0 <= j < n2.children@.len() implies m.dom().contains(#[trigger] n2.children@[j])
            && m[n2.children@[j]].parent == Some(k2) by {
            assert(nodes.dom().contains(nodes[k2].children@[j]) || k2 == k);
        }
        if n2.expanded {
            lemma_covered_frame(nodes, m, n2.children@, n2.position@);
        }
    }
}

proof fn lemma_sound_insert(nodes: Map<u64, Node>, draw_is_loss: bool, k: u64, n: Node)
    requires
        all_sound(nodes, draw_is_loss),
        node_sound(n, draw_is_loss),
    ensures
        all_sound(nodes.insert(k, n), draw_is_loss),
{
    assert forall|k2: u64| nodes.insert(k, n).dom().contains(k2) implies #[trigger] node_sound(
        nodes.insert(k, n)[k2],
        draw_is_loss,
    ) by {
        if k2 != k {
            assert(node_sound(nodes[k2], draw_is_loss));
        }
    }
}

/// The position of a child node is the move's cell placed on its parent's.
proof fn lemma_child_cell(b: BoardView, m: (i32, i32), c: BoardView)
    requires
        b.dims_ok(),
        child_position(b, m, c),
    ensures
        ({
            let i = cell_index(b.size, m.0 as int, m.1 as int);
            &&& 0 <= i < b.cells.len()
            &&& b.cells[i] == Tile::Empty
            &&& cell_x(b, i) == m.0
            &&& cell_y(b, i) == m.1
            &&& c == b.placed(cell_x(b, i), cell_y(b, i))
        }),
{
    let i = cell_index(b.size, m.0 as int, m.1 as int);
    crate::game::lemma_cell_index(b.size, m.0 as int, m.1 as int);
    assert(i == (m.1 as int) * b.size + m.0 as int);
    vstd::arithmetic::div_mod::lemma_fundamental_div_mod_converse_mod(i, b.size, m.1 as int, m.0 as int);
    vstd::arithmetic::div_mod::lemma_fundamental_div_mod_converse_div(i, b.size, m.1 as int, m.0 as int);
}

proof fn lemma_min_zero(nodes: Map<u64, Node>, cs: Seq<u64>, n: int)
    requires
        0 <= n <= cs.len(),
        forall|j: int| 0 <= j < n ==> 0 <= #[trigger] nodes[cs[j]].proof && 0 <= nodes[cs[j]].disproof,
    ensures
        min_proof(nodes, cs, n) == 0 ==> exists|j: int| 0 <= j < n && (#[trigger] nodes[cs[j]]).proof == 0,
        min_disproof(nodes, cs, n) == 0 ==> exists|j: int| 0 <= j < n && (#[trigger] nodes[cs[j]]).disproof == 0,
        sum_proof(nodes, cs, n) == 0 ==> forall|j: int| 0 <= j < n ==> (#[trigger] nodes[cs[j]]).proof == 0,
        sum_disproof(nodes, cs, n) == 0 ==> forall|j: int| 0 <= j < n ==> (#[trigger] nodes[cs[j]]).disproof == 0,
    decreases n,
{
    if n > 0 {
        lemma_min_zero(nodes, cs, n - 1);
        lemma_number_bounds(nodes, cs, n - 1);
        assert(0 <= nodes[cs[n - 1]].proof && 0 <= nodes[cs[n - 1]].disproof);
        if min_proof(nodes, cs, n) == 0 && min_proof(nodes, cs, n - 1) != 0 {
            assert(nodes[cs[n - 1]].proof == 0);
        }
        if min_disproof(nodes, cs, n) == 0 && min_disproof(nodes, cs, n - 1) != 0 {
            assert(nodes[cs[n - 1]].disproof == 0);
        }
    }
}

/// The value that player one must reach for a win.
pub open spec fn win_threshold(draw_is_loss: bool) -> int {
    if draw_is_loss {
        1
    } else {
        0
    }
}

/// Player one wins after a move exactly when that move's value reaches the
/// threshold.
proof fn lemma_placed_wins(b: BoardView, i: int, draw_is_loss: bool)
    ensures
        prover_wins(b.placed(cell_x(b, i), cell_y(b, i)), draw_is_loss) <==> child_value(b, b.player_one, i)
            >= win_threshold(draw_is_loss),
{
}

/// Child `j` of node `k` stands at the position after a move on an empty
/// cell of `k`'s position.
proof fn lemma_child_move(nodes: Map<u64, Node>, root: u64, k: u64, j: int) -> (i: int)
    requires
        links_ok(nodes, root),
        nodes.dom().contains(k),
        0 <= j < nodes[k].children@.len(),
    ensures
        0 <= i < nodes[k].position@.cells.len(),
        nodes[k].position@.cells[i] == Tile::Empty,
        nodes[nodes[k].children@[j]].position@ == nodes[k].position@.placed(
            cell_x(nodes[k].position@, i),
            cell_y(nodes[k].position@, i),
        ),
        nodes.dom().contains(nodes[k].children@[j]),
{
    let b = nodes[k].position@;
    assert(node_ok(nodes, root, k));
    let c = nodes[k].children@[j];
    assert(nodes.dom().contains(c));
    assert(node_ok(nodes, root, c));
    let m = nodes[c].turn->Some_0;
    lemma_child_cell(b, m, nodes[c].position@);
    cell_index(b.size, m.0 as int, m.1 as int)
}

/// An open position is won for player one exactly when the side to move's
/// best value over its moves reaches the threshold.
proof fn lemma_open_wins(b: BoardView, draw_is_loss: bool)
    requires
        b.wf(),
        !b.over,
    ensures
        b.player_one ==> (prover_wins(b, draw_is_loss) <==> exists|i: int|
            0 <= i < b.cells.len() && b.cells[i] == Tile::Empty && #[trigger] child_value(b, true, i)
                >= win_threshold(draw_is_loss)),
        !b.player_one ==> (prover_wins(b, draw_is_loss) <==> forall|i: int|
            0 <= i < b.cells.len() && b.cells[i] == Tile::Empty ==> #[trigger] child_value(b, false, i)
                >= win_threshold(draw_is_loss)),
{
    crate::game::lemma_count_at_most_len(b.cells);
    assert(minimax_value(b, b.player_one) == crate::tree::best_upto(b, b.player_one, b.cells.len() as int));
    lemma_best_threshold(b, b.player_one, b.cells.len() as int, win_threshold(draw_is_loss));
}

/// The numbers of an expanded node claim only what is true of its position.
proof fn lemma_expanded_sound(nodes: Map<u64, Node>, root: u64, draw_is_loss: bool, k: u64)
    requires
        links_ok(nodes, root),
        all_sound(nodes, draw_is_loss),
        nodes.dom().contains(k),
        nodes[k].expanded,
        forall|j: int| 0 <= j < nodes[k].children@.len() ==> 0 <= #[trigger] nodes[nodes[k].children@[j]].proof
            && 0 <= nodes[nodes[k].children@[j]].disproof,
    ensures
        numbers(nodes, k).0 == 0 ==> prover_wins(nodes[k].position@, draw_is_loss),
        numbers(nodes, k).1 == 0 ==> !prover_wins(nodes[k].position@, draw_is_loss),
{
    let n = nodes[k];
    let b = n.position@;
    let cs = n.children@;
    let len = cs.len() as int;
    let t = win_threshold(draw_is_loss);
    assert(node_ok(nodes, root, k));
    lemma_open_wins(b, draw_is_loss);
    lemma_min_zero(nodes, cs, len);
    let (p, d) = numbers(nodes, k);
    if p == 0 {
        if b.player_one {
            let j = choose|j: int| 0 <= j < len && (#[trigger] nodes[cs[j]]).proof == 0;
            let i = lemma_child_move(nodes, root, k, j);
            assert(node_sound(nodes[cs[j]], draw_is_loss));
            lemma_placed_wins(b, i, draw_is_loss);
            assert(child_value(b, true, i) >= t);
        } else {
            assert forall|i: int| 0 <= i < b.cells.len() && b.cells[i] == Tile::Empty implies #[trigger] child_value(
                b,
                false,
                i,
            ) >= t by {
                assert(has_child_at(nodes, cs, b.placed(cell_x(b, i), cell_y(b, i))));
                let j = choose|j: int|
                    0 <= j < len && (#[trigger] nodes[cs[j]]).position@ == b.placed(cell_x(b, i), cell_y(b, i));
                assert(nodes.dom().contains(cs[j]));
                assert(node_sound(nodes[cs[j]], draw_is_loss));
                lemma_placed_wins(b, i, draw_is_loss);
            }
        }
    }
    if d == 0 {
        if b.player_one {
            if prover_wins(b, draw_is_loss) {
                let i = choose|i: int|
                    0 <= i < b.cells.len() && b.cells[i] == Tile::Empty && #[trigger] child_value(b, true, i) >= t;
                assert(has_child_at(nodes, cs, b.placed(cell_x(b, i), cell_y(b, i))));
                let j = choose|j: int|
                    0 <= j < len && (#[trigger] nodes[cs[j]]).position@ == b.placed(cell_x(b, i), cell_y(b, i));
                assert(nodes.dom().contains(cs[j]));
                assert(node_sound(nodes[cs[j]], draw_is_loss));
                lemma_placed_wins(b, i, draw_is_loss);
                assert(nodes[cs[j]].disproof == 0);
            }
        } else {
            let j = choose|j: int| 0 <= j < len && (#[trigger] nodes[cs[j]]).disproof == 0;
            let i = lemma_child_move(nodes, root, k, j);
            assert(node_sound(nodes[cs[j]], draw_is_loss));
            lemma_placed_wins(b, i, draw_is_loss);
            assert(child_value(b, false, i) < t);
        }
    }
}

/// The numbers that node `k` takes from its children or its status claim
/// only what is true of its position.
proof fn lemma_numbers_sound(nodes: Map<u64, Node>, root: u64, draw_is_loss: bool, k: u64)
    requires
        links_ok(nodes, root),
        all_sound(nodes, draw_is_loss),
        nodes.dom().contains(k),
    ensures
        node_sound(
            Node {
                proof: numbers(nodes, k).0 as i32,
                disproof: numbers(nodes, k).1 as i32,
                ..nodes[k]
            },
            draw_is_loss,
        ),
{
    let n = nodes[k];
    let cs = n.children@;
    assert(node_ok(nodes, root, k));
    assert(node_sound(n, draw_is_loss));
    assert forall|j: int| 0 <= j < cs.len() implies 0 <= #[trigger] nodes[cs[j]].proof && 0 <= nodes[cs[j]].disproof by {
        assert(nodes.dom().contains(cs[j]));
        assert(node_ok(nodes, root, cs[j]));
    }
    lemma_number_bounds(nodes, cs, cs.len() as int);
    if n.expanded {
        lemma_expanded_sound(nodes, root, draw_is_loss, k);
        assert forall|j: int| 0 <= j < cs.len() implies 0 <= #[trigger] nodes[cs[j]].proof && 0 <= nodes[cs[j]].disproof
            && (nodes[cs[j]].proof == 0 ==> nodes[cs[j]].disproof == INFINITY) && (nodes[cs[j]].disproof == 0
            ==> nodes[cs[j]].proof == INFINITY) by {
            assert(nodes.dom().contains(cs[j]));
            assert(node_ok(nodes, root, cs[j]));
            assert(node_sound(nodes[cs[j]], draw_is_loss));
        }
        lemma_numbers_pair(nodes, cs, cs.len() as int);
    }
}

/// The first settling child among the first `n` depends only on them.
pub proof fn lemma_first_settling_frame(m1: Map<u64, Node>, m2: Map<u64, Node>, t: NodeType, cs: Seq<u64>, n: int)
    requires
        0 <= n <= cs.len(),
        forall|i: int| 0 <= i < n ==> #[trigger] m2[cs[i]] == m1[cs[i]],
    ensures
        first_settling(m2, t, cs, n) == first_settling(m1, t, cs, n),
    decreases n,
{
    if n > 0 {
        lemma_first_settling_frame(m1, m2, t, cs, n - 1);
    }
}

/// Moves stay covered by nodes whose positions stay.
proof fn lemma_covered_frame(nodes: Map<u64, Node>, m: Map<u64, Node>, cs: Seq<u64>, p: BoardView)
    requires
        moves_covered(nodes, cs, p),
        forall|j: int| 0 <= j < cs.len() ==> nodes.dom().contains(#[trigger] cs[j]),
        forall|x: u64| #[trigger] nodes.dom().contains(x) ==> m[x].position == nodes[x].position,
    ensures
        moves_covered(m, cs, p),
{
    assert forall|i: int|
        0 <= i < p.cells.len() && p.cells[i] == Tile::Empty implies #[trigger] has_child_at(
        m,
        cs,
        p.placed(cell_x(p, i), cell_y(p, i)),
    ) by {
        let c = p.placed(cell_x(p, i), cell_y(p, i));
        assert(has_child_at(nodes, cs, c));
        let j = choose|j: int| 0 <= j < cs.len() && (#[trigger] nodes[cs[j]]).position@ == c;
        assert(nodes.dom().contains(cs[j]));
        assert(m[cs[j]].position@ == c);
    }
}

/// A new leaf `c` under `k`.
pub proof fn lemma_add_leaf(nodes: Map<u64, Node>, root: u64, k: u64, c: u64, n: Node)
    requires
        links_ok(nodes, root),
        nodes.dom().contains(k),
        nodes.dom().contains(root),
        !nodes.dom().contains(c),
        n.parent == Some(k),
        n.turn is Some,
        child_position(nodes[k].position@, n.turn->Some_0, n.position@),
        n.children@.len() == 0,
        node_local_ok(n),
    ensures
        links_ok(nodes.insert(c, n), root),
{
    let m = nodes.insert(c, n);
    assert forall|k2: u64| m.dom().contains(k2) implies #[trigger] node_ok(m, root, k2) by {
        if k2 != c {
            assert(node_ok(nodes, root, k2));
            let n2 = m[k2];
            assert forall|j: int| 0 <= j < n2.children@.len() implies m.dom().contains(#[trigger] n2.children@[j])
                && m[n2.children@[j]].parent == Some(k2) by {
                assert(nodes.dom().contains(nodes[k2].children@[j]));
            }
            if n2.expanded {
                lemma_covered_frame(nodes, m, n2.children@, n2.position@);
            }
        }
    }
}

/// `a + b`, capped at `INFINITY`, for numbers that are not negative.
fn saturating_sum(a: i32, b: i32) -> (r: i32)
    requires
        0 <= a,
        0 <= b,
    ensures
        r == sat_add(a as int, b as int),
{
    if a > INFINITY - b {
        INFINITY
    } else {
        a + b
    }
}

/// Changing a node outside `cs` leaves the sums and minima over `cs` alone.
proof fn lemma_numbers_frame(m: Map<u64, Node>, k: u64, n: Node, cs: Seq<u64>, len: int)
    requires
        0 <= len <= cs.len(),
        forall|j: int| 0 <= j < len ==> cs[j] != k,
    ensures
        sum_proof(m.insert(k, n), cs, len) == sum_proof(m, cs, len),
        sum_disproof(m.insert(k, n), cs, len) == sum_disproof(m, cs, len),
        min_proof(m.insert(k, n), cs, len) == min_proof(m, cs, len),
        min_disproof(m.insert(k, n), cs, len) == min_disproof(m, cs, len),
    decreases len,
{
    if len > 0 {
        lemma_numbers_frame(m, k, n, cs, len - 1);
    }
}

proof fn lemma_number_bounds(m: Map<u64, Node>, cs: Seq<u64>, len: int)
    requires
        0 <= len <= cs.len(),
        forall|j: int| 0 <= j < len ==> 0 <= #[trigger] m[cs[j]].proof && 0 <= m[cs[j]].disproof,
    ensures
        0 <= sum_proof(m, cs, len) <= INFINITY,
        0 <= sum_disproof(m, cs, len) <= INFINITY,
        0 <= min_proof(m, cs, len) <= INFINITY,
        0 <= min_disproof(m, cs, len) <= INFINITY,
    decreases len,
{
    if len > 0 {
        lemma_number_bounds(m, cs, len - 1);
        assert(0 <= m[cs[len - 1]].proof && 0 <= m[cs[len - 1]].disproof);
    }
}

/// The children of a node are other nodes.
proof fn lemma_children_differ(nodes: Map<u64, Node>, root: u64, k: u64)
    requires
        links_ok(nodes, root),
        nodes.dom().contains(k),
    ensures
        forall|j: int| 0 <= j < nodes[k].children@.len() ==> #[trigger] nodes[k].children@[j] != k,
{
    assert(node_ok(nodes, root, k));
    assert forall|j: int| 0 <= j < nodes[k].children@.len() implies #[trigger] nodes[k].children@[j] != k by {
        let c = nodes[k].children@[j];
        assert(node_ok(nodes, root, c));
    }
}

/// The legal cells are exactly the empty cells of `b`.
pub open spec fn legal_matches(legal: Seq<bool>, b: BoardView) -> bool {
    &&& legal.len() == b.cells.len()
    &&& forall|i: int| 0 <= i < b.cells.len() ==> (#[trigger] legal[i] <==> b.cells[i] == Tile::Empty)
}

/// Proof-number search over an arena of nodes: a tree of positions whose
/// root is the position to solve, the board at the node being worked on,
/// and the cells that are still free on it.
pub struct PNS {
    pub tree: NodeArena,
    pub root: u64,
    /// `legal[i]` tells whether the cell at position `i` of the row-major
    /// order is free.
    pub legal: Vec<bool>,
    pub board: Board,
    /// A draw counts as a loss for the prover.
    pub draw_is_loss: bool,
}

impl PNS {
    pub open spec fn nodes(&self) -> Map<u64, Node> {
        arena_nodes(self.tree)
    }

    pub open spec fn wf(&self) -> bool {
        &&& self.nodes().dom().finite()
        &&& self.nodes().dom().contains(self.root)
        &&& links_ok(self.nodes(), self.root)
        &&& all_sound(self.nodes(), self.draw_is_loss)
        &&& self.board@.wf()
        &&& legal_matches(self.legal@, self.board@)
    }

    /// The search cannot go on: the arena has no room for another
    /// expansion, or the most-proving node below the root is a finished
    /// position, which cannot be expanded.
    pub open spec fn stalled(&self) -> bool {
        let p = self.nodes()[self.root].position@;
        let k = most_proving(self.nodes(), self.root, (p.cells.len() - p.turn) as nat);
        ||| self.nodes().dom().len() + self.legal@.len() >= NODE_LIMIT
        ||| !self.nodes()[k].expanded && self.nodes()[k].position@.over
    }

    /// The board stands at the position of node `k`.
    pub open spec fn at(&self, k: u64) -> bool {
        &&& self.nodes().dom().contains(k)
        &&& self.board@ == self.nodes()[k].position@
    }

    /// The node stored under `k`.
    pub fn node(&self, key: u64) -> (r: &Node)
        requires
            self.nodes().dom().contains(key),
        ensures
            *r == self.nodes()[key],
    {
        arena_get(&self.tree, key)
    }

    /// Records the terminal status of node `k`, whose position is on the
    /// board: Proven for a win of player one, Disproven for a win of player
    /// two, a draw by `draw_is_loss`, Unknown while the game goes on.
    pub fn evaluate(&mut self, key: u64)
        requires
            old(self).wf(),
            old(self).at(key),
        ensures
            final(self).wf(),
            final(self).nodes() == old(self).nodes().insert(
                key,
                Node { state: status_of(old(self).board@, old(self).draw_is_loss), ..old(self).nodes()[key] },
            ),
            final(self).board@ == old(self).board@,
            final(self).legal@ == old(self).legal@,
            final(self).root == old(self).root,
            final(self).draw_is_loss == old(self).draw_is_loss,
    {
        let state = if !self.board.is_over() {
            Status::Unknown
        } else {
            match self.board.winner() {
                Tile::One => Status::Proven,
                Tile::Two => Status::Disproven,
                Tile::Empty => if self.draw_is_loss {
                    Status::Disproven
                } else {
                    Status::Proven
                },
            }
        };
        let ghost nodes0 = self.nodes();
        proof {
            assert(node_ok(nodes0, self.root, key));
            lemma_replace(nodes0, self.root, key, Node { state, ..nodes0[key] });
            assert(node_sound(nodes0[key], self.draw_is_loss));
            lemma_sound_insert(nodes0, self.draw_is_loss, key, Node { state, ..nodes0[key] });
        }
        let node = arena_get_mut(&mut self.tree, key);
        node.state = state;
    }

    /// Sets the numbers of node `k`: from its children once it is expanded,
    /// from its status before.
    pub fn set_numbers(&mut self, key: u64)
        requires
            old(self).wf(),
            old(self).nodes().dom().contains(key),
        ensures
            final(self).wf(),
            final(self).nodes() == old(self).nodes().insert(
                key,
                Node {
                    proof: numbers(old(self).nodes(), key).0 as i32,
                    disproof: numbers(old(self).nodes(), key).1 as i32,
                    ..old(self).nodes()[key]
                },
            ),
            final(self).board@ == old(self).board@,
            final(self).legal@ == old(self).legal@,
            final(self).root == old(self).root,
            final(self).draw_is_loss == old(self).draw_is_loss,
            ({
                let n = final(self).nodes()[key];
                let cs = n.children@;
                let len = cs.len() as int;
                let nodes = final(self).nodes();
                &&& n.state == Status::Proven ==> n.proof == 0 && n.disproof == INFINITY
                &&& n.state == Status::Disproven ==> n.proof == INFINITY && n.disproof == 0
                &&& !n.expanded && n.state == Status::Unknown ==> n.proof == 1 && n.disproof == 1
                &&& n.expanded && n.node_type == NodeType::AND ==> n.proof == sum_proof(nodes, cs, len)
                    && n.disproof == min_disproof(nodes, cs, len)
                &&& n.expanded && n.node_type == NodeType::OR ==> n.proof == min_proof(nodes, cs, len)
                    && n.disproof == sum_disproof(nodes, cs, len)
            }),
    {
        let ghost nodes0 = self.nodes();
        proof {
            assert(node_ok(nodes0, self.root, key));
            lemma_children_differ(nodes0, self.root, key);
        }
        let node = arena_get(&self.tree, key);
        let expanded = node.expanded;
        let node_type = node.node_type;
        let state = node.state;
        let len = node.children.len();
        let ghost cs = node.children@;
        proof {
            assert forall|j: int| 0 <= j < cs.len() implies 0 <= #[trigger] nodes0[cs[j]].proof && 0 <= nodes0[cs[j]].disproof by {
                assert(nodes0.dom().contains(cs[j]));
                assert(node_ok(nodes0, self.root, cs[j]));
            }
        }
        let (proof_number, disproof_number) = if expanded {
            let mut sum_p: i32 = 0;
            let mut sum_d: i32 = 0;
            let mut min_p: i32 = INFINITY;
            let mut min_d: i32 = INFINITY;
            let mut j: usize = 0;
            while j < len
                invariant
                    self.nodes() == nodes0,
                    self.wf(),
                    nodes0.dom().contains(key),
                    cs == nodes0[key].children@,
                    len == cs.len(),
                    j <= len,
                    sum_p == sum_proof(nodes0, cs, j as int),
                    sum_d == sum_disproof(nodes0, cs, j as int),
                    min_p == min_proof(nodes0, cs, j as int),
                    min_d == min_disproof(nodes0, cs, j as int),
                    forall|i: int| 0 <= i < cs.len() ==> 0 <= #[trigger] nodes0[cs[i]].proof && 0 <= nodes0[cs[i]].disproof,
                decreases len - j,
            {
                let c = arena_get(&self.tree, key).children[j];
                proof {
                    assert(node_ok(nodes0, self.root, key));
                    assert(nodes0.dom().contains(cs[j as int]));
                    assert(node_ok(nodes0, self.root, c));
                    lemma_number_bounds(nodes0, cs, j as int);
                }
                let child = arena_get(&self.tree, c);
                sum_p = saturating_sum(sum_p, child.proof);
                sum_d = saturating_sum(sum_d, child.disproof);
                if child.proof < min_p {
                    min_p = child.proof;
                }
                if child.disproof < min_d {
                    min_d = child.disproof;
                }
                j += 1;
            }
            match node_type {
                NodeType::AND => (sum_p, min_d),
                NodeType::OR => (min_p, sum_d),
            }
        } else {
            match state {
                Status::Disproven => (INFINITY, 0),
                Status::Proven => (0, INFINITY),
                Status::Unknown => (1, 1),
            }
        };
        proof {
            lemma_number_bounds(nodes0, cs, cs.len() as int);
            let n2 = Node { proof: proof_number, disproof: disproof_number, ..nodes0[key] };
            lemma_replace(nodes0, self.root, key, n2);
            lemma_numbers_frame(nodes0, key, n2, cs, cs.len() as int);
            lemma_numbers_sound(nodes0, self.root, self.draw_is_loss, key);
            lemma_sound_insert(nodes0, self.draw_is_loss, key, n2);
        }
        let node = arena_get_mut(&mut self.tree, key);
        node.proof = proof_number;
        node.disproof = disproof_number;
    }

    /// One new leaf under node `k` for each free cell, in row-major order,
    /// with the other node type, unit numbers and Unknown status; they become
    /// the children of `k`.
    pub fn generate_children(&mut self, key: u64)
        requires
            old(self).wf(),
            old(self).at(key),
            !old(self).board@.over,
            !old(self).nodes()[key].expanded,
            old(self).nodes().dom().len() + old(self).board@.cells.len() + 1 < u32::MAX,
        ensures
            final(self).wf(),
            final(self).at(key),
            final(self).board@ == old(self).board@,
            final(self).legal@ == old(self).legal@,
            final(self).root == old(self).root,
            final(self).draw_is_loss == old(self).draw_is_loss,
            final(self).nodes().dom().len() <= old(self).nodes().dom().len() + old(self).board@.cells.len(),
            old(self).nodes().dom().subset_of(final(self).nodes().dom()),
            forall|k: u64|
                old(self).nodes().dom().contains(k) && k != key ==> final(self).nodes()[k] == old(self).nodes()[k],
            ({
                let n0 = old(self).nodes()[key];
                let n = final(self).nodes()[key];
                &&& n.turn == n0.turn && n.proof == n0.proof && n.disproof == n0.disproof
                &&& n.expanded == n0.expanded && n.state == n0.state && n.node_type == n0.node_type
                &&& n.parent == n0.parent && n.position == n0.position
            }),
            ({
                let cs = final(self).nodes()[key].children@;
                let moves = free_moves(old(self).board@, old(self).board@.cells.len() as int);
                &&& cs.len() == moves.len()
                &&& cs.len() > 0
                &&& forall|a: int, c: int| 0 <= a < c < cs.len() ==> #[trigger] cs[a] != #[trigger] cs[c]
                &&& forall|j: int|
                    0 <= j < cs.len() ==> {
                        let c = final(self).nodes()[#[trigger] cs[j]];
                        &&& !old(self).nodes().dom().contains(cs[j])
                        &&& c.turn == Some(moves[j])
                        &&& c.parent == Some(key)
                        &&& c.proof == 1 && c.disproof == 1
                        &&& !c.expanded
                        &&& c.state == Status::Unknown
                        &&& c.node_type != old(self).nodes()[key].node_type
                        &&& c.children@.len() == 0
                    }
            }),
    {
        let ghost nodes0 = self.nodes();
        let ghost b = self.board@;
        proof {
            assert(node_ok(nodes0, self.root, key));
        }
        let node_type = match arena_get(&self.tree, key).node_type {
            NodeType::AND => NodeType::OR,
            NodeType::OR => NodeType::AND,
        };
        let n = self.legal.len();
        let mut child_keys: Vec<u64> = Vec::new();
        let mut i: usize = 0;
        while i < n
            invariant
                self.board@ == b,
                self.legal@ == old(self).legal@,
                self.root == old(self).root,
                self.draw_is_loss == old(self).draw_is_loss,
                b == nodes0[key].position@,
                b.wf(),
                !b.over,
                legal_matches(self.legal@, b),
                n == b.cells.len(),
                i <= n,
                nodes0 == old(self).nodes(),
                nodes0.dom().contains(key),
                nodes0.dom().contains(self.root),
                nodes0.dom().len() + n + 1 < u32::MAX,
                self.nodes().dom().finite(),
                all_sound(self.nodes(), self.draw_is_loss),
                node_type == NodeType::OR <==> !b.player_one,
                self.nodes().dom().len() == nodes0.dom().len() + child_keys@.len(),
                child_keys@.len() <= i,
                links_ok(self.nodes(), self.root),
                nodes0.dom().subset_of(self.nodes().dom()),
                forall|k: u64| #[trigger] nodes0.dom().contains(k) ==> self.nodes()[k] == nodes0[k],
                child_keys@.len() == free_moves(b, i as int).len(),
                forall|a: int, c: int|
                    0 <= a < c < child_keys@.len() ==> #[trigger] child_keys@[a] != #[trigger] child_keys@[c],
                forall|j: int|
                    0 <= j < child_keys@.len() ==> {
                        let c = self.nodes()[#[trigger] child_keys@[j]];
                        &&& self.nodes().dom().contains(child_keys@[j])
                        &&& !nodes0.dom().contains(child_keys@[j])
                        &&& c.turn == Some(free_moves(b, i as int)[j])
                        &&& c.parent == Some(key)
                        &&& c.proof == 1 && c.disproof == 1
                        &&& !c.expanded
                        &&& c.state == Status::Unknown
                        &&& c.node_type == node_type
                        &&& c.children@.len() == 0
                    },
            decreases n - i,
        {
            if self.legal[i] {
                let (x, y) = self.board.coords(i);
                proof {
                    lemma_place_undo_round_trip(b, x as int, y as int);
                }
                let child = Node {
                    turn: Some((x, y)),
                    proof: 1,
                    disproof: 1,
                    expanded: false,
                    state: Status::Unknown,
                    node_type,
                    parent: Some(key),
                    children: Vec::new(),
                    position: Ghost(b.placed(x as int, y as int)),
                };
                let ghost before = self.nodes();
                let ghost keys_before = child_keys@;
                let c = arena_insert(&mut self.tree, child);
                proof {
                    lemma_add_leaf(before, self.root, key, c, child);
                    lemma_sound_insert(before, self.draw_is_loss, c, child);
                }
                child_keys.push(c);
                assert forall|a: int, d: int|
                    0 <= a < d < child_keys@.len() implies #[trigger] child_keys@[a] != #[trigger] child_keys@[d] by {
                    if d == keys_before.len() {
                        assert(child_keys@[a] == keys_before[a]);
                        assert(before.dom().contains(keys_before[a]));
                    } else {
                        assert(child_keys@[a] == keys_before[a]);
                        assert(child_keys@[d] == keys_before[d]);
                    }
                }
                assert forall|j: int| 0 <= j < child_keys@.len() implies {
                    let cn = self.nodes()[#[trigger] child_keys@[j]];
                    &&& self.nodes().dom().contains(child_keys@[j])
                    &&& !nodes0.dom().contains(child_keys@[j])
                    &&& cn.turn == Some(free_moves(b, i as int + 1)[j])
                    &&& cn.parent == Some(key)
                    &&& cn.proof == 1 && cn.disproof == 1
                    &&& !cn.expanded
                    &&& cn.state == Status::Unknown
                    &&& cn.node_type == node_type
                    &&& cn.children@.len() == 0
                } by {
                    if j < keys_before.len() {
                        assert(child_keys@[j] == keys_before[j]);
                        assert(child_keys@[j] != c);
                    }
                }
            }
            i += 1;
        }
        proof {
            let nodes1 = self.nodes();
            crate::game::lemma_open_board_has_free_move(b);
            assert(node_ok(nodes1, self.root, key));
            assert forall|j: int| 0 <= j < child_keys@.len() implies nodes1.dom().contains(#[trigger] child_keys@[j])
                && nodes1[child_keys@[j]].parent == Some(key) by {}
        }
        let ghost nodes1 = self.nodes();
        let ghost new_node = Node { children: child_keys, ..nodes1[key] };
        proof {
            lemma_replace(nodes1, self.root, key, new_node);
            assert(node_sound(nodes1[key], self.draw_is_loss));
            lemma_sound_insert(nodes1, self.draw_is_loss, key, new_node);
        }
        let node = arena_get_mut(&mut self.tree, key);
        node.children = child_keys;
        proof {
            assert(self.nodes() == nodes1.insert(key, new_node));
        }
    }

    /// Expands node `k`, whose open position is on the board: generates its
    /// children, then evaluates them one by one, each on the board and back,
    /// with the numbers its status gives; stops at the first child that
    /// settles `k` (proof 0 under OR, disproof 0 under AND). Marks `k`
    /// expanded.
    pub fn expand(&mut self, key: u64)
        requires
            old(self).wf(),
            old(self).at(key),
            !old(self).board@.over,
            !old(self).nodes()[key].expanded,
            old(self).nodes().dom().len() + old(self).board@.cells.len() + 1 < u32::MAX,
        ensures
            final(self).wf(),
            final(self).at(key),
            final(self).board@ == old(self).board@,
            final(self).root == old(self).root,
            final(self).draw_is_loss == old(self).draw_is_loss,
            final(self).nodes().dom().len() <= old(self).nodes().dom().len() + old(self).board@.cells.len(),
            old(self).nodes().dom().subset_of(final(self).nodes().dom()),
            forall|k: u64|
                old(self).nodes().dom().contains(k) && k != key ==> final(self).nodes()[k] == old(self).nodes()[k],
            final(self).nodes()[key].expanded,
            final(self).nodes()[key].proof == old(self).nodes()[key].proof,
            final(self).nodes()[key].disproof == old(self).nodes()[key].disproof,
            final(self).nodes()[key].node_type == old(self).nodes()[key].node_type,
            final(self).nodes()[key].position == old(self).nodes()[key].position,
            forall|j: int|
                0 <= j < final(self).nodes()[key].children@.len() ==> leaf_settled(
                    final(self).nodes(),
                    #[trigger] final(self).nodes()[key].children@[j],
                ),
            ({
                let nodes = final(self).nodes();
                let cs = nodes[key].children@;
                let f = first_settling(nodes, nodes[key].node_type, cs, cs.len() as int);
                &&& cs.len() == free_moves(old(self).board@, old(self).board@.cells.len() as int).len()
                &&& forall|j: int|
                    0 <= j < cs.len() && j <= f ==> (#[trigger] nodes[cs[j]]).state == status_of(
                        nodes[cs[j]].position@,
                        final(self).draw_is_loss,
                    )
                &&& forall|j: int| 0 <= j < cs.len() && f < j ==> (#[trigger] nodes[cs[j]]).state == Status::Unknown
            }),
    {
        let ghost nodes0 = self.nodes();
        self.generate_children(key);
        let ghost nodes1 = self.nodes();
        let node_type = arena_get(&self.tree, key).node_type;
        let len = arena_get(&self.tree, key).children.len();
        let ghost cs = nodes1[key].children@;
        let mut j: usize = 0;
        while j < len
            invariant_except_break
                forall|i: int|
                    0 <= i < j ==> (#[trigger] self.nodes()[cs[i]]).state == status_of(
                        self.nodes()[cs[i]].position@,
                        self.draw_is_loss,
                    ) && !settles(node_type, self.nodes()[cs[i]]),
                forall|i: int| j <= i < len ==> (#[trigger] self.nodes()[cs[i]]).state == Status::Unknown,
                first_settling(self.nodes(), node_type, cs, j as int) == j,
            invariant
                self.wf(),
                self.at(key),
                self.board@ == old(self).board@,
                self.root == old(self).root,
                self.draw_is_loss == old(self).draw_is_loss,
                !self.board@.over,
                self.nodes().dom() == nodes1.dom(),
                links_ok(nodes1, self.root),
                nodes1.dom().contains(key),
                self.nodes()[key] == nodes1[key],
                cs == nodes1[key].children@,
                len == cs.len(),
                node_type == nodes1[key].node_type,
                j <= len,
                forall|k: u64| #[trigger] nodes1.dom().contains(k) && !cs.contains(k) ==> self.nodes()[k] == nodes1[k],
                forall|k: u64|
                    #[trigger] nodes1.dom().contains(k) ==> self.nodes()[k].position == nodes1[k].position
                        && self.nodes()[k].turn == nodes1[k].turn,
                forall|i: int| 0 <= i < len ==> leaf_settled(self.nodes(), #[trigger] cs[i]),
                forall|a: int, c: int| 0 <= a < c < len ==> #[trigger] cs[a] != #[trigger] cs[c],
            ensures
                j <= len,
                forall|i: int|
                    0 <= i < len && i <= first_settling(self.nodes(), node_type, cs, len as int) ==> (
                    #[trigger] self.nodes()[cs[i]]).state == status_of(
                        self.nodes()[cs[i]].position@,
                        self.draw_is_loss,
                    ),
                forall|i: int|
                    0 <= i < len && first_settling(self.nodes(), node_type, cs, len as int) < i ==> (
                    #[trigger] self.nodes()[cs[i]]).state == Status::Unknown,
            decreases len - j,
        {
            let c = arena_get(&self.tree, key).children[j];
            proof {
                assert(node_ok(self.nodes(), self.root, key));
                assert(self.nodes().dom().contains(c));
                assert(node_ok(self.nodes(), self.root, c));
            }
            let turn = arena_get(&self.tree, c).turn;
            let (x, y) = match turn {
                Some(m) => m,
                None => {
                    assert(false);
                    (0, 0)
                },
            };
            let ghost b0 = self.board@;
            let ghost l0 = self.legal@;
            proof {
                lemma_place_undo_round_trip(b0, x as int, y as int);
            }
            let idx = self.board.index_of(x, y);
            self.board.place_proof(x, y);
            self.legal.set(idx, false);
            assert(legal_matches(self.legal@, self.board@));
            let ghost before = self.nodes();
            self.evaluate(c);
            self.set_numbers(c);
            proof {
                lemma_children_differ(nodes1, self.root, key);
                assert forall|i: int| 0 <= i < len implies leaf_settled(self.nodes(), #[trigger] cs[i]) by {
                    assert(leaf_settled(before, cs[i]));
                }
                assert forall|i: int| 0 <= i < len && i != j implies #[trigger] self.nodes()[cs[i]] == before[cs[i]] by {
                    if i < j {
                        assert(cs[i] != cs[j as int]);
                    } else {
                        assert(cs[j as int] != cs[i]);
                    }
                }
                lemma_first_settling_frame(before, self.nodes(), node_type, cs, j as int);
            }
            self.board.undo(x, y);
            self.legal.set(idx, true);
            assert(self.legal@ =~= l0);
            let child = arena_get(&self.tree, c);
            if (node_type == NodeType::OR && child.proof == 0) || (node_type == NodeType::AND && child.disproof == 0) {
                proof {
                    assert(first_settling(self.nodes(), node_type, cs, j as int + 1) == j);
                    lemma_first_settling_stays(self.nodes(), node_type, cs, j as int, len as int);
                }
                break;
            }
            j += 1;
        }
        let ghost nodes2 = self.nodes();
        proof {
            assert(node_ok(nodes2, self.root, key));
            let b = nodes2[key].position@;
            let fm = free_moves(b, b.cells.len() as int);
            assert(b == old(self).board@);
            assert forall|i: int| 0 <= i < b.cells.len() && b.cells[i] == Tile::Empty implies #[trigger] has_child_at(
                nodes2,
                cs,
                b.placed(cell_x(b, i), cell_y(b, i)),
            ) by {
                crate::game::lemma_free_moves_cover(b, b.cells.len() as int, i);
                let j = choose|j: int| 0 <= j < fm.len() && #[trigger] fm[j] == ((i % b.size) as i32, (i / b.size) as i32);
                vstd::arithmetic::div_mod::lemma_mod_bound(i, b.size);
                crate::game::lemma_count_at_most_len(b.cells);
                assert(0 <= i / b.size < b.size) by {
                    vstd::arithmetic::div_mod::lemma_fundamental_div_mod(i, b.size);
                    assert(0 <= i / b.size < b.size) by (nonlinear_arith)
                        requires
                            i == b.size * (i / b.size) + (i % b.size),
                            0 <= i % b.size < b.size,
                            0 <= i < b.size * b.size,
                    ;
                }
                assert(nodes2.dom().contains(cs[j]));
                assert(node_ok(nodes2, self.root, cs[j]));
                assert(nodes2[cs[j]].position@ == b.placed(cell_x(b, i), cell_y(b, i)));
            }
            lemma_replace(nodes2, self.root, key, Node { expanded: true, ..nodes2[key] });
            assert(node_sound(nodes2[key], self.draw_is_loss));
            lemma_sound_insert(nodes2, self.draw_is_loss, key, Node { expanded: true, ..nodes2[key] });
        }
        let node = arena_get_mut(&mut self.tree, key);
        node.expanded = true;
        proof {
            lemma_children_differ(nodes2, self.root, key);
            assert forall|i: int| 0 <= i < len implies #[trigger] self.nodes()[cs[i]] == nodes2[cs[i]] by {
                assert(cs[i] != key);
            }
            lemma_first_settling_frame(nodes2, self.nodes(), node_type, cs, len as int);
            let nodes3 = self.nodes();
            assert forall|i: int| 0 <= i < nodes3[key].children@.len() implies leaf_settled(
                nodes3,
                #[trigger] nodes3[key].children@[i],
            ) by {
                lemma_children_differ(nodes2, self.root, key);
                assert(leaf_settled(nodes2, cs[i]));
            }
        }
    }

    /// Descends from node `k`, whose position is on the board, to the
    /// most-proving node: at each expanded node the child with the least
    /// proof number under OR, the least disproof number under AND, the
    /// first of equals; each move is played on the board on the way down.
    pub fn select_mpn(&mut self, key: u64) -> (r: u64)
        requires
            old(self).wf(),
            old(self).at(key),
        ensures
            final(self).wf(),
            final(self).at(r),
            final(self).nodes() == old(self).nodes(),
            final(self).root == old(self).root,
            final(self).draw_is_loss == old(self).draw_is_loss,
            !final(self).nodes()[r].expanded,
            final(self).legal@.len() == old(self).legal@.len(),
            r == most_proving(
                old(self).nodes(),
                key,
                (old(self).board@.cells.len() - old(self).board@.turn) as nat,
            ),
    {
        let ghost nodes = self.nodes();
        let ghost fuel0 = (self.board@.cells.len() - self.board@.turn) as nat;
        proof {
            crate::game::lemma_count_at_most_len(self.board@.cells);
        }
        let mut cur = key;
        while arena_get(&self.tree, cur).expanded
            invariant
                self.wf(),
                self.at(cur),
                self.nodes() == nodes,
                self.root == old(self).root,
                self.draw_is_loss == old(self).draw_is_loss,
                self.board@.turn <= self.board@.cells.len(),
                self.legal@.len() == old(self).legal@.len(),
                most_proving(nodes, key, fuel0) == most_proving(
                    nodes,
                    cur,
                    (self.board@.cells.len() - self.board@.turn) as nat,
                ),
            decreases self.board@.cells.len() - self.board@.turn,
        {
            proof {
                assert(node_ok(nodes, self.root, cur));
            }
            let node_type = arena_get(&self.tree, cur).node_type;
            let len = arena_get(&self.tree, cur).children.len();
            let ghost cs = nodes[cur].children@;
            let first = arena_get(&self.tree, cur).children[0];
            proof {
                assert(nodes.dom().contains(cs[0]));
            }
            let mut best: usize = 0;
            let mut value: i32 = match node_type {
                NodeType::OR => arena_get(&self.tree, first).proof,
                NodeType::AND => arena_get(&self.tree, first).disproof,
            };
            let mut j: usize = 1;
            while j < len
                invariant
                    self.nodes() == nodes,
                    nodes.dom().contains(cur),
                    node_ok(nodes, self.root, cur),
                    cs == nodes[cur].children@,
                    len == cs.len(),
                    node_type == nodes[cur].node_type,
                    1 <= j <= len,
                    best == first_min(nodes, node_type, cs, j as int),
                    best < j,
                    value == pick_value(nodes, node_type, cs[best as int]),
                decreases len - j,
            {
                let c = arena_get(&self.tree, cur).children[j];
                proof {
                    assert(nodes.dom().contains(cs[j as int]));
                }
                let v = match node_type {
                    NodeType::OR => arena_get(&self.tree, c).proof,
                    NodeType::AND => arena_get(&self.tree, c).disproof,
                };
                if v < value {
                    best = j;
                    value = v;
                }
                j += 1;
            }
            let next = arena_get(&self.tree, cur).children[best];
            proof {
                assert(nodes.dom().contains(cs[best as int]));
                assert(node_ok(nodes, self.root, next));
                assert(next == best_child(nodes, cur));
            }
            let (x, y) = match arena_get(&self.tree, next).turn {
                Some(m) => m,
                None => {
                    assert(false);
                    (0, 0)
                },
            };
            proof {
                lemma_place_undo_round_trip(self.board@, x as int, y as int);
            }
            let idx = self.board.index_of(x, y);
            self.board.place_proof(x, y);
            self.legal.set(idx, false);
            assert(legal_matches(self.legal@, self.board@));
            cur = next;
        }
        cur
    }

    /// Takes back the moves from node `k` up to the root.
    fn climb_to_root(&mut self, key: u64)
        requires
            old(self).wf(),
            old(self).at(key),
        ensures
            final(self).wf(),
            final(self).at(final(self).root),
            final(self).nodes() == old(self).nodes(),
            final(self).root == old(self).root,
            final(self).draw_is_loss == old(self).draw_is_loss,
            final(self).legal@.len() == old(self).legal@.len(),
    {
        let mut cur = key;
        while cur != self.root
            invariant
                self.wf(),
                self.at(cur),
                self.nodes() == old(self).nodes(),
                self.root == old(self).root,
                self.draw_is_loss == old(self).draw_is_loss,
                self.legal@.len() == old(self).legal@.len(),
            decreases self.board@.turn,
        {
            proof {
                assert(node_ok(self.nodes(), self.root, cur));
            }
            let node = arena_get(&self.tree, cur);
            let (parent, (x, y)) = match (node.parent, node.turn) {
                (Some(p), Some(m)) => (p, m),
                _ => {
                    assert(false);
                    (0, (0, 0))
                },
            };
            self.step_up(cur, parent, x, y);
            cur = parent;
        }
    }

    /// Takes back the move (x, y) that led from `parent` to node `k`.
    fn step_up(&mut self, key: u64, parent: u64, x: i32, y: i32)
        requires
            old(self).wf(),
            old(self).at(key),
            old(self).nodes()[key].parent == Some(parent),
            old(self).nodes()[key].turn == Some((x, y)),
        ensures
            final(self).wf(),
            final(self).at(parent),
            final(self).board@.turn < old(self).board@.turn,
            final(self).legal@.len() == old(self).legal@.len(),
            final(self).nodes() == old(self).nodes(),
            final(self).root == old(self).root,
            final(self).draw_is_loss == old(self).draw_is_loss,
    {
        let ghost nodes = self.nodes();
        proof {
            assert(node_ok(nodes, self.root, key));
            assert(node_ok(nodes, self.root, parent));
            let pp = nodes[parent].position@;
            lemma_place_undo_round_trip(pp, x as int, y as int);
        }
        let ghost l0 = self.legal@;
        let idx = self.board.index_of(x, y);
        self.board.undo(x, y);
        self.legal.set(idx, true);
        assert(legal_matches(self.legal@, self.board@));
    }

    /// Recomputes the numbers from node `k`, whose position is on the board,
    /// toward the root, taking each move back on the way up. Stops at the
    /// root, or at the first node whose proof number the recomputation left
    /// as it was, and returns that node.
    pub fn update_ancestors(&mut self, key: u64, root_key: u64) -> (r: u64)
        requires
            old(self).wf(),
            old(self).at(key),
            root_key == old(self).root,
        ensures
            final(self).wf(),
            final(self).at(r),
            final(self).root == old(self).root,
            final(self).draw_is_loss == old(self).draw_is_loss,
            final(self).nodes().dom() == old(self).nodes().dom(),
            forall|k: u64|
                #[trigger] old(self).nodes().dom().contains(k) ==> final(self).nodes()[k].expanded == old(
                    self,
                ).nodes()[k].expanded && final(self).nodes()[k].position == old(self).nodes()[k].position,
            r == root_key || final(self).nodes()[r].proof == old(self).nodes()[r].proof,
            up_from(old(self).nodes(), key, r, old(self).board@.turn as nat),
            forall|k: u64|
                #[trigger] old(self).nodes().dom().contains(k) && !up_from(
                    old(self).nodes(),
                    key,
                    k,
                    old(self).board@.turn as nat,
                ) ==> final(self).nodes()[k] == old(self).nodes()[k],
            final(self).nodes()[r].proof == numbers(final(self).nodes(), r).0,
            final(self).nodes()[r].disproof == numbers(final(self).nodes(), r).1,
            forall|k: u64|
                #[trigger] old(self).nodes().dom().contains(k) && final(self).nodes()[k] != old(self).nodes()[k]
                    ==> fresh(final(self).nodes(), k),
    {
        let mut cur = key;
        loop
            invariant
                self.wf(),
                self.at(cur),
                self.root == old(self).root,
                root_key == self.root,
                self.draw_is_loss == old(self).draw_is_loss,
                self.nodes().dom() == old(self).nodes().dom(),
                forall|k: u64|
                    #[trigger] old(self).nodes().dom().contains(k) ==> self.nodes()[k].expanded == old(
                        self,
                    ).nodes()[k].expanded && self.nodes()[k].position == old(self).nodes()[k].position,
                forall|k: u64|
                    #[trigger] self.nodes().dom().contains(k) && self.nodes()[k] != old(self).nodes()[k] ==> self.board@.turn
                        < self.nodes()[k].position@.turn && fresh(self.nodes(), k),
                self.board@.turn <= old(self).board@.turn,
                up_from(old(self).nodes(), key, cur, (old(self).board@.turn - self.board@.turn) as nat),
                forall|k: u64|
                    #[trigger] old(self).nodes().dom().contains(k) && !up_from(
                        old(self).nodes(),
                        key,
                        k,
                        old(self).board@.turn as nat,
                    ) ==> self.nodes()[k] == old(self).nodes()[k],
                forall|k: u64|
                    #[trigger] old(self).nodes().dom().contains(k) ==> self.nodes()[k].parent == old(self).nodes()[k].parent,
            decreases self.board@.turn,
        {
            proof {
                lemma_up_from_more(
                    old(self).nodes(),
                    key,
                    cur,
                    (old(self).board@.turn - self.board@.turn) as nat,
                    old(self).board@.turn as nat,
                );
            }
            let old_proof = arena_get(&self.tree, cur).proof;
            let ghost before = self.nodes();
            proof {
                lemma_children_differ(before, self.root, cur);
            }
            self.set_numbers(cur);
            proof {
                lemma_numbers_frame(before, cur, self.nodes()[cur], before[cur].children@, before[cur].children@.len() as int);
                let after = self.nodes();
                assert(numbers(after, cur) == numbers(before, cur));
                assert(fresh(after, cur));
                assert forall|k: u64| #[trigger] after.dom().contains(k) && after[k] != old(self).nodes()[k] && k != cur
                    implies fresh(after, k) by {
                    assert(before[k] != old(self).nodes()[k]);
                    assert(fresh(before, k));
                    assert(node_ok(before, self.root, k));
                    let cs = before[k].children@;
                    assert forall|j: int| 0 <= j < cs.len() implies cs[j] != cur by {
                        assert(before.dom().contains(cs[j]));
                        assert(node_ok(before, self.root, cs[j]));
                    }
                    lemma_numbers_frame(before, cur, after[cur], cs, cs.len() as int);
                }
                assert forall|k: u64|
                    #[trigger] old(self).nodes().dom().contains(k) && after[k] != old(self).nodes()[k] implies fresh(
                        after,
                        k,
                    ) by {
                    assert(after.dom().contains(k));
                }
            }
            if arena_get(&self.tree, cur).proof == old_proof || cur == root_key {
                return cur;
            }
            proof {
                assert(node_ok(self.nodes(), self.root, cur));
            }
            let node = arena_get(&self.tree, cur);
            let (parent, (x, y)) = match (node.parent, node.turn) {
                (Some(p), Some(m)) => (p, m),
                _ => {
                    assert(false);
                    (0, (0, 0))
                },
            };
            proof {
                lemma_up_from_parent(
                    old(self).nodes(),
                    key,
                    cur,
                    (old(self).board@.turn - self.board@.turn) as nat,
                    parent,
                );
            }
            self.step_up(cur, parent, x, y);
            cur = parent;
        }
    }

    /// A search of the position reached from a new board by `moves_made`,
    /// with a root node of unit numbers: an OR node when player one is to
    /// move, an AND node otherwise. Each shape is left as it was given.
    pub fn setup(
        size: i32,
        shape1: &mut Vec<Offset>,
        shape2: &mut Vec<Offset>,
        draw_is_loss: bool,
        moves_made: Vec<Offset>,
    ) -> (r: Result<PNS, GameError>)
        requires
            negatable(old(shape1)@),
            negatable(old(shape2)@),
            size * size <= usize::MAX,
        ensures
            final(shape1)@ == old(shape1)@,
            final(shape2)@ == old(shape2)@,
            size <= 0 <==> r == Err::<PNS, GameError>(GameError::IllegalBoardSize),
            size > 0 ==> match replay(fresh_board(size as int, old(shape1)@, old(shape2)@), moves_made@) {
                Err(e) => r == Err::<PNS, GameError>(e),
                Ok(b) => r is Ok && {
                    let p = r->Ok_0;
                    let n = p.nodes()[p.root];
                    &&& p.wf()
                    &&& p.at(p.root)
                    &&& p.board@ == b
                    &&& p.draw_is_loss == draw_is_loss
                    &&& p.nodes().dom() == set![p.root]
                    &&& n.turn is None && n.children@.len() == 0
                    &&& n.proof == 1 && n.disproof == 1
                    &&& !n.expanded && n.state == Status::Unknown
                    &&& n.node_type == if moves_made@.len() % 2 == 0 {
                        NodeType::OR
                    } else {
                        NodeType::AND
                    }
                },
            },
    {
        let ghost s1 = shape1@;
        let ghost s2 = shape2@;
        let mut board = match Board::setup(size, shape1, shape2) {
            Ok(b) => b,
            Err(e) => {
                return Err(e);
            },
        };
        let ghost b0 = board@;
        let n = board.field.len();
        let mut legal: Vec<bool> = Vec::new();
        let mut i: usize = 0;
        while i < n
            invariant
                i <= n,
                n == b0.cells.len(),
                legal@.len() == i,
                forall|j: int| 0 <= j < i ==> legal@[j],
            decreases n - i,
        {
            legal.push(true);
            i += 1;
        }
        assert(legal_matches(legal@, board@));
        let mut i: usize = 0;
        while i < moves_made.len()
            invariant
                i <= moves_made@.len(),
                b0 == fresh_board(size as int, s1, s2),
                s1 == old(shape1)@,
                s2 == old(shape2)@,
                shape1@ == s1,
                shape2@ == s2,
                b0.size == size,
                replay(b0, moves_made@.subrange(0, i as int)) == Ok::<BoardView, GameError>(board@),
                board@.wf(),
                board@.size == size,
                legal_matches(legal@, board@),
            decreases moves_made@.len() - i,
        {
            let (x, y) = moves_made[i];
            proof {
                assert(moves_made@.subrange(0, i as int + 1).drop_last() =~= moves_made@.subrange(0, i as int));
            }
            if x < 0 || y < 0 || x >= size || y >= size {
                proof {
                    lemma_replay_stops(b0, moves_made@, i as int + 1);
                }
                return Err(GameError::CoordinateOutOfRange);
            }
            if board.cell(x, y) != Tile::Empty {
                proof {
                    lemma_replay_stops(b0, moves_made@, i as int + 1);
                }
                return Err(GameError::AlreadyOccupied);
            }
            let idx = board.index_of(x, y);
            board.place_proof(x, y);
            legal.set(idx, false);
            assert(legal_matches(legal@, board@));
            i += 1;
        }
        assert(moves_made@.subrange(0, moves_made@.len() as int) =~= moves_made@);
        let node_type = if moves_made.len() % 2 == 0 {
            NodeType::OR
        } else {
            NodeType::AND
        };
        let root = Node {
            turn: None,
            proof: 1,
            disproof: 1,
            expanded: false,
            state: Status::Unknown,
            node_type,
            parent: None,
            children: Vec::new(),
            position: Ghost(board@),
        };
        let mut tree = arena_new();
        let key = arena_insert(&mut tree, root);
        let p = PNS { tree, root: key, legal, board, draw_is_loss };
        proof {
            crate::game::lemma_replay_parity(b0, moves_made@);
            let nodes = p.nodes();
            assert(nodes.dom() =~= set![key]);
            assert forall|k: u64| nodes.dom().contains(k) implies #[trigger] node_ok(nodes, key, k) by {
                assert(k == key);
            }
        }
        Ok(p)
    }

    /// Proof-number search from the root, whose position is on the board:
    /// until the root is proven (proof number 0) or disproven (disproof
    /// number 0), selects the most-proving node from the root, expands it,
    /// updates its ancestors and goes back to the root. The search also ends
    /// when the most-proving node is a finished game, which cannot be
    /// expanded, or when the arena has no room for another expansion. The
    /// board is back at the root position at the end. Returns the root's
    /// proof and disproof numbers; a proof number 0 means player one wins
    /// the root position with best play, a disproof number 0 that it does
    /// not.
    pub fn pns(&mut self, root_key: u64) -> (r: (i32, i32))
        requires
            old(self).wf(),
            root_key == old(self).root,
            old(self).at(root_key),
        ensures
            final(self).wf(),
            final(self).root == old(self).root,
            final(self).at(final(self).root),
            final(self).board@ == old(self).board@,
            final(self).draw_is_loss == old(self).draw_is_loss,
            r.0 == final(self).nodes()[final(self).root].proof,
            r.1 == final(self).nodes()[final(self).root].disproof,
            r.0 == 0 ==> prover_wins(old(self).board@, old(self).draw_is_loss) && r.1 == INFINITY,
            r.1 == 0 ==> !prover_wins(old(self).board@, old(self).draw_is_loss) && r.0 == INFINITY,
            r.0 != 0 && r.1 != 0 ==> final(self).stalled(),
    {
        let ghost b0 = self.board@;
        self.evaluate(root_key);
        self.set_numbers(root_key);
        loop
            invariant
                self.wf(),
                self.root == old(self).root,
                root_key == self.root,
                self.draw_is_loss == old(self).draw_is_loss,
                self.at(root_key),
                self.board@ == b0,
                self.nodes()[self.root].position@ == b0,
            ensures
                self.nodes()[self.root].proof == 0 || self.nodes()[self.root].disproof == 0 || self.stalled(),
            decreases u32::MAX - expanded_keys(self.nodes()).len(),
        {
            let root = arena_get(&self.tree, root_key);
            if root.proof == 0 || root.disproof == 0 {
                break;
            }
            let used = arena_len(&self.tree) as u64;
            let cells = self.legal.len() as u64;
            if cells >= NODE_LIMIT || used >= NODE_LIMIT - cells {
                break;
            }
            let ghost nodes0 = self.nodes();
            assert(nodes0.dom().len() + self.board@.cells.len() + 1 < u32::MAX);
            let mpn = self.select_mpn(root_key);
            if self.board.is_over() {
                assert(self.nodes().dom().contains(mpn) && !self.nodes()[mpn].expanded && self.nodes()[mpn].position@.over);
                self.climb_to_root(mpn);
                break;
            }
            self.expand(mpn);
            let ghost nodes1 = self.nodes();
            let stop = self.update_ancestors(mpn, root_key);
            self.climb_to_root(stop);
            proof {
                let nodes2 = self.nodes();
                let e0 = expanded_keys(nodes0);
                let e2 = expanded_keys(nodes2);
                vstd::set_lib::lemma_len_subset(e0, nodes0.dom());
                assert(e0.insert(mpn).subset_of(e2)) by {
                    assert forall|k: u64| e0.insert(mpn).contains(k) implies e2.contains(k) by {
                        assert(nodes2.dom().contains(k));
                        if k != mpn {
                            assert(nodes1[k] == nodes0[k]);
                        }
                    }
                }
                assert(e2.subset_of(nodes2.dom()));
                vstd::set_lib::lemma_len_subset(e2, nodes2.dom());
                vstd::set_lib::lemma_len_subset(e0.insert(mpn), e2);
                assert(!e0.contains(mpn));
                assert(e0.insert(mpn).len() == e0.len() + 1);
                assert(nodes2.dom().len() < u32::MAX);
                assert(e0.len() < e2.len());
                assert(e2.len() < u32::MAX);
                assert(nodes2[self.root].position == nodes0[self.root].position);
            }
        }
        let root = arena_get(&self.tree, root_key);
        proof {
            assert(node_sound(self.nodes()[self.root], self.draw_is_loss));
        }
        (root.proof, root.disproof)
    }
}

} // verus!
