use vstd::prelude::*;
use std::collections::HashMap;
use crate::game::{
    position_hash, table_children, has_digest, digest, Board, BoardView, GameError, Offset, Tile, fresh_board, lemma_place_undo_round_trip,
    lemma_replay_stops, negatable, replay,
};
use crate::graph::{INFINITY, child_position, legal_matches, min2, sat_add, status_of};

verus! {

broadcast use vstd::std_specs::hash::group_hash_axioms;

/// Outcome of a position for the prover, player one.
#[derive(Clone, Copy, Debug, PartialEq, Eq, Structural)]
pub enum Status {
    Disproven,
    Proven,
    Unknown,
}

/// One position of the search, stored under the digest of its board. `phi`
/// and `delta` are the proof and disproof numbers for the side to move
/// there: 0 for `phi` when that side wins, 0 for `delta` when it loses.
pub struct Node {
    /// The move that led here; `None` at the root.
    pub turn: Option<(i32, i32)>,
    pub phi: i32,
    pub delta: i32,
    pub state: Status,
    pub parent: Option<u64>,
    pub children: Vec<u64>,
    /// The board at this node.
    pub position: Ghost<BoardView>,
}

/// The status that the terminal evaluation of `b` gives, for the prover.
pub open spec fn prover_status(b: BoardView, draw_is_loss: bool) -> Status {
    match status_of(b, draw_is_loss) {
        crate::graph::Status::Proven => Status::Proven,
        crate::graph::Status::Disproven => Status::Disproven,
        crate::graph::Status::Unknown => Status::Unknown,
    }
}

/// Numbers of a finished position for the side to move there.
pub open spec fn terminal_numbers(b: BoardView, draw_is_loss: bool) -> (int, int) {
    let prover_wins = prover_status(b, draw_is_loss) == Status::Proven;
    if prover_wins == (b.mover() == Tile::One) {
        (0, INFINITY as int)
    } else {
        (INFINITY as int, 0)
    }
}

/// Capped sum of `phi` over the first `n` nodes of `cs`.
pub open spec fn sum_phi(nodes: Map<u64, Node>, cs: Seq<u64>, n: int) -> int
    decreases n,
{
    if n <= 0 {
        0
    } else {
        sat_add(sum_phi(nodes, cs, n - 1), nodes[cs[n - 1]].phi as int)
    }
}

/// Least `delta` over the first `n` nodes of `cs`; `INFINITY` for none.
pub open spec fn min_delta(nodes: Map<u64, Node>, cs: Seq<u64>, n: int) -> int
    decreases n,
{
    if n <= 0 {
        INFINITY as int
    } else {
        min2(min_delta(nodes, cs, n - 1), nodes[cs[n - 1]].delta as int)
    }
}

/// What a node says of itself alone.
pub open spec fn node_local_ok(n: Node) -> bool {
    &&& n.position@.wf()
    &&& 0 <= n.phi
    &&& 0 <= n.delta
    &&& (n.state != Status::Unknown ==> n.position@.over)
    &&& (n.children@.len() > 0 ==> !n.position@.over)
}

/// Node `k` agrees with its parent and its children.
pub open spec fn node_ok(nodes: Map<u64, Node>, root: u64, k: u64) -> bool {
    let n = nodes[k];
    &&& node_local_ok(n)
    &&& (k == root <==> n.parent is None)
    &&& (n.parent is Some ==> {
        let p = n.parent->Some_0;
        &&& nodes.dom().contains(p)
        &&& n.turn is Some
        &&& child_position(nodes[p].position@, n.turn->Some_0, n.position@)
    })
    &&& forall|j: int|
        0 <= j < n.children@.len() ==> nodes.dom().contains(#[trigger] n.children@[j])
            && nodes[n.children@[j]].parent == Some(k)
}

pub open spec fn links_ok(nodes: Map<u64, Node>, root: u64) -> bool {
    forall|k: u64| nodes.dom().contains(k) ==> #[trigger] node_ok(nodes, root, k)
}

/// Node `k` replaced by `n`, which keeps its move, parent and position and
/// has children that name it as their parent.
proof fn lemma_replace(nodes: Map<u64, Node>, root: u64, k: u64, n: Node)
    requires
        links_ok(nodes, root),
        nodes.dom().contains(k),
        n.turn == nodes[k].turn,
        n.parent == nodes[k].parent,
        n.position == nodes[k].position,
        node_local_ok(n),
        forall|j: int|
            0 <= j < n.children@.len() ==> nodes.dom().contains(#[trigger] n.children@[j])
                && nodes[n.children@[j]].parent == Some(k),
    ensures
        links_ok(nodes.insert(k, n), root),
{
    let m = nodes.insert(k, n);
    assert forall|k2: u64| m.dom().contains(k2) implies #[trigger] node_ok(m, root, k2) by {
        assert(node_ok(nodes, root, k2));
        let n2 = m[k2];
        assert forall|j: int| 0 <= j < n2.children@.len() implies m.dom().contains(#[trigger] n2.children@[j])
            && m[n2.children@[j]].parent == Some(k2) by {
            assert(nodes.dom().contains(nodes[k2].children@[j]) || k2 == k);
        }
    }
}

/// A new leaf `c` under `k`.
proof fn lemma_add_leaf(nodes: Map<u64, Node>, root: u64, k: u64, c: u64, n: Node)
    requires
        links_ok(nodes, root),
        nodes.dom().contains(k),
        nodes.dom().contains(root),
        !nodes.dom().contains(c),
        n.parent == Some(k),
        n.turn is Some,
        child_position(nodes[k].position@, n.turn->Some_0, n.position@),
        n.children@.len() == 0,
        node_local_ok(n),
    ensures
        links_ok(nodes.insert(c, n), root),
{
    let m = nodes.insert(c, n);
    assert forall|k2: u64| m.dom().contains(k2) implies #[trigger] node_ok(m, root, k2) by {
        if k2 != c {
            assert(node_ok(nodes, root, k2));
            let n2 = m[k2];
            assert forall|j: int| 0 <= j < n2.children@.len() implies m.dom().contains(#[trigger] n2.children@[j])
                && m[n2.children@[j]].parent == Some(k2) by {
                assert(nodes.dom().contains(nodes[k2].children@[j]));
            }
        }
    }
}

/// The children of node `k` are other nodes, with numbers that are not
/// negative.
proof fn lemma_children_bounds(nodes: Map<u64, Node>, root: u64, k: u64, cs: Seq<u64>)
    requires
        links_ok(nodes, root),
        nodes.dom().contains(k),
        cs == nodes[k].children@,
    ensures
        forall|j: int| 0 <= j < cs.len() ==> 0 <= #[trigger] nodes[cs[j]].phi && 0 <= nodes[cs[j]].delta,
        forall|j: int| 0 <= j < cs.len() ==> #[trigger] cs[j] != k,
{
    assert(node_ok(nodes, root, k));
    assert forall|j: int| 0 <= j < cs.len() implies 0 <= #[trigger] nodes[cs[j]].phi && 0 <= nodes[cs[j]].delta by {
        assert(nodes.dom().contains(cs[j]));
        assert(node_ok(nodes, root, cs[j]));
    }
    assert forall|j: int| 0 <= j < cs.len() implies #[trigger] cs[j] != k by {
        assert(nodes.dom().contains(cs[j]));
        assert(node_ok(nodes, root, cs[j]));
    }
}

proof fn lemma_number_bounds(m: Map<u64, Node>, cs: Seq<u64>, len: int)
    requires
        0 <= len <= cs.len(),
        forall|j: int| 0 <= j < len ==> 0 <= #[trigger] m[cs[j]].phi && 0 <= m[cs[j]].delta,
    ensures
        0 <= sum_phi(m, cs, len) <= INFINITY,
        0 <= min_delta(m, cs, len) <= INFINITY,
    decreases len,
{
    if len > 0 {
        lemma_number_bounds(m, cs, len - 1);
        assert(0 <= m[cs[len - 1]].phi && 0 <= m[cs[len - 1]].delta);
    }
}

proof fn lemma_sum_covers_each(m: Map<u64, Node>, cs: Seq<u64>, len: int, i: int)
    requires
        0 <= i < len <= cs.len(),
        forall|j: int| 0 <= j < len ==> 0 <= #[trigger] m[cs[j]].phi && 0 <= m[cs[j]].delta,
    ensures
        m[cs[i]].phi <= sum_phi(m, cs, len),
    decreases len,
{
    lemma_number_bounds(m, cs, len - 1);
    if i < len - 1 {
        lemma_sum_covers_each(m, cs, len - 1, i);
    }
}

/// The least `delta` over the first `n` nodes of `cs` other than the one at
/// index `i`; `INFINITY` for none.
pub open spec fn min_delta_except(nodes: Map<u64, Node>, cs: Seq<u64>, n: int, i: int) -> int
    decreases n,
{
    if n <= 0 {
        INFINITY as int
    } else if n - 1 == i {
        min_delta_except(nodes, cs, n - 1, i)
    } else {
        min2(min_delta_except(nodes, cs, n - 1, i), nodes[cs[n - 1]].delta as int)
    }
}

/// Index of the first node, among the first `n` of `cs`, with the least `delta`.
pub open spec fn first_min_delta(nodes: Map<u64, Node>, cs: Seq<u64>, n: int) -> int
    decreases n,
{
    if n <= 1 {
        0
    } else {
        let i = first_min_delta(nodes, cs, n - 1);
        if (nodes[cs[n - 1]].delta as int) < nodes[cs[i]].delta as int {
            n - 1
        } else {
            i
        }
    }
}

proof fn lemma_first_min_delta(nodes: Map<u64, Node>, cs: Seq<u64>, n: int)
    requires
        1 <= n <= cs.len(),
    ensures
        0 <= first_min_delta(nodes, cs, n) < n,
        nodes[cs[first_min_delta(nodes, cs, n)]].delta == min_delta(nodes, cs, n),
        min_delta(nodes, cs, n) <= INFINITY,
    decreases n,
{
    if n > 1 {
        lemma_first_min_delta(nodes, cs, n - 1);
    } else {
        assert(min_delta(nodes, cs, 0) == INFINITY);
    }
}

/// Changing a node outside `cs` leaves the sums and minima over `cs` alone.
proof fn lemma_numbers_frame(m: Map<u64, Node>, k: u64, n: Node, cs: Seq<u64>, len: int)
    requires
        0 <= len <= cs.len(),
        forall|j: int| 0 <= j < len ==> cs[j] != k,
    ensures
        sum_phi(m.insert(k, n), cs, len) == sum_phi(m, cs, len),
        min_delta(m.insert(k, n), cs, len) == min_delta(m, cs, len),
    decreases len,
{
    if len > 0 {
        lemma_numbers_frame(m, k, n, cs, len - 1);
    }
}

/// `a + b`, capped at `INFINITY`, for numbers that are not negative.
fn saturating_sum(a: i32, b: i32) -> (r: i32)
    requires
        0 <= a,
        0 <= b,
    ensures
        r == sat_add(a as int, b as int),
{
    if a > INFINITY - b {
        INFINITY
    } else {
        a + b
    }
}

/// Depth-first proof-number search over a transposition table: each
/// position is stored once, under the digest of its board; the board
/// stands at the position being worked on, with the cells that are still
/// free on it.
pub struct PNS {
    pub tree: HashMap<u64, Node>,
    pub root: u64,
    /// `legal[i]` tells whether the cell at position `i` of the row-major
    /// order is free.
    pub legal: Vec<bool>,
    pub board: Board,
    /// A draw counts as a loss for the prover.
    pub draw_is_loss: bool,
}

/// The most work one search does: the number of visits of a node.
pub const SEARCH_BUDGET: u64 = 0xFFFF_FFFF_FFFF_FFFF;

impl PNS {
    pub open spec fn nodes(&self) -> Map<u64, Node> {
        self.tree@
    }

    pub open spec fn wf(&self) -> bool {
        &&& self.nodes().dom().contains(self.root)
        &&& links_ok(self.nodes(), self.root)
        &&& self.board@.wf()
        &&& legal_matches(self.legal@, self.board@)
    }

    /// The board stands at the position of node `k`.
    pub open spec fn at(&self, k: u64) -> bool {
        &&& self.nodes().dom().contains(k)
        &&& self.board@ == self.nodes()[k].position@
    }

    /// The board stands where node `k` is entered from: the position of its
    /// parent, or its own position at the root.
    pub open spec fn at_entry(&self, k: u64) -> bool {
        &&& self.nodes().dom().contains(k)
        &&& match self.nodes()[k].parent {
            None => self.board@ == self.nodes()[k].position@,
            Some(p) => self.board@ == self.nodes()[p].position@,
        }
    }

    /// Capped sum of `phi` over the children of node `k`.
    pub fn sum(&self, key: u64) -> (r: i32)
        requires
            self.wf(),
            self.nodes().dom().contains(key),
        ensures
            r == sum_phi(self.nodes(), self.nodes()[key].children@, self.nodes()[key].children@.len() as int),
    {
        let ghost nodes = self.nodes();
        let ghost cs = nodes[key].children@;
        proof {
            assert(node_ok(nodes, self.root, key));
        }
        let node = match self.tree.get(&key) {
            Some(n) => n,
            None => {
                assert(false);
                return 0;
            },
        };
        let mut sum: i32 = 0;
        let mut j: usize = 0;
        while j < node.children.len()
            invariant
                self.wf(),
                nodes == self.nodes(),
                node_ok(nodes, self.root, key),
                *node == nodes[key],
                cs == node.children@,
                j <= cs.len(),
                sum == sum_phi(nodes, cs, j as int),
            decreases cs.len() - j,
        {
            let c = node.children[j];
            proof {
                assert(nodes.dom().contains(cs[j as int]));
                assert(node_ok(nodes, self.root, c));
                assert forall|i: int| 0 <= i < j implies 0 <= #[trigger] nodes[cs[i]].phi && 0 <= nodes[cs[i]].delta by {
                    assert(nodes.dom().contains(cs[i]));
                    assert(node_ok(nodes, self.root, cs[i]));
                }
                lemma_number_bounds(nodes, cs, j as int);
            }
            let child = match self.tree.get(&c) {
                Some(n) => n,
                None => {
                    assert(false);
                    return 0;
                },
            };
            sum = saturating_sum(sum, child.phi);
            j += 1;
        }
        sum
    }

    /// Least `delta` over the children of node `k`; `INFINITY` for none.
    pub fn min(&self, key: u64) -> (r: i32)
        requires
            self.wf(),
            self.nodes().dom().contains(key),
        ensures
            r == min_delta(self.nodes(), self.nodes()[key].children@, self.nodes()[key].children@.len() as int),
    {
        let ghost nodes = self.nodes();
        let ghost cs = nodes[key].children@;
        let node = match self.tree.get(&key) {
            Some(n) => n,
            None => {
                assert(false);
                return 0;
            },
        };
        let mut min: i32 = INFINITY;
        let mut j: usize = 0;
        while j < node.children.len()
            invariant
                self.wf(),
                nodes == self.nodes(),
                node_ok(nodes, self.root, key),
                *node == nodes[key],
                cs == node.children@,
                j <= cs.len(),
                min == min_delta(nodes, cs, j as int),
            decreases cs.len() - j,
        {
            let c = node.children[j];
            proof {
                assert(nodes.dom().contains(cs[j as int]));
            }
            let child = match self.tree.get(&c) {
                Some(n) => n,
                None => {
                    assert(false);
                    return 0;
                },
            };
            if child.delta < min {
                min = child.delta;
            }
            j += 1;
        }
        min
    }

    /// The child of node `k` with the least `delta`, the first of equals;
    /// its `phi`; and the least `delta` among the other children.
    pub fn select_child(&self, key: u64) -> (r: (u64, i32, i32))
        requires
            self.wf(),
            self.nodes().dom().contains(key),
            self.nodes()[key].children@.len() > 0,
        ensures
            ({
                let nodes = self.nodes();
                let cs = nodes[key].children@;
                let i = first_min_delta(nodes, cs, cs.len() as int);
                &&& r.0 == cs[i]
                &&& r.1 == nodes[cs[i]].phi
                &&& r.2 == min_delta_except(nodes, cs, cs.len() as int, i)
            }),
    {
        let ghost nodes = self.nodes();
        let ghost cs = nodes[key].children@;
        proof {
            assert(node_ok(nodes, self.root, key));
        }
        let node = match self.tree.get(&key) {
            Some(n) => n,
            None => {
                assert(false);
                return (0, 0, 0);
            },
        };
        let first = node.children[0];
        proof {
            assert(nodes.dom().contains(cs[0]));
        }
        let (mut phi_c, mut delta_c) = match self.tree.get(&first) {
            Some(n) => (n.phi, n.delta),
            None => {
                assert(false);
                return (0, 0, 0);
            },
        };
        let mut best: usize = 0;
        let mut delta2: i32 = INFINITY;
        assert(min_delta_except(nodes, cs, 0, 0) == INFINITY);
        assert(min_delta_except(nodes, cs, 1, 0) == INFINITY);
        let mut j: usize = 1;
        while j < node.children.len()
            invariant
                self.wf(),
                nodes == self.nodes(),
                node_ok(nodes, self.root, key),
                *node == nodes[key],
                cs == node.children@,
                1 <= j <= cs.len(),
                best == first_min_delta(nodes, cs, j as int),
                best < j,
                phi_c == nodes[cs[best as int]].phi,
                delta_c == nodes[cs[best as int]].delta,
                delta2 == min_delta_except(nodes, cs, j as int, best as int),
            decreases cs.len() - j,
        {
            let c = node.children[j];
            proof {
                assert(nodes.dom().contains(cs[j as int]));
            }
            let (phi, delta) = match self.tree.get(&c) {
                Some(n) => (n.phi, n.delta),
                None => {
                    assert(false);
                    return (0, 0, 0);
                },
            };
            if delta < delta_c {
                proof {
                    lemma_except_is_min(nodes, cs, j as int);
                    lemma_first_min_delta(nodes, cs, j as int);
                }
                best = j;
                delta2 = delta_c;
                phi_c = phi;
                delta_c = delta;
            } else {
                assert(min_delta_except(nodes, cs, j as int + 1, best as int) == min2(
                    min_delta_except(nodes, cs, j as int, best as int),
                    delta as int,
                ));
                if delta < delta2 {
                    delta2 = delta;
                }
            }
            j += 1;
        }
        (node.children[best], phi_c, delta2)
    }

    /// Replaces the numbers and status of node `k`.
    fn update_node(&mut self, key: u64, phi: i32, delta: i32, state: Status)
        requires
            old(self).nodes().dom().contains(key),
        ensures
            final(self).nodes() == old(self).nodes().insert(
                key,
                Node { phi, delta, state, ..old(self).nodes()[key] },
            ),
            final(self).board == old(self).board,
            final(self).legal == old(self).legal,
            final(self).root == old(self).root,
            final(self).draw_is_loss == old(self).draw_is_loss,
    {
        let mut node = match self.tree.remove(&key) {
            Some(n) => n,
            None => {
                assert(false);
                return;
            },
        };
        node.phi = phi;
        node.delta = delta;
        node.state = state;
        self.tree.insert(key, node);
        assert(self.nodes() =~= old(self).nodes().insert(key, Node { phi, delta, state, ..old(self).nodes()[key] }));
    }

    /// Replaces the children of node `k`.
    fn set_children(&mut self, key: u64, children: Vec<u64>)
        requires
            old(self).nodes().dom().contains(key),
        ensures
            final(self).nodes() == old(self).nodes().insert(key, Node { children, ..old(self).nodes()[key] }),
            final(self).board == old(self).board,
            final(self).legal == old(self).legal,
            final(self).root == old(self).root,
            final(self).draw_is_loss == old(self).draw_is_loss,
    {
        let ghost cs = children;
        let mut node = match self.tree.remove(&key) {
            Some(n) => n,
            None => {
                assert(false);
                return;
            },
        };
        node.children = children;
        self.tree.insert(key, node);
        assert(self.nodes() =~= old(self).nodes().insert(key, Node { children: cs, ..old(self).nodes()[key] }));
    }

    /// Records the terminal status of node `k`, whose position is on the
    /// board: Proven for a win of player one, Disproven for a win of player
    /// two, a draw by `draw_is_loss`, Unknown while the game goes on.
    pub fn evaluate(&mut self, key: u64)
        requires
            old(self).wf(),
            old(self).at(key),
        ensures
            final(self).wf(),
            final(self).nodes() == old(self).nodes().insert(
                key,
                Node { state: prover_status(old(self).board@, old(self).draw_is_loss), ..old(self).nodes()[key] },
            ),
            final(self).board == old(self).board,
            final(self).legal == old(self).legal,
            final(self).root == old(self).root,
            final(self).draw_is_loss == old(self).draw_is_loss,
    {
        let state = if !self.board.is_over() {
            Status::Unknown
        } else {
            match self.board.winner() {
                Tile::One => Status::Proven,
                Tile::Two => Status::Disproven,
                Tile::Empty => if self.draw_is_loss {
                    Status::Disproven
                } else {
                    Status::Proven
                },
            }
        };
        let ghost nodes0 = self.nodes();
        let (phi, delta) = match self.tree.get(&key) {
            Some(n) => (n.phi, n.delta),
            None => {
                assert(false);
                return;
            },
        };
        proof {
            assert(node_ok(nodes0, self.root, key));
            lemma_replace(nodes0, self.root, key, Node { state, ..nodes0[key] });
        }
        self.update_node(key, phi, delta, state);
        assert(Node { phi, delta, state, ..nodes0[key] } == Node { state, ..nodes0[key] });
    }

    /// A new leaf under node `k`, whose open position is on the board, for
    /// each free cell whose position is not yet in the table, in row-major
    /// order, with unit numbers and Unknown status; they become the children
    /// of `k`. Positions already in the table are not added again.
    pub fn generate_children(&mut self, key: u64)
        requires
            old(self).wf(),
            old(self).at(key),
            !old(self).board@.over,
        ensures
            final(self).wf(),
            final(self).at(key),
            final(self).board@ == old(self).board@,
            final(self).legal@ == old(self).legal@,
            final(self).root == old(self).root,
            final(self).draw_is_loss == old(self).draw_is_loss,
            old(self).nodes().dom().subset_of(final(self).nodes().dom()),
            forall|k: u64|
                old(self).nodes().dom().contains(k) && k != key ==> final(self).nodes()[k] == old(self).nodes()[k],
            ({
                let n0 = old(self).nodes()[key];
                let n = final(self).nodes()[key];
                &&& n.turn == n0.turn && n.phi == n0.phi && n.delta == n0.delta
                &&& n.state == n0.state && n.parent == n0.parent && n.position == n0.position
            }),
            forall|j: int|
                0 <= j < final(self).nodes()[key].children@.len() ==> {
                    let c = final(self).nodes()[#[trigger] final(self).nodes()[key].children@[j]];
                    &&& !old(self).nodes().dom().contains(final(self).nodes()[key].children@[j])
                    &&& c.parent == Some(key)
                    &&& c.phi == 1 && c.delta == 1
                    &&& c.state == Status::Unknown
                    &&& c.children@.len() == 0
                },
            ({
                let tc = table_children(old(self).nodes().dom(), old(self).board@, old(self).board@.cells.len() as int);
                let cs = final(self).nodes()[key].children@;
                &&& cs.len() == tc.len()
                &&& forall|j: int|
                    0 <= j < cs.len() ==> cs[j] == (#[trigger] tc[j]).0 && final(self).nodes()[cs[j]].turn == Some(tc[j].1)
            }),
    {
        let ghost nodes0 = self.nodes();
        let ghost b = self.board@;
        let n = self.legal.len();
        let mut child_keys: Vec<u64> = Vec::new();
        let mut i: usize = 0;
        while i < n
            invariant
                self.board@ == b,
                self.legal@ == old(self).legal@,
                self.root == old(self).root,
                self.draw_is_loss == old(self).draw_is_loss,
                b == nodes0[key].position@,
                b.wf(),
                !b.over,
                legal_matches(self.legal@, b),
                n == b.cells.len(),
                child_keys@.len() == table_children(nodes0.dom(), b, i as int).len(),
                forall|j: int|
                    0 <= j < child_keys@.len() ==> child_keys@[j] == (#[trigger] table_children(nodes0.dom(), b, i as int)[j]).0
                        && self.nodes()[child_keys@[j]].turn == Some(table_children(nodes0.dom(), b, i as int)[j].1),
                forall|k: u64|
                    #[trigger] self.nodes().dom().contains(k) <==> nodes0.dom().contains(k) || has_digest(
                        table_children(nodes0.dom(), b, i as int),
                        k,
                    ),
                i <= n,
                nodes0 == old(self).nodes(),
                nodes0.dom().contains(key),
                nodes0.dom().contains(self.root),
                links_ok(self.nodes(), self.root),
                nodes0.dom().subset_of(self.nodes().dom()),
                forall|k: u64| #[trigger] nodes0.dom().contains(k) ==> self.nodes()[k] == nodes0[k],
                forall|j: int|
                    0 <= j < child_keys@.len() ==> {
                        let c = self.nodes()[#[trigger] child_keys@[j]];
                        &&& self.nodes().dom().contains(child_keys@[j])
                        &&& !nodes0.dom().contains(child_keys@[j])
                        &&& c.parent == Some(key)
                        &&& c.phi == 1 && c.delta == 1
                        &&& c.state == Status::Unknown
                        &&& c.children@.len() == 0
                    },
            decreases n - i,
        {
            let ghost prev = table_children(nodes0.dom(), b, i as int);
            if self.legal[i] {
                let (x, y) = self.board.coords(i);
                proof {
                    lemma_place_undo_round_trip(b, x as int, y as int);
                }
                self.board.place_proof(x, y);
                let h = position_hash(&self.board);
                self.board.undo(x, y);
                assert(h == digest(b.placed(x as int, y as int).cells, b.placed(x as int, y as int).player_one));
                if !self.tree.contains_key(&h) {
                    let child = Node {
                        turn: Some((x, y)),
                        phi: 1,
                        delta: 1,
                        state: Status::Unknown,
                        parent: Some(key),
                        children: Vec::new(),
                        position: Ghost(b.placed(x as int, y as int)),
                    };
                    let ghost before = self.nodes();
                    let ghost keys_before = child_keys@;
                    proof {
                        lemma_add_leaf(before, self.root, key, h, child);
                    }
                    self.tree.insert(h, child);
                    child_keys.push(h);
                    let ghost next = table_children(nodes0.dom(), b, i as int + 1);
                    assert(next == prev.push((h, (x, y))));
                    assert forall|j: int|
                        0 <= j < child_keys@.len() implies child_keys@[j] == (#[trigger] next[j]).0
                            && self.nodes()[child_keys@[j]].turn == Some(next[j].1) by {
                        if j < keys_before.len() {
                            assert(child_keys@[j] == keys_before[j]);
                            assert(before.dom().contains(keys_before[j]));
                            assert(prev[j] == next[j]);
                        }
                    }
                    assert forall|k: u64|
                        #[trigger] self.nodes().dom().contains(k) <==> nodes0.dom().contains(k) || has_digest(next, k) by {
                        if has_digest(prev, k) {
                            let j = choose|j: int| 0 <= j < prev.len() && (#[trigger] prev[j]).0 == k;
                            assert(next[j] == prev[j]);
                        }
                        if has_digest(next, k) && k != h {
                            let j = choose|j: int| 0 <= j < next.len() && (#[trigger] next[j]).0 == k;
                            assert(j < prev.len());
                            assert(next[j] == prev[j]);
                        }
                        if k == h {
                            assert(next[prev.len() as int].0 == h);
                        }
                    }
                    assert forall|j: int| 0 <= j < child_keys@.len() implies {
                        let c = self.nodes()[#[trigger] child_keys@[j]];
                        &&& self.nodes().dom().contains(child_keys@[j])
                        &&& !nodes0.dom().contains(child_keys@[j])
                        &&& c.parent == Some(key)
                        &&& c.phi == 1 && c.delta == 1
                        &&& c.state == Status::Unknown
                        &&& c.children@.len() == 0
                    } by {
                        if j < keys_before.len() {
                            assert(child_keys@[j] == keys_before[j]);
                            assert(before.dom().contains(keys_before[j]));
                        }
                    }
                } else {
                    assert(table_children(nodes0.dom(), b, i as int + 1) == prev);
                }
            } else {
                assert(table_children(nodes0.dom(), b, i as int + 1) == prev);
            }
            i += 1;
        }
        let ghost nodes1 = self.nodes();
        proof {
            assert(node_ok(nodes1, self.root, key));
            lemma_replace(nodes1, self.root, key, Node { children: child_keys, ..nodes1[key] });
        }
        self.set_children(key, child_keys);
    }

    /// The depth-first search of node `k` under the thresholds `phi_t` and
    /// `delta_t`, entered with the board at its parent's position (at its
    /// own, for the root). Plays the node's move; at a finished position
    /// records the terminal status and numbers; otherwise generates the
    /// children on the first visit, then searches the child with the least
    /// `delta`, under tightened thresholds, until the node's `phi` reaches
    /// `phi_t` or its `delta` reaches `delta_t`; then sets its numbers from
    /// its children. Takes the move back at the end. Each visit uses one
    /// unit of `budget`; with none left the search stops where it is.
    pub fn mid(&mut self, key: u64, phi_t: i32, delta_t: i32, budget: &mut u64, Ghost(fuel): Ghost<nat>)
        requires
            old(self).wf(),
            old(self).at_entry(key),
            0 <= phi_t,
            0 <= delta_t,
            fuel == *old(budget),
        ensures
            final(self).wf(),
            final(self).board@ == old(self).board@,
            final(self).root == old(self).root,
            final(self).draw_is_loss == old(self).draw_is_loss,
            old(self).nodes().dom().subset_of(final(self).nodes().dom()),
            forall|k: u64|
                #[trigger] old(self).nodes().dom().contains(k) ==> final(self).nodes()[k].position == old(
                    self,
                ).nodes()[k].position && final(self).nodes()[k].parent == old(self).nodes()[k].parent,
            forall|k: u64|
                #[trigger] old(self).nodes().dom().contains(k) && old(self).nodes()[k].position@.turn < old(
                    self,
                ).nodes()[key].position@.turn ==> final(self).nodes()[k] == old(self).nodes()[k],
            *final(budget) <= *old(budget),
            *old(budget) > 0 ==> *final(budget) < *old(budget),
            *old(budget) > 0 ==> {
                let n = final(self).nodes()[key];
                let len = n.children@.len() as int;
                &&& n.position@.over ==> n.state == prover_status(n.position@, final(self).draw_is_loss)
                    && n.phi == terminal_numbers(n.position@, final(self).draw_is_loss).0
                    && n.delta == terminal_numbers(n.position@, final(self).draw_is_loss).1
                &&& !n.position@.over ==> n.phi == min_delta(final(self).nodes(), n.children@, len)
                    && n.delta == sum_phi(final(self).nodes(), n.children@, len)
            },
            *final(budget) > 0 ==> final(self).nodes()[key].phi >= phi_t || final(self).nodes()[key].delta
                >= delta_t,
        decreases fuel,
    {
        if *budget == 0 {
            return;
        }
        *budget = *budget - 1;
        let ghost nodes0 = self.nodes();
        let ghost b0 = self.board@;
        let ghost l0 = self.legal@;
        proof {
            assert(node_ok(nodes0, self.root, key));
        }
        let (parent, turn) = match self.tree.get(&key) {
            Some(n) => (n.parent, n.turn),
            None => {
                assert(false);
                return;
            },
        };
        let mut placed: Option<(i32, i32, usize)> = None;
        if parent.is_some() {
            match turn {
                Some((x, y)) => {
                    proof {
                        let p = parent->Some_0;
                        assert(node_ok(nodes0, self.root, p));
                        lemma_place_undo_round_trip(b0, x as int, y as int);
                    }
                    let idx = self.board.index_of(x, y);
                    self.board.place_proof(x, y);
                    self.legal.set(idx, false);
                    assert(legal_matches(self.legal@, self.board@));
                    placed = Some((x, y, idx));
                },
                None => {
                    assert(false);
                },
            }
        }
        assert(self.at(key));
        let ghost pos_turn = nodes0[key].position@.turn;
        if self.board.is_over() {
            self.evaluate(key);
            let state = match self.tree.get(&key) {
                Some(n) => n.state,
                None => {
                    assert(false);
                    return;
                },
            };
            let prover_wins = match state {
                Status::Proven => true,
                _ => false,
            };
            let mover_is_one = match self.board.player_to_move() {
                Tile::One => true,
                _ => false,
            };
            let (phi, delta) = if prover_wins == mover_is_one {
                (0, INFINITY)
            } else {
                (INFINITY, 0)
            };
            let ghost nodes1 = self.nodes();
            proof {
                assert(node_ok(nodes1, self.root, key));
                lemma_replace(nodes1, self.root, key, Node { phi, delta, state, ..nodes1[key] });
            }
            self.update_node(key, phi, delta, state);
        } else {
            let empty = match self.tree.get(&key) {
                Some(n) => n.children.len() == 0,
                None => {
                    assert(false);
                    return;
                },
            };
            if empty {
                self.generate_children(key);
            }
            let ghost nodes1 = self.nodes();
            let ghost cs = nodes1[key].children@;
            proof {
                assert(node_ok(nodes1, self.root, key));
                assert forall|j: int| 0 <= j < cs.len() implies (#[trigger] nodes1[cs[j]]).position@.turn == pos_turn + 1 by {
                    assert(nodes1.dom().contains(cs[j]));
                    assert(node_ok(nodes1, self.root, cs[j]));
                }
            }
            loop
                invariant
                    self.wf(),
                    self.at(key),
                    self.root == old(self).root,
                    self.draw_is_loss == old(self).draw_is_loss,
                    !self.board@.over,
                    0 <= phi_t,
                    0 <= delta_t,
                    nodes0.dom().subset_of(nodes1.dom()),
                    nodes1.dom().subset_of(self.nodes().dom()),
                    nodes1.dom().contains(key),
                    self.nodes()[key] == nodes1[key],
                    *budget < fuel,
                    fuel == *old(budget),
                    cs == nodes1[key].children@,
                    pos_turn == nodes1[key].position@.turn,
                    forall|k: u64|
                        #[trigger] nodes1.dom().contains(k) ==> self.nodes()[k].position == nodes1[k].position
                            && self.nodes()[k].parent == nodes1[k].parent,
                    forall|k: u64|
                        #[trigger] nodes1.dom().contains(k) && nodes1[k].position@.turn <= pos_turn ==> self.nodes()[k]
                            == nodes1[k],
                ensures
                    *budget > 0 ==> min_delta(self.nodes(), cs, cs.len() as int) >= phi_t || sum_phi(
                        self.nodes(),
                        cs,
                        cs.len() as int,
                    ) >= delta_t,
                decreases *budget,
            {
                let md = self.min(key);
                let sp = self.sum(key);
                if md >= phi_t || sp >= delta_t {
                    break;
                }
                if *budget == 0 {
                    break;
                }
                proof {
                    assert(node_ok(self.nodes(), self.root, key));
                    assert forall|j: int| 0 <= j < cs.len() implies 0 <= #[trigger] self.nodes()[cs[j]].phi
                        && 0 <= self.nodes()[cs[j]].delta by {
                        assert(self.nodes().dom().contains(cs[j]));
                        assert(node_ok(self.nodes(), self.root, cs[j]));
                    }
                    if cs.len() == 0 {
                        assert(md == INFINITY);
                    }
                    lemma_first_min_delta(self.nodes(), cs, cs.len() as int);
                }
                let (best, phi_c, delta2) = self.select_child(key);
                proof {
                    let i = first_min_delta(self.nodes(), cs, cs.len() as int);
                    lemma_sum_covers_each(self.nodes(), cs, cs.len() as int, i);
                    lemma_number_bounds(self.nodes(), cs, cs.len() as int);
                    lemma_except_bounds(self.nodes(), cs, cs.len() as int, i);
                    assert(self.nodes().dom().contains(best));
                    assert(node_ok(self.nodes(), self.root, best));
                }
                let child_phi_t = saturating_sum(delta_t - sp, phi_c);
                let next = saturating_sum(delta2, 1);
                let child_delta_t = if phi_t < next {
                    phi_t
                } else {
                    next
                };
                let ghost mid_nodes = self.nodes();
                let ghost fuel_now = *budget as nat;
                self.mid(best, child_phi_t, child_delta_t, budget, Ghost(fuel_now));
                proof {
                    assert forall|k: u64| #[trigger] nodes1.dom().contains(k) && nodes1[k].position@.turn <= pos_turn implies self.nodes()[k] == nodes1[k] by {
                        assert(mid_nodes.dom().contains(k));
                        assert(mid_nodes[k].position@.turn <= pos_turn);
                    }
                }
            }
            let md = self.min(key);
            let sp = self.sum(key);
            let state = match self.tree.get(&key) {
                Some(n) => n.state,
                None => {
                    assert(false);
                    return;
                },
            };
            let ghost nodes2 = self.nodes();
            proof {
                assert(node_ok(nodes2, self.root, key));
                assert(nodes2[key] == nodes1[key]);
                assert(cs == nodes2[key].children@);
                lemma_children_bounds(nodes2, self.root, key, cs);
                lemma_number_bounds(nodes2, cs, cs.len() as int);
                let n2 = Node { phi: md, delta: sp, state, ..nodes2[key] };
                lemma_replace(nodes2, self.root, key, n2);
                lemma_numbers_frame(nodes2, key, n2, cs, cs.len() as int);
            }
            self.update_node(key, md, sp, state);
        }
        match placed {
            Some((x, y, idx)) => {
                let ghost nodes3 = self.nodes();
                proof {
                    let p = parent->Some_0;
                    assert(nodes0.dom().contains(p));
                    assert(nodes3[p].position == nodes0[p].position);
                    assert(nodes3[key].position == nodes0[key].position);
                    lemma_place_undo_round_trip(b0, x as int, y as int);
                }
                self.board.undo(x, y);
                self.legal.set(idx, true);
                assert(self.legal@ =~= l0);
            },
            None => {},
        }
    }

    /// A search of the position reached from a new board by `moves_made`;
    /// its root node, stored under the digest of that position, has unit
    /// numbers. Each shape is left as it was given.
    pub fn setup(
        size: i32,
        shape1: &mut Vec<Offset>,
        shape2: &mut Vec<Offset>,
        draw_is_loss: bool,
        moves_made: Vec<Offset>,
    ) -> (r: Result<PNS, GameError>)
        requires
            negatable(old(shape1)@),
            negatable(old(shape2)@),
            size * size <= usize::MAX,
        ensures
            final(shape1)@ == old(shape1)@,
            final(shape2)@ == old(shape2)@,
            size <= 0 <==> r == Err::<PNS, GameError>(GameError::IllegalBoardSize),
            size > 0 ==> match replay(fresh_board(size as int, old(shape1)@, old(shape2)@), moves_made@) {
                Err(e) => r == Err::<PNS, GameError>(e),
                Ok(b) => r is Ok && {
                    let p = r->Ok_0;
                    let n = p.nodes()[p.root];
                    &&& p.wf()
                    &&& p.at(p.root)
                    &&& p.board@ == b
                    &&& p.draw_is_loss == draw_is_loss
                    &&& p.nodes().dom() == set![p.root]
                    &&& n.turn is None && n.children@.len() == 0
                    &&& n.phi == 1 && n.delta == 1
                    &&& n.state == Status::Unknown
                },
            },
    {
        let ghost s1 = shape1@;
        let ghost s2 = shape2@;
        let mut board = match Board::setup(size, shape1, shape2) {
            Ok(b) => b,
            Err(e) => {
                return Err(e);
            },
        };
        let ghost b0 = board@;
        let n = board.field.len();
        let mut legal: Vec<bool> = Vec::new();
        let mut i: usize = 0;
        while i < n
            invariant
                i <= n,
                n == b0.cells.len(),
                legal@.len() == i,
                forall|j: int| 0 <= j < i ==> legal@[j],
            decreases n - i,
        {
            legal.push(true);
            i += 1;
        }
        assert(legal_matches(legal@, board@));
        let mut i: usize = 0;
        while i < moves_made.len()
            invariant
                i <= moves_made@.len(),
                b0 == fresh_board(size as int, s1, s2),
                s1 == old(shape1)@,
                s2 == old(shape2)@,
                shape1@ == s1,
                shape2@ == s2,
                b0.size == size,
                replay(b0, moves_made@.subrange(0, i as int)) == Ok::<BoardView, GameError>(board@),
                board@.wf(),
                board@.size == size,
                legal_matches(legal@, board@),
            decreases moves_made@.len() - i,
        {
            let (x, y) = moves_made[i];
            proof {
                assert(moves_made@.subrange(0, i as int + 1).drop_last() =~= moves_made@.subrange(0, i as int));
            }
            if x < 0 || y < 0 || x >= size || y >= size {
                proof {
                    lemma_replay_stops(b0, moves_made@, i as int + 1);
                }
                return Err(GameError::CoordinateOutOfRange);
            }
            if board.cell(x, y) != Tile::Empty {
                proof {
                    lemma_replay_stops(b0, moves_made@, i as int + 1);
                }
                return Err(GameError::AlreadyOccupied);
            }
            let idx = board.index_of(x, y);
            board.place_proof(x, y);
            legal.set(idx, false);
            assert(legal_matches(legal@, board@));
            i += 1;
        }
        assert(moves_made@.subrange(0, moves_made@.len() as int) =~= moves_made@);
        let root = Node {
            turn: None,
            phi: 1,
            delta: 1,
            state: Status::Unknown,
            parent: None,
            children: Vec::new(),
            position: Ghost(board@),
        };
        let key = position_hash(&board);
        let mut tree: HashMap<u64, Node> = HashMap::new();
        tree.insert(key, root);
        let p = PNS { tree, root: key, legal, board, draw_is_loss };
        proof {
            let nodes = p.nodes();
            assert(nodes.dom() =~= set![key]);
            assert forall|k: u64| nodes.dom().contains(k) implies #[trigger] node_ok(nodes, key, k) by {
                assert(k == key);
            }
        }
        Ok(p)
    }

    /// Depth-first proof-number search of the root, whose position is on
    /// the board, with unbounded thresholds. Proven when player one wins
    /// from the root, Disproven when it does not, Unknown when the search
    /// budget ran out first. The board is back at the root position at the
    /// end.
    pub fn dfpn(&mut self, root_key: u64) -> (r: Status)
        requires
            old(self).wf(),
            root_key == old(self).root,
            old(self).at(root_key),
        ensures
            final(self).wf(),
            final(self).root == old(self).root,
            final(self).at(final(self).root),
            final(self).board@ == old(self).board@,
            ({
                let n = final(self).nodes()[final(self).root];
                let len = n.children@.len() as int;
                &&& n.position@.over ==> n.state == prover_status(n.position@, final(self).draw_is_loss)
                    && n.phi == terminal_numbers(n.position@, final(self).draw_is_loss).0
                    && n.delta == terminal_numbers(n.position@, final(self).draw_is_loss).1
                &&& !n.position@.over ==> n.phi == min_delta(final(self).nodes(), n.children@, len)
                    && n.delta == sum_phi(final(self).nodes(), n.children@, len)
            }),
            ({
                let n = final(self).nodes()[final(self).root];
                let one = n.position@.mover() == Tile::One;
                r == if n.phi == 0 {
                    if one {
                        Status::Proven
                    } else {
                        Status::Disproven
                    }
                } else if n.delta == 0 {
                    if one {
                        Status::Disproven
                    } else {
                        Status::Proven
                    }
                } else {
                    Status::Unknown
                }
            }),
            final(self).nodes()[final(self).root].position@.over ==> r == prover_status(
                final(self).nodes()[final(self).root].position@,
                final(self).draw_is_loss,
            ),
    {
        proof {
            assert(node_ok(self.nodes(), self.root, self.root));
        }
        let mut budget: u64 = SEARCH_BUDGET;
        self.mid(root_key, INFINITY, INFINITY, &mut budget, Ghost(SEARCH_BUDGET as nat));
        let (phi, delta) = match self.tree.get(&root_key) {
            Some(n) => (n.phi, n.delta),
            None => {
                assert(false);
                return Status::Unknown;
            },
        };
        let one = match self.board.player_to_move() {
            Tile::One => true,
            _ => false,
        };
        if phi == 0 {
            if one {
                Status::Proven
            } else {
                Status::Disproven
            }
        } else if delta == 0 {
            if one {
                Status::Disproven
            } else {
                Status::Proven
            }
        } else {
            Status::Unknown
        }
    }
}

proof fn lemma_except_bounds(nodes: Map<u64, Node>, cs: Seq<u64>, n: int, i: int)
    requires
        0 <= n <= cs.len(),
        forall|j: int| 0 <= j < n ==> 0 <= #[trigger] nodes[cs[j]].phi && 0 <= nodes[cs[j]].delta,
    ensures
        0 <= min_delta_except(nodes, cs, n, i) <= INFINITY,
    decreases n,
{
    if n > 0 {
        lemma_except_bounds(nodes, cs, n - 1, i);
        assert(0 <= nodes[cs[n - 1]].phi && 0 <= nodes[cs[n - 1]].delta);
    }
}

/// Leaving out a node past the first `n` leaves the minimum over them.
proof fn lemma_except_is_min(nodes: Map<u64, Node>, cs: Seq<u64>, n: int)
    requires
        0 <= n,
    ensures
        min_delta_except(nodes, cs, n + 1, n) == min_delta(nodes, cs, n),
        forall|i: int| i >= n ==> #[trigger] min_delta_except(nodes, cs, n, i) == min_delta(nodes, cs, n),
    decreases n,
{
    if n > 0 {
        lemma_except_is_min(nodes, cs, n - 1);
        assert forall|i: int| i >= n implies #[trigger] min_delta_except(nodes, cs, n, i) == min_delta(nodes, cs, n) by {
            assert(min_delta_except(nodes, cs, n - 1, i) == min_delta(nodes, cs, n - 1));
        }
    }
    assert(min_delta_except(nodes, cs, n, n) == min_delta(nodes, cs, n));
    assert(min_delta_except(nodes, cs, n + 1, n) == min_delta_except(nodes, cs, n, n));
}

} // verus!
