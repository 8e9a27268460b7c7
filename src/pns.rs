use vstd::prelude::*;
use std::collections::HashMap;
use crate::game::{
    position_hash, table_children, has_digest, digest, Board, BoardView, GameError, Offset, Tile, fresh_board, lemma_place_undo_round_trip,
    lemma_replay_stops, negatable, replay,
};
use crate::graph::{
    INFINITY, NODE_LIMIT, fresh, lemma_numbers_pair, best_child, first_settling, settles, lemma_first_settling_frame,
    lemma_first_settling_stays, child_position, sat_add, min2, expanded_keys, first_min, legal_matches, min_disproof,
    min_proof, numbers, pick_value, status_of, sum_disproof, sum_proof,
};
pub use crate::graph::{Node, NodeType, Status};

verus! {

broadcast use vstd::std_specs::hash::group_hash_axioms;

/// What a node says of itself alone.
pub open spec fn node_local_ok(n: Node) -> bool {
    &&& n.position@.wf()
    &&& 0 <= n.proof
    &&& 0 <= n.disproof
    &&& (n.state != Status::Unknown ==> n.position@.over)
    &&& (n.expanded ==> !n.position@.over)
    &&& (n.proof == 0 ==> n.disproof == INFINITY)
    &&& (n.disproof == 0 ==> n.proof == INFINITY)
}

/// Node `k` agrees with its parent and its children.
pub open spec fn node_ok(nodes: Map<u64, Node>, root: u64, k: u64) -> bool {
    let n = nodes[k];
    &&& node_local_ok(n)
    &&& (k == root <==> n.parent is None)
    &&& (n.parent is Some ==> {
        let p = n.parent->Some_0;
        &&& nodes.dom().contains(p)
        &&& n.turn is Some
        &&& child_position(nodes[p].position@, n.turn->Some_0, n.position@)
    })
    &&& forall|j: int|
        0 <= j < n.children@.len() ==> nodes.dom().contains(#[trigger] n.children@[j])
            && nodes[n.children@[j]].parent == Some(k)
}

/// Node `k` is an unexpanded leaf whose numbers follow from its status.
pub open spec fn leaf_settled(nodes: Map<u64, Node>, k: u64) -> bool {
    &&& !nodes[k].expanded
    &&& nodes[k].children@.len() == 0
    &&& nodes[k].proof == numbers(nodes, k).0
    &&& nodes[k].disproof == numbers(nodes, k).1
}

/// Every node agrees with its parent and its children.
pub open spec fn links_ok(nodes: Map<u64, Node>, root: u64) -> bool {
    forall|k: u64| nodes.dom().contains(k) ==> #[trigger] node_ok(nodes, root, k)
}

/// Node `k` replaced by `n`, which keeps its move, parent and position and
/// has children that name it as their parent.
pub proof fn lemma_replace(nodes: Map<u64, Node>, root: u64, k: u64, n: Node)
    requires
        links_ok(nodes, root),
        nodes.dom().contains(k),
        n.turn == nodes[k].turn,
        n.parent == nodes[k].parent,
        n.position == nodes[k].position,
        node_local_ok(n),
        forall|j: int|
            0 <= j < n.children@.len() ==> nodes.dom().contains(#[trigger] n.children@[j])
                && nodes[n.children@[j]].parent == Some(k),
    ensures
        links_ok(nodes.insert(k, n), root),
{
    let m = nodes.insert(k, n);
    assert forall|k2: u64| m.dom().contains(k2) implies #[trigger] node_ok(m, root, k2) by {
        assert(node_ok(nodes, root, k2));
        let n2 = m[k2];
        assert forall|j: int| 0 <= j < n2.children@.len() implies m.dom().contains(#[trigger] n2.children@[j])
            && m[n2.children@[j]].parent == Some(k2) by {
            assert(nodes.dom().contains(nodes[k2].children@[j]) || k2 == k);
        }
    }
}

/// A new leaf `c` under `k`.
pub proof fn lemma_add_leaf(nodes: Map<u64, Node>, root: u64, k: u64, c: u64, n: Node)
    requires
        links_ok(nodes, root),
        nodes.dom().contains(k),
        nodes.dom().contains(root),
        !nodes.dom().contains(c),
        n.parent == Some(k),
        n.turn is Some,
        child_position(nodes[k].position@, n.turn->Some_0, n.position@),
        n.children@.len() == 0,
        node_local_ok(n),
    ensures
        links_ok(nodes.insert(c, n), root),
{
    let m = nodes.insert(c, n);
    assert forall|k2: u64| m.dom().contains(k2) implies #[trigger] node_ok(m, root, k2) by {
        if k2 != c {
            assert(node_ok(nodes, root, k2));
            let n2 = m[k2];
            assert forall|j: int| 0 <= j < n2.children@.len() implies m.dom().contains(#[trigger] n2.children@[j])
                && m[n2.children@[j]].parent == Some(k2) by {
                assert(nodes.dom().contains(nodes[k2].children@[j]));
            }
        }
    }
}

/// The most-proving node below `k`: from `k`, the best child while the node
/// is expanded and has children, for at most `fuel` steps.
pub open spec fn most_proving(nodes: Map<u64, Node>, k: u64, fuel: nat) -> u64
    decreases fuel,
{
    if fuel == 0 || !nodes[k].expanded || nodes[k].children@.len() == 0 {
        k
    } else {
        most_proving(nodes, best_child(nodes, k), (fuel - 1) as nat)
    }
}

/// `a + b`, capped at `INFINITY`, for numbers that are not negative.
fn saturating_sum(a: i32, b: i32) -> (r: i32)
    requires
        0 <= a,
        0 <= b,
    ensures
        r == sat_add(a as int, b as int),
{
    if a > INFINITY - b {
        INFINITY
    } else {
        a + b
    }
}

/// Changing a node outside `cs` leaves the sums and minima over `cs` alone.
proof fn lemma_numbers_frame(m: Map<u64, Node>, k: u64, n: Node, cs: Seq<u64>, len: int)
    requires
        0 <= len <= cs.len(),
        forall|j: int| 0 <= j < len ==> cs[j] != k,
    ensures
        sum_proof(m.insert(k, n), cs, len) == sum_proof(m, cs, len),
        sum_disproof(m.insert(k, n), cs, len) == sum_disproof(m, cs, len),
        min_proof(m.insert(k, n), cs, len) == min_proof(m, cs, len),
        min_disproof(m.insert(k, n), cs, len) == min_disproof(m, cs, len),
    decreases len,
{
    if len > 0 {
        lemma_numbers_frame(m, k, n, cs, len - 1);
    }
}

proof fn lemma_number_bounds(m: Map<u64, Node>, cs: Seq<u64>, len: int)
    requires
        0 <= len <= cs.len(),
        forall|j: int| 0 <= j < len ==> 0 <= #[trigger] m[cs[j]].proof && 0 <= m[cs[j]].disproof,
    ensures
        0 <= sum_proof(m, cs, len) <= INFINITY,
        0 <= sum_disproof(m, cs, len) <= INFINITY,
        0 <= min_proof(m, cs, len) <= INFINITY,
        0 <= min_disproof(m, cs, len) <= INFINITY,
    decreases len,
{
    if len > 0 {
        lemma_number_bounds(m, cs, len - 1);
        assert(0 <= m[cs[len - 1]].proof && 0 <= m[cs[len - 1]].disproof);
    }
}

/// The children of a node are other nodes.
proof fn lemma_children_differ(nodes: Map<u64, Node>, root: u64, k: u64)
    requires
        links_ok(nodes, root),
        nodes.dom().contains(k),
    ensures
        forall|j: int| 0 <= j < nodes[k].children@.len() ==> #[trigger] nodes[k].children@[j] != k,
{
    assert(node_ok(nodes, root, k));
    assert forall|j: int| 0 <= j < nodes[k].children@.len() implies #[trigger] nodes[k].children@[j] != k by {
        let c = nodes[k].children@[j];
        assert(node_ok(nodes, root, c));
    }
}

/// Proof-number search over a transposition table: each position is
/// stored once, under the digest of its board; the board stands at the node
/// being worked on, with the cells that are still free on it.
pub struct PNS {
    pub tree: HashMap<u64, Node>,
    pub root: u64,
    /// `legal[i]` tells whether the cell at position `i` of the row-major
    /// order is free.
    pub legal: Vec<bool>,
    pub board: Board,
    /// A draw counts as a loss for the prover.
    pub draw_is_loss: bool,
}

impl PNS {
    /// The node stored under `k`.
    fn node(&self, k: u64) -> (r: &Node)
        requires
            self.tree@.dom().contains(k),
        ensures
            *r == self.tree@[k],
    {
        self.tree.get(&k).unwrap()
    }

    /// Takes the node stored under `k` out of the table.
    fn take(&mut self, k: u64) -> (r: Node)
        requires
            old(self).tree@.dom().contains(k),
        ensures
            r == old(self).tree@[k],
            final(self).tree@ == old(self).tree@.remove(k),
            final(self).board == old(self).board,
            final(self).legal == old(self).legal,
            final(self).root == old(self).root,
            final(self).draw_is_loss == old(self).draw_is_loss,
    {
        self.tree.remove(&k).unwrap()
    }

    fn set_state(&mut self, k: u64, state: Status)
        requires
            old(self).tree@.dom().contains(k),
        ensures
            final(self).tree@ == old(self).tree@.insert(k, Node { state, ..old(self).tree@[k] }),
            final(self).board == old(self).board,
            final(self).legal == old(self).legal,
            final(self).root == old(self).root,
            final(self).draw_is_loss == old(self).draw_is_loss,
    {
        let mut n = self.take(k);
        n.state = state;
        self.tree.insert(k, n);
        assert(self.tree@ =~= old(self).tree@.insert(k, Node { state, ..old(self).tree@[k] }));
    }

    fn set_proofs(&mut self, k: u64, proof: i32, disproof: i32)
        requires
            old(self).tree@.dom().contains(k),
        ensures
            final(self).tree@ == old(self).tree@.insert(k, Node { proof, disproof, ..old(self).tree@[k] }),
            final(self).board == old(self).board,
            final(self).legal == old(self).legal,
            final(self).root == old(self).root,
            final(self).draw_is_loss == old(self).draw_is_loss,
    {
        let mut n = self.take(k);
        n.proof = proof;
        n.disproof = disproof;
        self.tree.insert(k, n);
        assert(self.tree@ =~= old(self).tree@.insert(k, Node { proof, disproof, ..old(self).tree@[k] }));
    }

    fn set_expanded(&mut self, k: u64)
        requires
            old(self).tree@.dom().contains(k),
        ensures
            final(self).tree@ == old(self).tree@.insert(k, Node { expanded: true, ..old(self).tree@[k] }),
            final(self).board == old(self).board,
            final(self).legal == old(self).legal,
            final(self).root == old(self).root,
            final(self).draw_is_loss == old(self).draw_is_loss,
    {
        let mut n = self.take(k);
        n.expanded = true;
        self.tree.insert(k, n);
        assert(self.tree@ =~= old(self).tree@.insert(k, Node { expanded: true, ..old(self).tree@[k] }));
    }

    fn set_children(&mut self, k: u64, children: Vec<u64>)
        requires
            old(self).tree@.dom().contains(k),
        ensures
            final(self).tree@ == old(self).tree@.insert(k, Node { children, ..old(self).tree@[k] }),
            final(self).board == old(self).board,
            final(self).legal == old(self).legal,
            final(self).root == old(self).root,
            final(self).draw_is_loss == old(self).draw_is_loss,
    {
        let ghost cs = children;
        let mut n = self.take(k);
        n.children = children;
        self.tree.insert(k, n);
        assert(self.tree@ =~= old(self).tree@.insert(k, Node { children: cs, ..old(self).tree@[k] }));
    }
    pub open spec fn nodes(&self) -> Map<u64, Node> {
        self.tree@
    }

    pub open spec fn wf(&self) -> bool {
        &&& self.nodes().dom().finite()
        &&& self.nodes().dom().contains(self.root)
        &&& links_ok(self.nodes(), self.root)
        &&& self.board@.wf()
        &&& legal_matches(self.legal@, self.board@)
    }

    /// The search cannot go on: the table has no room for another
    /// expansion, or the most-proving node below the root is a finished
    /// position or an expanded node whose positions were all reached
    /// elsewhere first.
    pub open spec fn stalled(&self) -> bool {
        let p = self.nodes()[self.root].position@;
        let k = most_proving(self.nodes(), self.root, (p.cells.len() - p.turn) as nat);
        ||| self.nodes().dom().len() + self.legal@.len() >= NODE_LIMIT
        ||| self.nodes()[k].position@.over
        ||| self.nodes()[k].expanded
    }

    /// The board stands at the position of node `k`.
    pub open spec fn at(&self, k: u64) -> bool {
        &&& self.nodes().dom().contains(k)
        &&& self.board@ == self.nodes()[k].position@
    }

    /// Records the terminal status of node `k`, whose position is on the
    /// board: Proven for a win of player one, Disproven for a win of player
    /// two, a draw by `draw_is_loss`, Unknown while the game goes on.
    pub fn evaluate(&mut self, key: u64)
        requires
            old(self).wf(),
            old(self).at(key),
        ensures
            final(self).wf(),
            final(self).nodes() == old(self).nodes().insert(
                key,
                Node { state: status_of(old(self).board@, old(self).draw_is_loss), ..old(self).nodes()[key] },
            ),
            final(self).board@ == old(self).board@,
            final(self).legal@ == old(self).legal@,
            final(self).root == old(self).root,
            final(self).draw_is_loss == old(self).draw_is_loss,
    {
        let state = if !self.board.is_over() {
            Status::Unknown
        } else {
            match self.board.winner() {
                Tile::One => Status::Proven,
                Tile::Two => Status::Disproven,
                Tile::Empty => if self.draw_is_loss {
                    Status::Disproven
                } else {
                    Status::Proven
                },
            }
        };
        let ghost nodes0 = self.nodes();
        proof {
            assert(node_ok(nodes0, self.root, key));
            lemma_replace(nodes0, self.root, key, Node { state, ..nodes0[key] });
        }
        self.set_state(key, state);
    }

    /// Sets the numbers of node `k`: from its children once it is expanded,
    /// from its status before.
    pub fn set_numbers(&mut self, key: u64)
        requires
            old(self).wf(),
            old(self).nodes().dom().contains(key),
        ensures
            final(self).wf(),
            final(self).nodes() == old(self).nodes().insert(
                key,
                Node {
                    proof: numbers(old(self).nodes(), key).0 as i32,
                    disproof: numbers(old(self).nodes(), key).1 as i32,
                    ..old(self).nodes()[key]
                },
            ),
            final(self).board@ == old(self).board@,
            final(self).legal@ == old(self).legal@,
            final(self).root == old(self).root,
            final(self).draw_is_loss == old(self).draw_is_loss,
            ({
                let n = final(self).nodes()[key];
                let cs = n.children@;
                let len = cs.len() as int;
                let nodes = final(self).nodes();
                &&& n.state == Status::Proven ==> n.proof == 0 && n.disproof == INFINITY
                &&& n.state == Status::Disproven ==> n.proof == INFINITY && n.disproof == 0
                &&& !n.expanded && n.state == Status::Unknown ==> n.proof == 1 && n.disproof == 1
                &&& n.expanded && n.node_type == NodeType::AND ==> n.proof == sum_proof(nodes, cs, len)
                    && n.disproof == min_disproof(nodes, cs, len)
                &&& n.expanded && n.node_type == NodeType::OR ==> n.proof == min_proof(nodes, cs, len)
                    && n.disproof == sum_disproof(nodes, cs, len)
            }),
    {
        let ghost nodes0 = self.nodes();
        proof {
            assert(node_ok(nodes0, self.root, key));
            lemma_children_differ(nodes0, self.root, key);
        }
        let node = self.node(key);
        let expanded = node.expanded;
        let node_type = node.node_type;
        let state = node.state;
        let len = node.children.len();
        let ghost cs = node.children@;
        proof {
            assert forall|j: int| 0 <= j < cs.len() implies 0 <= #[trigger] nodes0[cs[j]].proof && 0 <= nodes0[cs[j]].disproof by {
                assert(nodes0.dom().contains(cs[j]));
                assert(node_ok(nodes0, self.root, cs[j]));
            }
        }
        let (proof_number, disproof_number) = if expanded {
            let mut sum_p: i32 = 0;
            let mut sum_d: i32 = 0;
            let mut min_p: i32 = INFINITY;
            let mut min_d: i32 = INFINITY;
            let mut j: usize = 0;
            while j < len
                invariant
                    self.nodes() == nodes0,
                    self.wf(),
                    nodes0.dom().contains(key),
                    cs == nodes0[key].children@,
                    len == cs.len(),
                    j <= len,
                    sum_p == sum_proof(nodes0, cs, j as int),
                    sum_d == sum_disproof(nodes0, cs, j as int),
                    min_p == min_proof(nodes0, cs, j as int),
                    min_d == min_disproof(nodes0, cs, j as int),
                    forall|i: int| 0 <= i < cs.len() ==> 0 <= #[trigger] nodes0[cs[i]].proof && 0 <= nodes0[cs[i]].disproof,
                decreases len - j,
            {
                let c = self.node(key).children[j];
                proof {
                    assert(node_ok(nodes0, self.root, key));
                    assert(nodes0.dom().contains(cs[j as int]));
                    assert(node_ok(nodes0, self.root, c));
                    lemma_number_bounds(nodes0, cs, j as int);
                }
                let child = self.node(c);
                sum_p = saturating_sum(sum_p, child.proof);
                sum_d = saturating_sum(sum_d, child.disproof);
                if child.proof < min_p {
                    min_p = child.proof;
                }
                if child.disproof < min_d {
                    min_d = child.disproof;
                }
                j += 1;
            }
            match node_type {
                NodeType::AND => (sum_p, min_d),
                NodeType::OR => (min_p, sum_d),
            }
        } else {
            match state {
                Status::Disproven => (INFINITY, 0),
                Status::Proven => (0, INFINITY),
                Status::Unknown => (1, 1),
            }
        };
        proof {
            lemma_number_bounds(nodes0, cs, cs.len() as int);
            assert forall|j: int| 0 <= j < cs.len() implies 0 <= #[trigger] nodes0[cs[j]].proof && 0 <= nodes0[cs[j]].disproof
                && (nodes0[cs[j]].proof == 0 ==> nodes0[cs[j]].disproof == INFINITY) && (nodes0[cs[j]].disproof == 0
                ==> nodes0[cs[j]].proof == INFINITY) by {
                assert(nodes0.dom().contains(cs[j]));
                assert(node_ok(nodes0, self.root, cs[j]));
            }
            lemma_numbers_pair(nodes0, cs, cs.len() as int);
            let n2 = Node { proof: proof_number, disproof: disproof_number, ..nodes0[key] };
            lemma_replace(nodes0, self.root, key, n2);
            lemma_numbers_frame(nodes0, key, n2, cs, cs.len() as int);
        }
        self.set_proofs(key, proof_number, disproof_number);
    }

    /// A new leaf under node `k`, whose open position is on the board, for
    /// each free cell whose position is not yet in the table, in row-major
    /// order, with the other node type, unit numbers and Unknown status;
    /// they become the children of `k`. Positions already in the table are
    /// not added again.
    pub fn generate_children(&mut self, key: u64)
        requires
            old(self).wf(),
            old(self).at(key),
            !old(self).board@.over,
            !old(self).nodes()[key].expanded,
        ensures
            final(self).wf(),
            final(self).at(key),
            final(self).board@ == old(self).board@,
            final(self).legal@ == old(self).legal@,
            final(self).root == old(self).root,
            final(self).draw_is_loss == old(self).draw_is_loss,
            final(self).nodes().dom().len() <= old(self).nodes().dom().len() + old(self).board@.cells.len(),
            old(self).nodes().dom().subset_of(final(self).nodes().dom()),
            forall|k: u64|
                old(self).nodes().dom().contains(k) && k != key ==> final(self).nodes()[k] == old(self).nodes()[k],
            ({
                let n0 = old(self).nodes()[key];
                let n = final(self).nodes()[key];
                &&& n.turn == n0.turn && n.proof == n0.proof && n.disproof == n0.disproof
                &&& n.expanded == n0.expanded && n.state == n0.state && n.node_type == n0.node_type
                &&& n.parent == n0.parent && n.position == n0.position
            }),
            forall|j: int|
                0 <= j < final(self).nodes()[key].children@.len() ==> {
                    let c = final(self).nodes()[#[trigger] final(self).nodes()[key].children@[j]];
                    &&& !old(self).nodes().dom().contains(final(self).nodes()[key].children@[j])
                    &&& c.parent == Some(key)
                    &&& c.proof == 1 && c.disproof == 1
                    &&& !c.expanded
                    &&& c.state == Status::Unknown
                    &&& c.node_type != old(self).nodes()[key].node_type
                    &&& c.children@.len() == 0
                },
            forall|a: int, c: int|
                0 <= a < c < final(self).nodes()[key].children@.len() ==> #[trigger] final(self).nodes()[key].children@[a]
                    != #[trigger] final(self).nodes()[key].children@[c],
            ({
                let tc = table_children(old(self).nodes().dom(), old(self).board@, old(self).board@.cells.len() as int);
                let cs = final(self).nodes()[key].children@;
                &&& cs.len() == tc.len()
                &&& forall|j: int|
                    0 <= j < cs.len() ==> cs[j] == (#[trigger] tc[j]).0 && final(self).nodes()[cs[j]].turn == Some(tc[j].1)
            }),
    {
        let ghost nodes0 = self.nodes();
        let ghost b = self.board@;
        let node_type = match self.node(key).node_type {
            NodeType::AND => NodeType::OR,
            NodeType::OR => NodeType::AND,
        };
        let n = self.legal.len();
        let mut child_keys: Vec<u64> = Vec::new();
        let mut i: usize = 0;
        while i < n
            invariant
                self.board@ == b,
                self.legal@ == old(self).legal@,
                self.root == old(self).root,
                self.draw_is_loss == old(self).draw_is_loss,
                b == nodes0[key].position@,
                b.wf(),
                !b.over,
                legal_matches(self.legal@, b),
                n == b.cells.len(),
                i <= n,
                nodes0 == old(self).nodes(),
                nodes0.dom().contains(key),
                nodes0.dom().contains(self.root),
                self.nodes().dom().len() == nodes0.dom().len() + child_keys@.len(),
                forall|a: int, c: int|
                    0 <= a < c < child_keys@.len() ==> #[trigger] child_keys@[a] != #[trigger] child_keys@[c],
                child_keys@.len() <= i,
                child_keys@.len() == table_children(nodes0.dom(), b, i as int).len(),
                forall|j: int|
                    0 <= j < child_keys@.len() ==> child_keys@[j] == (#[trigger] table_children(nodes0.dom(), b, i as int)[j]).0
                        && self.nodes()[child_keys@[j]].turn == Some(table_children(nodes0.dom(), b, i as int)[j].1),
                forall|k: u64|
                    #[trigger] self.nodes().dom().contains(k) <==> nodes0.dom().contains(k) || has_digest(
                        table_children(nodes0.dom(), b, i as int),
                        k,
                    ),
                links_ok(self.nodes(), self.root),
                nodes0.dom().subset_of(self.nodes().dom()),
                forall|k: u64| #[trigger] nodes0.dom().contains(k) ==> self.nodes()[k] == nodes0[k],
                forall|j: int|
                    0 <= j < child_keys@.len() ==> {
                        let c = self.nodes()[#[trigger] child_keys@[j]];
                        &&& self.nodes().dom().contains(child_keys@[j])
                        &&& !nodes0.dom().contains(child_keys@[j])
                        &&& c.parent == Some(key)
                        &&& c.proof == 1 && c.disproof == 1
                        &&& !c.expanded
                        &&& c.state == Status::Unknown
                        &&& c.node_type == node_type
                        &&& c.children@.len() == 0
                    },
            decreases n - i,
        {
            let ghost prev = table_children(nodes0.dom(), b, i as int);
            if self.legal[i] {
                let (x, y) = self.board.coords(i);
                proof {
                    lemma_place_undo_round_trip(b, x as int, y as int);
                }
                self.board.place_proof(x, y);
                let h = position_hash(&self.board);
                self.board.undo(x, y);
                assert(h == digest(b.placed(x as int, y as int).cells, b.placed(x as int, y as int).player_one));
                if !self.tree.contains_key(&h) {
                    let child = Node {
                        turn: Some((x, y)),
                        proof: 1,
                        disproof: 1,
                        expanded: false,
                        state: Status::Unknown,
                        node_type,
                        parent: Some(key),
                        children: Vec::new(),
                        position: Ghost(b.placed(x as int, y as int)),
                    };
                    let ghost before = self.nodes();
                    let ghost keys_before = child_keys@;
                    proof {
                        lemma_add_leaf(before, self.root, key, h, child);
                    }
                    self.tree.insert(h, child);
                    child_keys.push(h);
                    assert forall|a: int, d: int|
                        0 <= a < d < child_keys@.len() implies #[trigger] child_keys@[a] != #[trigger] child_keys@[d] by {
                        if d == keys_before.len() {
                            assert(child_keys@[a] == keys_before[a]);
                            assert(before.dom().contains(keys_before[a]));
                        } else {
                            assert(child_keys@[a] == keys_before[a]);
                            assert(child_keys@[d] == keys_before[d]);
                        }
                    }
                    let ghost next = table_children(nodes0.dom(), b, i as int + 1);
                    assert(next == prev.push((h, (x, y))));
                    assert forall|j: int|
                        0 <= j < child_keys@.len() implies child_keys@[j] == (#[trigger] next[j]).0
                            && self.nodes()[child_keys@[j]].turn == Some(next[j].1) by {
                        if j < keys_before.len() {
                            assert(child_keys@[j] == keys_before[j]);
                            assert(before.dom().contains(keys_before[j]));
                            assert(prev[j] == next[j]);
                        }
                    }
                    assert forall|k: u64|
                        #[trigger] self.nodes().dom().contains(k) <==> nodes0.dom().contains(k) || has_digest(next, k) by {
                        if has_digest(prev, k) {
                            let j = choose|j: int| 0 <= j < prev.len() && (#[trigger] prev[j]).0 == k;
                            assert(next[j] == prev[j]);
                        }
                        if has_digest(next, k) && k != h {
                            let j = choose|j: int| 0 <= j < next.len() && (#[trigger] next[j]).0 == k;
                            assert(j < prev.len());
                            assert(next[j] == prev[j]);
                        }
                        if k == h {
                            assert(next[prev.len() as int].0 == h);
                        }
                    }
                    assert forall|j: int| 0 <= j < child_keys@.len() implies {
                        let cn = self.nodes()[#[trigger] child_keys@[j]];
                        &&& self.nodes().dom().contains(child_keys@[j])
                        &&& !nodes0.dom().contains(child_keys@[j])
                        &&& cn.parent == Some(key)
                        &&& cn.proof == 1 && cn.disproof == 1
                        &&& !cn.expanded
                        &&& cn.state == Status::Unknown
                        &&& cn.node_type == node_type
                        &&& cn.children@.len() == 0
                    } by {
                        if j < keys_before.len() {
                            assert(child_keys@[j] == keys_before[j]);
                            assert(before.dom().contains(keys_before[j]));
                        }
                    }
                } else {
                    assert(table_children(nodes0.dom(), b, i as int + 1) == prev);
                }
            } else {
                assert(table_children(nodes0.dom(), b, i as int + 1) == prev);
            }
            i += 1;
        }
        let ghost nodes1 = self.nodes();
        proof {
            assert(node_ok(nodes1, self.root, key));
        }
        let ghost new_node = Node { children: child_keys, ..nodes1[key] };
        proof {
            lemma_replace(nodes1, self.root, key, new_node);
        }
        self.set_children(key, child_keys);
    }

    /// Expands node `k`, whose open position is on the board: generates its
    /// children, then evaluates them one by one, each on the board and back,
    /// with the numbers its status gives; stops at the first child that
    /// settles `k` (proof 0 under OR, disproof 0 under AND). Marks `k`
    /// expanded.
    pub fn expand(&mut self, key: u64)
        requires
            old(self).wf(),
            old(self).at(key),
            !old(self).board@.over,
            !old(self).nodes()[key].expanded,
            old(self).nodes().dom().len() + old(self).board@.cells.len() + 1 < usize::MAX,
        ensures
            final(self).wf(),
            final(self).at(key),
            final(self).board@ == old(self).board@,
            final(self).root == old(self).root,
            final(self).draw_is_loss == old(self).draw_is_loss,
            final(self).nodes().dom().len() <= old(self).nodes().dom().len() + old(self).board@.cells.len(),
            old(self).nodes().dom().subset_of(final(self).nodes().dom()),
            forall|k: u64|
                old(self).nodes().dom().contains(k) && k != key ==> final(self).nodes()[k] == old(self).nodes()[k],
            final(self).nodes()[key].expanded,
            final(self).nodes()[key].proof == old(self).nodes()[key].proof,
            final(self).nodes()[key].disproof == old(self).nodes()[key].disproof,
            final(self).nodes()[key].node_type == old(self).nodes()[key].node_type,
            final(self).nodes()[key].position == old(self).nodes()[key].position,
            forall|j: int|
                0 <= j < final(self).nodes()[key].children@.len() ==> leaf_settled(
                    final(self).nodes(),
                    #[trigger] final(self).nodes()[key].children@[j],
                ),
            ({
                let nodes = final(self).nodes();
                let cs = nodes[key].children@;
                let f = first_settling(nodes, nodes[key].node_type, cs, cs.len() as int);
                &&& forall|j: int|
                    0 <= j < cs.len() && j <= f ==> (#[trigger] nodes[cs[j]]).state == status_of(
                        nodes[cs[j]].position@,
                        final(self).draw_is_loss,
                    )
                &&& forall|j: int| 0 <= j < cs.len() && f < j ==> (#[trigger] nodes[cs[j]]).state == Status::Unknown
            }),
            ({
                let tc = table_children(old(self).nodes().dom(), old(self).board@, old(self).board@.cells.len() as int);
                let cs = final(self).nodes()[key].children@;
                &&& cs.len() == tc.len()
                &&& forall|j: int|
                    0 <= j < cs.len() ==> cs[j] == (#[trigger] tc[j]).0 && final(self).nodes()[cs[j]].turn == Some(tc[j].1)
            }),
    {
        let ghost nodes0 = self.nodes();
        self.generate_children(key);
        let ghost nodes1 = self.nodes();
        let node_type = self.node(key).node_type;
        let len = self.node(key).children.len();
        let ghost cs = nodes1[key].children@;
        let mut j: usize = 0;
        while j < len
            invariant_except_break
                forall|i: int|
                    0 <= i < j ==> (#[trigger] self.nodes()[cs[i]]).state == status_of(
                        self.nodes()[cs[i]].position@,
                        self.draw_is_loss,
                    ) && !settles(node_type, self.nodes()[cs[i]]),
                forall|i: int| j <= i < len ==> (#[trigger] self.nodes()[cs[i]]).state == Status::Unknown,
                first_settling(self.nodes(), node_type, cs, j as int) == j,
            invariant
                self.wf(),
                self.at(key),
                self.board@ == old(self).board@,
                self.root == old(self).root,
                self.draw_is_loss == old(self).draw_is_loss,
                !self.board@.over,
                self.nodes().dom() == nodes1.dom(),
                links_ok(nodes1, self.root),
                nodes1.dom().contains(key),
                self.nodes()[key] == nodes1[key],
                cs == nodes1[key].children@,
                len == cs.len(),
                node_type == nodes1[key].node_type,
                j <= len,
                forall|k: u64| #[trigger] nodes1.dom().contains(k) && !cs.contains(k) ==> self.nodes()[k] == nodes1[k],
                forall|k: u64|
                    #[trigger] nodes1.dom().contains(k) ==> self.nodes()[k].position == nodes1[k].position
                        && self.nodes()[k].turn == nodes1[k].turn,
                forall|i: int| 0 <= i < len ==> leaf_settled(self.nodes(), #[trigger] cs[i]),
                forall|a: int, c: int| 0 <= a < c < len ==> #[trigger] cs[a] != #[trigger] cs[c],
            ensures
                j <= len,
                forall|i: int|
                    0 <= i < len && i <= first_settling(self.nodes(), node_type, cs, len as int) ==> (
                    #[trigger] self.nodes()[cs[i]]).state == status_of(
                        self.nodes()[cs[i]].position@,
                        self.draw_is_loss,
                    ),
                forall|i: int|
                    0 <= i < len && first_settling(self.nodes(), node_type, cs, len as int) < i ==> (
                    #[trigger] self.nodes()[cs[i]]).state == Status::Unknown,
            decreases len - j,
        {
            let c = self.node(key).children[j];
            proof {
                assert(node_ok(self.nodes(), self.root, key));
                assert(self.nodes().dom().contains(c));
                assert(node_ok(self.nodes(), self.root, c));
            }
            let turn = self.node(c).turn;
            let (x, y) = match turn {
                Some(m) => m,
                None => {
                    assert(false);
                    (0, 0)
                },
            };
            let ghost b0 = self.board@;
            let ghost l0 = self.legal@;
            proof {
                lemma_place_undo_round_trip(b0, x as int, y as int);
            }
            let idx = self.board.index_of(x, y);
            self.board.place_proof(x, y);
            self.legal.set(idx, false);
            assert(legal_matches(self.legal@, self.board@));
            let ghost before = self.nodes();
            self.evaluate(c);
            self.set_numbers(c);
            proof {
                lemma_children_differ(nodes1, self.root, key);
                assert forall|i: int| 0 <= i < len implies leaf_settled(self.nodes(), #[trigger] cs[i]) by {
                    assert(leaf_settled(before, cs[i]));
                }
                assert forall|i: int| 0 <= i < len && i != j implies #[trigger] self.nodes()[cs[i]] == before[cs[i]] by {
                    if i < j {
                        assert(cs[i] != cs[j as int]);
                    } else {
                        assert(cs[j as int] != cs[i]);
                    }
                }
                lemma_first_settling_frame(before, self.nodes(), node_type, cs, j as int);
            }
            self.board.undo(x, y);
            self.legal.set(idx, true);
            assert(self.legal@ =~= l0);
            let child = self.node(c);
            if (node_type == NodeType::OR && child.proof == 0) || (node_type == NodeType::AND && child.disproof == 0) {
                proof {
                    assert(first_settling(self.nodes(), node_type, cs, j as int + 1) == j);
                    lemma_first_settling_stays(self.nodes(), node_type, cs, j as int, len as int);
                }
                break;
            }
            j += 1;
        }
        let ghost nodes2 = self.nodes();
        proof {
            assert(node_ok(nodes2, self.root, key));
            lemma_replace(nodes2, self.root, key, Node { expanded: true, ..nodes2[key] });
        }
        self.set_expanded(key);
        proof {
            lemma_children_differ(nodes2, self.root, key);
            assert forall|i: int| 0 <= i < len implies #[trigger] self.nodes()[cs[i]] == nodes2[cs[i]] by {
                assert(cs[i] != key);
            }
            lemma_first_settling_frame(nodes2, self.nodes(), node_type, cs, len as int);
            let nodes3 = self.nodes();
            assert forall|i: int| 0 <= i < nodes3[key].children@.len() implies leaf_settled(
                nodes3,
                #[trigger] nodes3[key].children@[i],
            ) by {
                lemma_children_differ(nodes2, self.root, key);
                assert(leaf_settled(nodes2, cs[i]));
            }
        }
    }

    /// Descends from node `k`, whose position is on the board, to the
    /// most-proving node: at each expanded node with children, the child
    /// with the least proof number under OR, the least disproof number under
    /// AND, the first of equals; each move is played on the board on the way
    /// down.
    pub fn select_mpn(&mut self, key: u64) -> (r: u64)
        requires
            old(self).wf(),
            old(self).at(key),
        ensures
            final(self).wf(),
            final(self).at(r),
            final(self).nodes() == old(self).nodes(),
            final(self).root == old(self).root,
            final(self).draw_is_loss == old(self).draw_is_loss,
            !final(self).nodes()[r].expanded || final(self).nodes()[r].children@.len() == 0,
            final(self).legal@.len() == old(self).legal@.len(),
            r == most_proving(
                old(self).nodes(),
                key,
                (old(self).board@.cells.len() - old(self).board@.turn) as nat,
            ),
    {
        let ghost nodes = self.nodes();
        let ghost fuel0 = (self.board@.cells.len() - self.board@.turn) as nat;
        proof {
            crate::game::lemma_count_at_most_len(self.board@.cells);
        }
        let mut cur = key;
        while self.node(cur).expanded && self.node(cur).children.len() > 0
            invariant
                self.wf(),
                self.at(cur),
                self.nodes() == nodes,
                self.root == old(self).root,
                self.draw_is_loss == old(self).draw_is_loss,
                self.board@.turn <= self.board@.cells.len(),
                self.legal@.len() == old(self).legal@.len(),
                most_proving(nodes, key, fuel0) == most_proving(
                    nodes,
                    cur,
                    (self.board@.cells.len() - self.board@.turn) as nat,
                ),
            decreases self.board@.cells.len() - self.board@.turn,
        {
            proof {
                assert(node_ok(nodes, self.root, cur));
            }
            let node_type = self.node(cur).node_type;
            let len = self.node(cur).children.len();
            let ghost cs = nodes[cur].children@;
            let first = self.node(cur).children[0];
            proof {
                assert(nodes.dom().contains(cs[0]));
            }
            let mut best: usize = 0;
            let mut value: i32 = match node_type {
                NodeType::OR => self.node(first).proof,
                NodeType::AND => self.node(first).disproof,
            };
            let mut j: usize = 1;
            while j < len
                invariant
                    self.nodes() == nodes,
                    nodes.dom().contains(cur),
                    node_ok(nodes, self.root, cur),
                    cs == nodes[cur].children@,
                    len == cs.len(),
                    node_type == nodes[cur].node_type,
                    1 <= j <= len,
                    best == first_min(nodes, node_type, cs, j as int),
                    best < j,
                    value == pick_value(nodes, node_type, cs[best as int]),
                decreases len - j,
            {
                let c = self.node(cur).children[j];
                proof {
                    assert(nodes.dom().contains(cs[j as int]));
                }
                let v = match node_type {
                    NodeType::OR => self.node(c).proof,
                    NodeType::AND => self.node(c).disproof,
                };
                if v < value {
                    best = j;
                    value = v;
                }
                j += 1;
            }
            let next = self.node(cur).children[best];
            proof {
                assert(nodes.dom().contains(cs[best as int]));
                assert(node_ok(nodes, self.root, next));
                assert(next == best_child(nodes, cur));
            }
            let (x, y) = match self.node(next).turn {
                Some(m) => m,
                None => {
                    assert(false);
                    (0, 0)
                },
            };
            proof {
                lemma_place_undo_round_trip(self.board@, x as int, y as int);
            }
            let idx = self.board.index_of(x, y);
            self.board.place_proof(x, y);
            self.legal.set(idx, false);
            assert(legal_matches(self.legal@, self.board@));
            cur = next;
        }
        cur
    }

    /// Takes back the moves from node `k` up to the root.
    fn climb_to_root(&mut self, key: u64)
        requires
            old(self).wf(),
            old(self).at(key),
        ensures
            final(self).wf(),
            final(self).at(final(self).root),
            final(self).nodes() == old(self).nodes(),
            final(self).root == old(self).root,
            final(self).draw_is_loss == old(self).draw_is_loss,
    {
        let mut cur = key;
        while cur != self.root
            invariant
                self.wf(),
                self.at(cur),
                self.nodes() == old(self).nodes(),
                self.root == old(self).root,
                self.draw_is_loss == old(self).draw_is_loss,
            decreases self.board@.turn,
        {
            proof {
                assert(node_ok(self.nodes(), self.root, cur));
            }
            let node = self.node(cur);
            let (parent, (x, y)) = match (node.parent, node.turn) {
                (Some(p), Some(m)) => (p, m),
                _ => {
                    assert(false);
                    (0, (0, 0))
                },
            };
            self.step_up(cur, parent, x, y);
            cur = parent;
        }
    }

    /// Takes back the move (x, y) that led from `parent` to node `k`.
    fn step_up(&mut self, key: u64, parent: u64, x: i32, y: i32)
        requires
            old(self).wf(),
            old(self).at(key),
            old(self).nodes()[key].parent == Some(parent),
            old(self).nodes()[key].turn == Some((x, y)),
        ensures
            final(self).wf(),
            final(self).at(parent),
            final(self).board@.turn < old(self).board@.turn,
            final(self).nodes() == old(self).nodes(),
            final(self).root == old(self).root,
            final(self).draw_is_loss == old(self).draw_is_loss,
    {
        let ghost nodes = self.nodes();
        proof {
            assert(node_ok(nodes, self.root, key));
            assert(node_ok(nodes, self.root, parent));
            let pp = nodes[parent].position@;
            lemma_place_undo_round_trip(pp, x as int, y as int);
        }
        let ghost l0 = self.legal@;
        let idx = self.board.index_of(x, y);
        self.board.undo(x, y);
        self.legal.set(idx, true);
        assert(legal_matches(self.legal@, self.board@));
    }

    /// Recomputes the numbers from node `k`, whose position is on the board,
    /// toward the root, taking each move back on the way up. Stops at the
    /// root, or at the first node whose proof number the recomputation left
    /// as it was, and returns that node.
    pub fn update_ancestors(&mut self, key: u64, root_key: u64) -> (r: u64)
        requires
            old(self).wf(),
            old(self).at(key),
            root_key == old(self).root,
        ensures
            final(self).wf(),
            final(self).at(r),
            final(self).root == old(self).root,
            final(self).draw_is_loss == old(self).draw_is_loss,
            final(self).nodes().dom() == old(self).nodes().dom(),
            forall|k: u64|
                #[trigger] old(self).nodes().dom().contains(k) ==> final(self).nodes()[k].expanded == old(
                    self,
                ).nodes()[k].expanded && final(self).nodes()[k].position == old(self).nodes()[k].position,
            r == root_key || final(self).nodes()[r].proof == old(self).nodes()[r].proof,
            final(self).nodes()[r].proof == numbers(final(self).nodes(), r).0,
            final(self).nodes()[r].disproof == numbers(final(self).nodes(), r).1,
            forall|k: u64|
                #[trigger] old(self).nodes().dom().contains(k) && final(self).nodes()[k] != old(self).nodes()[k]
                    ==> fresh(final(self).nodes(), k),
    {
        let mut cur = key;
        loop
            invariant
                self.wf(),
                self.at(cur),
                self.root == old(self).root,
                root_key == self.root,
                self.draw_is_loss == old(self).draw_is_loss,
                self.nodes().dom() == old(self).nodes().dom(),
                forall|k: u64|
                    #[trigger] old(self).nodes().dom().contains(k) ==> self.nodes()[k].expanded == old(
                        self,
                    ).nodes()[k].expanded && self.nodes()[k].position == old(self).nodes()[k].position,
                forall|k: u64|
                    #[trigger] self.nodes().dom().contains(k) && self.nodes()[k] != old(self).nodes()[k] ==> self.board@.turn
                        < self.nodes()[k].position@.turn && fresh(self.nodes(), k),
            decreases self.board@.turn,
        {
            let old_proof = self.node(cur).proof;
            let ghost before = self.nodes();
            proof {
                lemma_children_differ(before, self.root, cur);
            }
            self.set_numbers(cur);
            proof {
                lemma_numbers_frame(before, cur, self.nodes()[cur], before[cur].children@, before[cur].children@.len() as int);
                let after = self.nodes();
                assert(numbers(after, cur) == numbers(before, cur));
                assert(fresh(after, cur));
                assert forall|k: u64| #[trigger] after.dom().contains(k) && after[k] != old(self).nodes()[k] && k != cur
                    implies fresh(after, k) by {
                    assert(before[k] != old(self).nodes()[k]);
                    assert(fresh(before, k));
                    assert(node_ok(before, self.root, k));
                    let cs = before[k].children@;
                    assert forall|j: int| 0 <= j < cs.len() implies cs[j] != cur by {
                        assert(before.dom().contains(cs[j]));
                        assert(node_ok(before, self.root, cs[j]));
                    }
                    lemma_numbers_frame(before, cur, after[cur], cs, cs.len() as int);
                }
                assert forall|k: u64|
                    #[trigger] old(self).nodes().dom().contains(k) && after[k] != old(self).nodes()[k] implies fresh(
                        after,
                        k,
                    ) by {
                    assert(after.dom().contains(k));
                }
            }
            if self.node(cur).proof == old_proof || cur == root_key {
                return cur;
            }
            proof {
                assert(node_ok(self.nodes(), self.root, cur));
            }
            let node = self.node(cur);
            let (parent, (x, y)) = match (node.parent, node.turn) {
                (Some(p), Some(m)) => (p, m),
                _ => {
                    assert(false);
                    (0, (0, 0))
                },
            };
            self.step_up(cur, parent, x, y);
            cur = parent;
        }
    }

    /// A search of the position reached from a new board by `moves_made`,
    /// with a root node of unit numbers: an OR node when player one is to
    /// move, an AND node otherwise. Each shape is left as it was given.
    pub fn setup(
        size: i32,
        shape1: &mut Vec<Offset>,
        shape2: &mut Vec<Offset>,
        draw_is_loss: bool,
        moves_made: Vec<Offset>,
    ) -> (r: Result<PNS, GameError>)
        requires
            negatable(old(shape1)@),
            negatable(old(shape2)@),
            size * size <= usize::MAX,
        ensures
            final(shape1)@ == old(shape1)@,
            final(shape2)@ == old(shape2)@,
            size <= 0 <==> r == Err::<PNS, GameError>(GameError::IllegalBoardSize),
            size > 0 ==> match replay(fresh_board(size as int, old(shape1)@, old(shape2)@), moves_made@) {
                Err(e) => r == Err::<PNS, GameError>(e),
                Ok(b) => r is Ok && {
                    let p = r->Ok_0;
                    let n = p.nodes()[p.root];
                    &&& p.wf()
                    &&& p.at(p.root)
                    &&& p.board@ == b
                    &&& p.draw_is_loss == draw_is_loss
                    &&& p.nodes().dom() == set![p.root]
                    &&& n.turn is None && n.children@.len() == 0
                    &&& n.proof == 1 && n.disproof == 1
                    &&& !n.expanded && n.state == Status::Unknown
                    &&& n.node_type == if moves_made@.len() % 2 == 0 {
                        NodeType::OR
                    } else {
                        NodeType::AND
                    }
                },
            },
    {
        let ghost s1 = shape1@;
        let ghost s2 = shape2@;
        let mut board = match Board::setup(size, shape1, shape2) {
            Ok(b) => b,
            Err(e) => {
                return Err(e);
            },
        };
        let ghost b0 = board@;
        let n = board.field.len();
        let mut legal: Vec<bool> = Vec::new();
        let mut i: usize = 0;
        while i < n
            invariant
                i <= n,
                n == b0.cells.len(),
                legal@.len() == i,
                forall|j: int| 0 <= j < i ==> legal@[j],
            decreases n - i,
        {
            legal.push(true);
            i += 1;
        }
        assert(legal_matches(legal@, board@));
        let mut i: usize = 0;
        while i < moves_made.len()
            invariant
                i <= moves_made@.len(),
                b0 == fresh_board(size as int, s1, s2),
                s1 == old(shape1)@,
                s2 == old(shape2)@,
                shape1@ == s1,
                shape2@ == s2,
                b0.size == size,
                replay(b0, moves_made@.subrange(0, i as int)) == Ok::<BoardView, GameError>(board@),
                board@.wf(),
                board@.size == size,
                legal_matches(legal@, board@),
            decreases moves_made@.len() - i,
        {
            let (x, y) = moves_made[i];
            proof {
                assert(moves_made@.subrange(0, i as int + 1).drop_last() =~= moves_made@.subrange(0, i as int));
            }
            if x < 0 || y < 0 || x >= size || y >= size {
                proof {
                    lemma_replay_stops(b0, moves_made@, i as int + 1);
                }
                return Err(GameError::CoordinateOutOfRange);
            }
            if board.cell(x, y) != Tile::Empty {
                proof {
                    lemma_replay_stops(b0, moves_made@, i as int + 1);
                }
                return Err(GameError::AlreadyOccupied);
            }
            let idx = board.index_of(x, y);
            board.place_proof(x, y);
            legal.set(idx, false);
            assert(legal_matches(legal@, board@));
            i += 1;
        }
        assert(moves_made@.subrange(0, moves_made@.len() as int) =~= moves_made@);
        let node_type = if moves_made.len() % 2 == 0 {
            NodeType::OR
        } else {
            NodeType::AND
        };
        let root = Node {
            turn: None,
            proof: 1,
            disproof: 1,
            expanded: false,
            state: Status::Unknown,
            node_type,
            parent: None,
            children: Vec::new(),
            position: Ghost(board@),
        };
        let key = position_hash(&board);
        let mut tree: HashMap<u64, Node> = HashMap::new();
        tree.insert(key, root);
        let p = PNS { tree, root: key, legal, board, draw_is_loss };
        proof {
            let nodes = p.nodes();
            assert(nodes.dom() =~= set![key]);
            assert forall|k: u64| nodes.dom().contains(k) implies #[trigger] node_ok(nodes, key, k) by {
                assert(k == key);
            }
        }
        Ok(p)
    }

    /// Proof-number search from the root, whose position is on the board:
    /// until the root is proven (proof number 0) or disproven (disproof
    /// number 0), selects the most-proving node from the root, expands it,
    /// updates its ancestors and goes back to the root. The search also ends
    /// when the most-proving node is a finished game, or an expanded node
    /// whose positions were all reached elsewhere first, neither of which
    /// can be expanded, or when the table has no room for another
    /// expansion. The board is back at the root position at the end.
    /// Returns the root's proof and disproof numbers.
    pub fn pns(&mut self, root_key: u64) -> (r: (i32, i32))
        requires
            old(self).wf(),
            root_key == old(self).root,
            old(self).at(root_key),
        ensures
            final(self).wf(),
            final(self).root == old(self).root,
            final(self).at(final(self).root),
            final(self).board@ == old(self).board@,
            final(self).draw_is_loss == old(self).draw_is_loss,
            r.0 == final(self).nodes()[final(self).root].proof,
            r.1 == final(self).nodes()[final(self).root].disproof,
            r.0 == 0 ==> r.1 == INFINITY,
            r.1 == 0 ==> r.0 == INFINITY,
            r.0 != 0 && r.1 != 0 ==> final(self).stalled(),
    {
        let ghost b0 = self.board@;
        self.evaluate(root_key);
        self.set_numbers(root_key);
        loop
            invariant
                self.wf(),
                self.root == old(self).root,
                root_key == self.root,
                self.draw_is_loss == old(self).draw_is_loss,
                self.at(root_key),
                self.board@ == b0,
                self.nodes()[self.root].position@ == b0,
            ensures
                self.nodes()[self.root].proof == 0 || self.nodes()[self.root].disproof == 0 || self.stalled(),
            decreases usize::MAX - expanded_keys(self.nodes()).len(),
        {
            let root = self.node(root_key);
            if root.proof == 0 || root.disproof == 0 {
                break;
            }
            let used = self.tree.len() as u64;
            let cells = self.legal.len() as u64;
            if cells >= NODE_LIMIT || used >= NODE_LIMIT - cells {
                break;
            }
            let ghost nodes0 = self.nodes();
            assert(nodes0.dom().len() + self.board@.cells.len() + 1 < usize::MAX);
            let mpn = self.select_mpn(root_key);
            if self.board.is_over() || self.node(mpn).expanded {
                self.climb_to_root(mpn);
                break;
            }
            self.expand(mpn);
            let ghost nodes1 = self.nodes();
            let stop = self.update_ancestors(mpn, root_key);
            self.climb_to_root(stop);
            proof {
                let nodes2 = self.nodes();
                let e0 = expanded_keys(nodes0);
                let e2 = expanded_keys(nodes2);
                vstd::set_lib::lemma_len_subset(e0, nodes0.dom());
                assert(e0.insert(mpn).subset_of(e2)) by {
                    assert forall|k: u64| e0.insert(mpn).contains(k) implies e2.contains(k) by {
                        assert(nodes2.dom().contains(k));
                        if k != mpn {
                            assert(nodes1[k] == nodes0[k]);
                        }
                    }
                }
                assert(e2.subset_of(nodes2.dom()));
                vstd::set_lib::lemma_len_subset(e2, nodes2.dom());
                vstd::set_lib::lemma_len_subset(e0.insert(mpn), e2);
                assert(!e0.contains(mpn));
                assert(e0.insert(mpn).len() == e0.len() + 1);
                assert(nodes2.dom().len() < usize::MAX);
                assert(e0.len() < e2.len());
                assert(e2.len() < usize::MAX);
                assert(nodes2[self.root].position == nodes0[self.root].position);
            }
        }
        let root = self.node(root_key);
        proof {
            assert(node_ok(self.nodes(), self.root, self.root));
        }
        (root.proof, root.disproof)
    }
}

} // verus!
