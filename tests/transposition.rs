use gomoku::game::{GameError, Tile};
use gomoku::graph::INFINITY;
use gomoku::pns::{NodeType, Status, PNS};

fn stub() -> Vec<(i32, i32)> {
    vec![(0, 0), (1, 0)]
}

fn table_solver(size: i32, draw_is_loss: bool, moves: Vec<(i32, i32)>) -> PNS {
    let mut s1 = stub();
    let mut s2 = stub();
    match PNS::setup(size, &mut s1, &mut s2, draw_is_loss, moves) {
        Ok(p) => p,
        Err(e) => panic!("setup failed: {:?}", e),
    }
}

#[test]
fn table_pns_proves_one_move_win() {
    let mut p = table_solver(3, false, vec![(0, 0), (2, 2)]);
    let root = p.root;
    assert_eq!(p.pns(root), (0, INFINITY));
    assert_eq!(p.board.turn, 2);
    assert_eq!(p.board.cell(0, 0), Tile::One);
    assert_eq!(p.legal.iter().filter(|l| **l).count(), 7);
}

#[test]
fn table_pns_draw_counts_by_flag() {
    let mut p = table_solver(1, false, vec![]);
    let root = p.root;
    assert_eq!(p.pns(root), (0, INFINITY));
    let mut q = table_solver(1, true, vec![]);
    let root = q.root;
    assert_eq!(q.pns(root), (INFINITY, 0));
}

#[test]
fn table_pns_two_by_two_is_resolved() {
    let mut p = table_solver(2, false, vec![]);
    let root = p.root;
    let (proof, disproof) = p.pns(root);
    assert!(proof == 0 || disproof == 0);
    assert_eq!(p.board.turn, 0);
}

#[test]
fn table_children_follow_free_cells() {
    let mut p = table_solver(2, false, vec![(1, 1)]);
    let root = p.root;
    assert_eq!(p.tree[&root].node_type, NodeType::AND);
    p.evaluate(root);
    assert_eq!(p.tree[&root].state, Status::Unknown);
    p.expand(root);
    let children = p.tree[&root].children.clone();
    assert_eq!(children.len(), 3);
    let moves: Vec<Option<(i32, i32)>> = children.iter().map(|c| p.tree[c].turn).collect();
    assert_eq!(moves, vec![Some((0, 0)), Some((1, 0)), Some((0, 1))]);
    for c in &children {
        assert_eq!(p.tree[c].node_type, NodeType::OR);
    }
    p.set_numbers(root);
    assert!(p.tree[&root].expanded);
}

#[test]
fn table_setup_checks_moves() {
    let mut s1 = stub();
    let mut s2 = stub();
    assert!(matches!(
        PNS::setup(2, &mut s1, &mut s2, false, vec![(0, -1)]),
        Err(GameError::CoordinateOutOfRange)
    ));
    assert!(matches!(
        PNS::setup(2, &mut s1, &mut s2, true, vec![(0, 1), (0, 1)]),
        Err(GameError::AlreadyOccupied)
    ));
}
