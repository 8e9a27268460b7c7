use gomoku::game::{Board, GameError, Tile};
use gomoku::graph::{NodeType, Status, INFINITY, PNS};
use gomoku::tree::{simulate_alphabeta, simulate_minimax, Tree};

fn stub() -> Vec<(i32, i32)> {
    vec![(0, 0), (1, 0)]
}

fn fresh(size: i32) -> (Board, Tree) {
    let mut s1 = stub();
    let mut s2 = stub();
    let b = match Board::setup(size, &mut s1, &mut s2) {
        Ok(b) => b,
        Err(e) => panic!("setup failed: {:?}", e),
    };
    (b, Tree::new(size))
}

fn solver(size: i32, draw_is_loss: bool, moves: Vec<(i32, i32)>) -> PNS {
    let mut s1 = stub();
    let mut s2 = stub();
    match PNS::setup(size, &mut s1, &mut s2, draw_is_loss, moves) {
        Ok(p) => p,
        Err(e) => panic!("setup failed: {:?}", e),
    }
}

#[test]
fn minimax_first_player_wins_two_by_two() {
    let (mut b, mut t) = fresh(2);
    assert_eq!(t.minimax(&mut b, true), 1);
    assert_eq!(b.turn, 0);
    assert!(t.legal.iter().all(|l| *l));
}

#[test]
fn alphabeta_matches_minimax() {
    let (mut b, mut t) = fresh(2);
    assert_eq!(t.alphabeta(&mut b, true, -2, 2), 1);
    let (mut b3, mut t3) = fresh(3);
    assert_eq!(t3.alphabeta(&mut b3, true, -2, 2), 1);
    assert_eq!(b3.turn, 0);
}

#[test]
fn alphabeta_fails_high_at_beta() {
    let (mut b, mut t) = fresh(2);
    let r = t.alphabeta(&mut b, true, -2, 0);
    assert!(r >= 0);
}

#[test]
fn evaluate_scores_the_winner() {
    let (mut b, t) = fresh(3);
    assert_eq!(t.evaluate(&b), 0);
    assert_eq!(b.place(0, 0), Ok(()));
    assert_eq!(b.place(2, 2), Ok(()));
    assert_eq!(b.place(1, 0), Ok(()));
    assert_eq!(t.evaluate(&b), 1);
    let (mut c, t2) = fresh(3);
    assert_eq!(c.place(0, 0), Ok(()));
    assert_eq!(c.place(2, 2), Ok(()));
    assert_eq!(c.place(1, 1), Ok(()));
    assert_eq!(c.place(2, 1), Ok(()));
    assert_eq!(t2.evaluate(&c), -1);
}

#[test]
fn expand_lists_free_cells() {
    let (mut b, mut t) = fresh(2);
    b.place_proof(1, 0);
    t.legal[1] = false;
    assert_eq!(t.expand(&b), vec![(0, 0), (0, 1), (1, 1)]);
}

#[test]
fn calculate_leaves_the_board_alone() {
    let (b, t) = fresh(3);
    let c = t.calculate(&b, 1, 2);
    assert_eq!(c.cell(1, 2), Tile::One);
    assert_eq!(b.cell(1, 2), Tile::Empty);
    assert_eq!(c.player_to_move(), Tile::Two);
}

#[test]
fn simulations_of_one_cell_are_draws() {
    assert_eq!(simulate_minimax(1, &mut stub(), &mut stub()), Ok(0));
    assert_eq!(simulate_alphabeta(1, &mut stub(), &mut stub()), Ok(0));
}

#[test]
fn simulations_after_centre_opening() {
    // Player one in the centre of a 3 x 3 board; player one still forces a pair.
    assert_eq!(simulate_minimax(3, &mut stub(), &mut stub()), Ok(1));
    assert_eq!(simulate_alphabeta(3, &mut stub(), &mut stub()), Ok(1));
}

#[test]
fn simulations_reject_bad_size() {
    assert_eq!(simulate_minimax(0, &mut stub(), &mut stub()), Err(GameError::IllegalBoardSize));
    assert_eq!(simulate_alphabeta(-2, &mut stub(), &mut stub()), Err(GameError::IllegalBoardSize));
}

#[test]
fn pns_proves_one_move_win() {
    let mut p = solver(3, false, vec![(0, 0), (2, 2)]);
    let root = p.root;
    assert_eq!(p.pns(root), (0, INFINITY));
    assert_eq!(p.board.turn, 2);
    assert_eq!(p.board.cell(0, 0), Tile::One);
    assert_eq!(p.board.cell(2, 2), Tile::Two);
    assert_eq!(p.legal.iter().filter(|l| **l).count(), 7);
}

#[test]
fn pns_proves_first_player_win_two_by_two() {
    let mut p = solver(2, false, vec![]);
    let root = p.root;
    assert_eq!(p.pns(root), (0, INFINITY));
    assert_eq!(p.board.turn, 0);
}

#[test]
fn pns_draw_counts_by_flag() {
    let mut p = solver(1, false, vec![]);
    let root = p.root;
    assert_eq!(p.pns(root), (0, INFINITY));
    let mut q = solver(1, true, vec![]);
    let root = q.root;
    assert_eq!(q.pns(root), (INFINITY, 0));
}

#[test]
fn pns_disproves_a_forced_draw_counted_as_loss() {
    // Player two fills the last cell without a pair for anyone.
    let mut p = solver(2, true, vec![(0, 0), (1, 0), (1, 1)]);
    let root = p.root;
    assert_eq!(p.pns(root), (INFINITY, 0));
}

#[test]
fn pns_setup_checks_moves() {
    let mut s1 = stub();
    let mut s2 = stub();
    assert!(matches!(
        PNS::setup(3, &mut s1, &mut s2, false, vec![(0, 0), (3, 1)]),
        Err(GameError::CoordinateOutOfRange)
    ));
    assert!(matches!(
        PNS::setup(3, &mut s1, &mut s2, false, vec![(0, 0), (0, 0)]),
        Err(GameError::AlreadyOccupied)
    ));
    assert!(matches!(
        PNS::setup(0, &mut s1, &mut s2, false, vec![]),
        Err(GameError::IllegalBoardSize)
    ));
}

#[test]
fn pns_root_kind_follows_side_to_move() {
    let mut p = solver(3, false, vec![(1, 1)]);
    let root = p.root;
    p.evaluate(root);
    p.set_numbers(root);
    let mpn = p.select_mpn(root);
    assert_eq!(mpn, root);
    p.expand(root);
    let _ = NodeType::AND;
    let _ = Status::Unknown;
    assert_eq!(p.legal.iter().filter(|l| **l).count(), 8);
}

#[test]
fn pns_numbers_follow_children() {
    let mut p = solver(2, false, vec![]);
    let root = p.root;
    p.evaluate(root);
    p.set_numbers(root);
    assert_eq!((p.node(root).proof, p.node(root).disproof), (1, 1));
    p.expand(root);
    let children = p.node(root).children.clone();
    assert_eq!(children.len(), 4);
    for c in &children {
        assert_eq!(p.node(*c).node_type, NodeType::AND);
        assert_eq!(p.node(*c).state, Status::Unknown);
        assert_eq!((p.node(*c).proof, p.node(*c).disproof), (1, 1));
    }
    p.set_numbers(root);
    assert_eq!(p.node(root).node_type, NodeType::OR);
    assert_eq!((p.node(root).proof, p.node(root).disproof), (1, 4));
}

#[test]
fn pns_expansion_stops_at_a_proving_child() {
    let mut p = solver(3, false, vec![(0, 0), (2, 2)]);
    let root = p.root;
    p.evaluate(root);
    p.set_numbers(root);
    p.expand(root);
    let children = p.node(root).children.clone();
    assert_eq!(children.len(), 7);
    let first = children[0];
    assert_eq!(p.node(first).turn, Some((1, 0)));
    assert_eq!(p.node(first).state, Status::Proven);
    assert_eq!((p.node(first).proof, p.node(first).disproof), (0, INFINITY));
    let second = children[1];
    assert_eq!(p.node(second).state, Status::Unknown);
    p.set_numbers(root);
    assert_eq!((p.node(root).proof, p.node(root).disproof), (0, INFINITY));
}

#[test]
fn pns_disproven_leaf_numbers() {
    let mut p = solver(3, false, vec![(0, 0), (1, 1), (2, 2), (1, 0)]);
    let root = p.root;
    p.evaluate(root);
    p.set_numbers(root);
    assert_eq!(p.node(root).state, Status::Disproven);
    assert_eq!((p.node(root).proof, p.node(root).disproof), (INFINITY, 0));
}

#[test]
fn pns_descends_to_first_least_proof_child_and_back() {
    let mut p = solver(2, false, vec![]);
    let root = p.root;
    p.evaluate(root);
    p.set_numbers(root);
    p.expand(root);
    p.set_numbers(root);
    let children = p.node(root).children.clone();
    let mpn = p.select_mpn(root);
    assert_eq!(mpn, children[0]);
    assert_eq!(p.board.turn, 1);
    assert_eq!(p.board.cell(0, 0), Tile::One);
    assert!(!p.legal[0]);
    p.expand(mpn);
    let back = p.update_ancestors(mpn, root);
    assert_eq!(p.node(mpn).node_type, NodeType::AND);
    assert_eq!(p.node(mpn).proof, 3);
    assert_eq!(p.node(mpn).disproof, 1);
    assert_eq!(back, root);
    assert_eq!(p.board.turn, 0);
    assert!(p.legal.iter().all(|l| *l));
    assert_eq!((p.node(root).proof, p.node(root).disproof), (1, 4));
}
