use gomoku::dfpns::{Status, PNS};
use gomoku::game::GameError;

fn stub() -> Vec<(i32, i32)> {
    vec![(0, 0), (1, 0)]
}

fn solver(size: i32, draw_is_loss: bool, moves: Vec<(i32, i32)>) -> PNS {
    let mut s1 = stub();
    let mut s2 = stub();
    match PNS::setup(size, &mut s1, &mut s2, draw_is_loss, moves) {
        Ok(p) => p,
        Err(e) => panic!("setup failed: {:?}", e),
    }
}

#[test]
fn dfpn_proves_one_move_win() {
    let mut p = solver(3, false, vec![(0, 0), (2, 2)]);
    let root = p.root;
    assert_eq!(p.dfpn(root), Status::Proven);
    assert_eq!(p.board.turn, 2);
    assert_eq!(p.legal.iter().filter(|l| **l).count(), 7);
}

#[test]
fn dfpn_proves_first_player_win_two_by_two() {
    let mut p = solver(2, false, vec![]);
    let root = p.root;
    assert_eq!(p.dfpn(root), Status::Proven);
    assert_eq!(p.board.turn, 0);
}

#[test]
fn dfpn_draw_counts_by_flag() {
    let mut p = solver(1, false, vec![]);
    let root = p.root;
    assert_eq!(p.dfpn(root), Status::Proven);
    let mut q = solver(1, true, vec![]);
    let root = q.root;
    assert_eq!(q.dfpn(root), Status::Disproven);
}

#[test]
fn dfpn_disproves_when_second_player_completes_a_pair() {
    let mut p = solver(3, false, vec![(0, 0), (1, 1), (2, 2)]);
    let root = p.root;
    assert_eq!(p.dfpn(root), Status::Disproven);
}

#[test]
fn dfpn_three_by_three_first_player_wins() {
    let mut p = solver(3, true, vec![]);
    let root = p.root;
    assert_eq!(p.dfpn(root), Status::Proven);
}

#[test]
fn children_sums_and_selection() {
    let mut p = solver(2, false, vec![]);
    let root = p.root;
    p.generate_children(root);
    assert_eq!(p.sum(root), 4);
    assert_eq!(p.min(root), 1);
    let (best, phi, delta2) = p.select_child(root);
    assert_eq!(p.tree[&root].children[0], best);
    assert_eq!(phi, 1);
    assert_eq!(delta2, 1);
    assert_eq!(p.tree[&best].turn, Some((0, 0)));
}

#[test]
fn evaluate_marks_finished_positions() {
    let mut p = solver(3, false, vec![(0, 0), (2, 2), (1, 0)]);
    let root = p.root;
    p.evaluate(root);
    assert_eq!(p.tree[&root].state, Status::Proven);
    let mut q = solver(3, false, vec![(0, 0)]);
    let root = q.root;
    q.evaluate(root);
    assert_eq!(q.tree[&root].state, Status::Unknown);
}

#[test]
fn dfpns_setup_checks_moves() {
    let mut s1 = stub();
    let mut s2 = stub();
    assert!(matches!(
        PNS::setup(2, &mut s1, &mut s2, false, vec![(2, 0)]),
        Err(GameError::CoordinateOutOfRange)
    ));
    assert!(matches!(
        PNS::setup(2, &mut s1, &mut s2, false, vec![(1, 1), (1, 1)]),
        Err(GameError::AlreadyOccupied)
    ));
    assert!(matches!(PNS::setup(-1, &mut s1, &mut s2, false, vec![]), Err(GameError::IllegalBoardSize)));
}
