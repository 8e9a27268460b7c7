use gomoku::game::{get_shapes, Board, GameError, Shapes, Tile};

fn stub() -> Vec<(i32, i32)> {
    vec![(0, 0), (1, 0)]
}

fn corner() -> Vec<(i32, i32)> {
    vec![(0, 0), (1, 0), (1, 1)]
}

fn board(size: i32, shape1: Vec<(i32, i32)>, shape2: Vec<(i32, i32)>) -> Board {
    let mut s1 = shape1;
    let mut s2 = shape2;
    match Board::setup(size, &mut s1, &mut s2) {
        Ok(b) => b,
        Err(e) => panic!("setup failed: {:?}", e),
    }
}

#[test]
fn horizontal_pair_wins_for_player_one() {
    let mut b = board(3, stub(), stub());
    assert_eq!(b.place(0, 0), Ok(()));
    assert_eq!(b.place(1, 1), Ok(()));
    assert_eq!(b.place(1, 0), Ok(()));
    assert!(b.is_over());
    assert_eq!(*b.winner(), Tile::One);
    assert_eq!(b.player_to_move(), Tile::One);
}

#[test]
fn full_board_without_pair_is_draw() {
    let mut b = board(2, stub(), stub());
    assert_eq!(b.place(0, 0), Ok(()));
    assert_eq!(b.place(1, 0), Ok(()));
    assert_eq!(b.place(1, 1), Ok(()));
    assert!(!b.is_over());
    assert_eq!(b.place(0, 1), Ok(()));
    assert!(b.is_over());
    assert!(b.draw());
    assert_eq!(*b.winner(), Tile::Empty);
}

#[test]
fn setup_rejects_non_positive_size() {
    let mut s1 = stub();
    let mut s2 = stub();
    assert!(matches!(Board::setup(0, &mut s1, &mut s2), Err(GameError::IllegalBoardSize)));
    assert!(matches!(Board::setup(-3, &mut s1, &mut s2), Err(GameError::IllegalBoardSize)));
    assert_eq!(s1, stub());
}

#[test]
fn fresh_board_is_empty_with_player_one_to_move() {
    let b = board(4, stub(), corner());
    assert_eq!(b.turn, 0);
    assert_eq!(b.field.len(), 16);
    assert!(b.field.iter().all(|t| *t == Tile::Empty));
    assert_eq!(b.player_to_move(), Tile::One);
    assert!(!b.is_over());
    assert_eq!(*b.winner(), Tile::Empty);
    assert_eq!(b.shapes1.shapes.len(), 8);
    assert_eq!(b.shapes2.shapes.len(), 8);
}

#[test]
fn place_rejects_cells_off_the_board() {
    let mut b = board(3, stub(), stub());
    assert_eq!(b.place(3, 0), Err(GameError::CoordinateOutOfRange));
    assert_eq!(b.place(0, 3), Err(GameError::CoordinateOutOfRange));
    assert_eq!(b.place(-1, 0), Err(GameError::CoordinateOutOfRange));
    assert_eq!(b.place(0, -1), Err(GameError::CoordinateOutOfRange));
    assert_eq!(b.turn, 0);
    assert_eq!(b.player_to_move(), Tile::One);
}

#[test]
fn place_rejects_occupied_cell() {
    let mut b = board(3, stub(), stub());
    assert_eq!(b.place(2, 1), Ok(()));
    assert_eq!(b.place(2, 1), Err(GameError::AlreadyOccupied));
    assert_eq!(b.turn, 1);
    assert_eq!(b.player_to_move(), Tile::Two);
    assert_eq!(b.cell(2, 1), Tile::One);
}

#[test]
fn place_then_undo_restores_the_board() {
    let mut b = board(3, corner(), stub());
    b.place_proof(1, 1);
    b.place_proof(0, 2);
    let before = (b.field.clone(), b.turn, b.player_one, b.game_over, b.winner);
    b.place_proof(2, 0);
    assert_eq!(b.cell(2, 0), Tile::One);
    assert_eq!(b.turn, 3);
    b.undo(2, 0);
    let after = (b.field.clone(), b.turn, b.player_one, b.game_over, b.winner);
    assert_eq!(before, after);
}

#[test]
fn undo_after_a_winning_stone_reopens_the_game() {
    let mut b = board(3, stub(), stub());
    b.place_proof(0, 0);
    b.place_proof(2, 2);
    let before = (b.field.clone(), b.turn, b.player_one, b.game_over, b.winner);
    b.place_proof(0, 1);
    assert!(b.is_over());
    assert_eq!(*b.winner(), Tile::One);
    b.undo(0, 1);
    let after = (b.field.clone(), b.turn, b.player_one, b.game_over, b.winner);
    assert_eq!(before, after);
}

#[test]
fn win_is_found_whatever_the_order_of_moves() {
    // Player one builds the corner as an upside-down L, last stone in the middle.
    let mut b = board(4, corner(), corner());
    assert_eq!(b.place(2, 3), Ok(()));
    assert_eq!(b.place(0, 0), Ok(()));
    assert_eq!(b.place(1, 2), Ok(()));
    assert_eq!(b.place(3, 0), Ok(()));
    assert_eq!(b.place(2, 2), Ok(()));
    assert!(b.is_over());
    assert_eq!(*b.winner(), Tile::One);

    // The same cells, last stone at a corner of the shape.
    let mut c = board(4, corner(), corner());
    assert_eq!(c.place(2, 2), Ok(()));
    assert_eq!(c.place(0, 0), Ok(()));
    assert_eq!(c.place(1, 2), Ok(()));
    assert_eq!(c.place(3, 0), Ok(()));
    assert_eq!(c.place(2, 3), Ok(()));
    assert!(c.is_over());
    assert_eq!(*c.winner(), Tile::One);
}

#[test]
fn player_two_wins_with_own_shape() {
    let mut b = board(3, corner(), stub());
    assert_eq!(b.place(0, 0), Ok(()));
    assert_eq!(b.place(2, 0), Ok(()));
    assert_eq!(b.place(0, 2), Ok(()));
    assert_eq!(b.place(2, 1), Ok(()));
    assert!(b.is_over());
    assert_eq!(*b.winner(), Tile::Two);
}

#[test]
fn reset_clears_the_board() {
    let mut b = board(3, stub(), stub());
    assert_eq!(b.place(0, 0), Ok(()));
    assert_eq!(b.place(1, 1), Ok(()));
    b.reset();
    assert_eq!(b.turn, 0);
    assert!(b.field.iter().all(|t| *t == Tile::Empty));
    assert_eq!(b.player_to_move(), Tile::One);
    assert!(!b.is_over());
}

#[test]
fn stub_variants_in_order() {
    let mut s = stub();
    let v = get_shapes(&mut s);
    assert_eq!(
        v,
        vec![
            vec![(0, 0), (0, 1)],
            vec![(0, 0), (-1, 0)],
            vec![(0, 0), (0, -1)],
            vec![(0, 0), (1, 0)],
            vec![(0, 0), (0, -1)],
            vec![(0, 0), (1, 0)],
            vec![(0, 0), (0, 1)],
            vec![(0, 0), (-1, 0)],
        ]
    );
    assert_eq!(s, stub());
}

#[test]
fn variants_keep_size_and_distances() {
    let base = vec![(0, 0), (1, 0), (1, 1), (1, 2)];
    let mut s = base.clone();
    let shapes = Shapes::new(&mut s);
    assert_eq!(shapes.shapes.len(), 8);
    let d = |p: (i32, i32), q: (i32, i32)| (p.0 - q.0) * (p.0 - q.0) + (p.1 - q.1) * (p.1 - q.1);
    for v in &shapes.shapes {
        assert_eq!(v.len(), base.len());
        for i in 0..base.len() {
            for j in 0..base.len() {
                assert_eq!(d(v[i], v[j]), d(base[i], base[j]));
            }
        }
    }
    assert_eq!(shapes.shapes[0], vec![(0, 0), (0, 1), (-1, 1), (-2, 1)]);
    assert_eq!(shapes.shapes[4], vec![(0, 0), (0, -1), (-1, -1), (-2, -1)]);
    assert_eq!(s, base);
}

#[test]
fn snapshot_is_independent() {
    let mut b = board(3, stub(), stub());
    assert_eq!(b.place(1, 1), Ok(()));
    let mut c = b.snapshot();
    assert_eq!(c.place(0, 0), Ok(()));
    assert_eq!(b.cell(0, 0), Tile::Empty);
    assert_eq!(c.cell(0, 0), Tile::Two);
    assert_eq!(c.cell(1, 1), Tile::One);
    assert_eq!(b.turn, 1);
}

#[test]
fn coords_and_index_agree() {
    let b = board(5, stub(), stub());
    for i in 0..25usize {
        let (x, y) = b.coords(i);
        assert_eq!(b.index_of(x, y), i);
    }
    assert_eq!(b.coords(7), (2, 1));
}
