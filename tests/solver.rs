use rush_hour::board::{Board, Direction, Move, Piece};
use rush_hour::search::solve;

fn single_row(width: u32, goal: (u32, u32), pieces: Vec<Piece>) -> Board {
    Board::new(width, 1, goal, pieces)
}

#[test]
fn slides_straight_to_goal() {
    let board = single_row(3, (2, 0), vec![Piece::marked((0, 0), 1, Direction::Horizontal)]);
    let s = solve(board, 100).expect("solvable");
    assert_eq!(s.plies, 1);
    assert_eq!(s.moves, vec![Move::Right((0, 0), 2)]);
    assert!(s.board.is_won);
    assert_eq!(s.board.occupied_tiles, vec![(2, 0)]);
}

#[test]
fn start_already_won_is_not_reported() {
    // The start board is never checked, and nothing can move: the search
    // runs out of boards and gives up.
    let board = single_row(2, (1, 0), vec![Piece::marked((0, 0), 2, Direction::Horizontal)]);
    assert!(board.is_won);
    assert!(solve(board, 1000).is_none());
}

#[test]
fn blocked_row_is_unsolvable() {
    let board = single_row(
        4,
        (3, 0),
        vec![
            Piece::marked((0, 0), 1, Direction::Horizontal),
            Piece::new((1, 0), 1, Direction::Horizontal),
        ],
    );
    assert!(solve(board, 1000).is_none());
}

fn blocker_board() -> Board {
    // The marked piece has to wait for the blocker to step down.
    Board::new(
        3,
        2,
        (2, 0),
        vec![
            Piece::marked((0, 0), 1, Direction::Horizontal),
            Piece::new((1, 0), 1, Direction::Vertical),
        ],
    )
}

#[test]
fn shortest_solution_waits_for_blocker() {
    let s = solve(blocker_board(), 100).expect("solvable");
    assert_eq!(s.plies, 2);
    assert_eq!(s.moves, vec![Move::Down((1, 0), 1), Move::Right((0, 0), 2)]);
}

#[test]
fn ply_limit_stops_search() {
    assert!(solve(blocker_board(), 1).is_none());
    assert!(solve(blocker_board(), 0).is_none());
    assert_eq!(solve(blocker_board(), 2).expect("solvable").plies, 2);
}

fn small_puzzle() -> Board {
    Board::new(
        4,
        4,
        (3, 1),
        vec![
            Piece::marked((0, 1), 2, Direction::Horizontal),
            Piece::new((2, 0), 2, Direction::Vertical),
            Piece::new((3, 1), 2, Direction::Vertical),
            Piece::new((0, 3), 2, Direction::Horizontal),
        ],
    )
}

#[test]
fn solving_twice_gives_same_answer() {
    let a = solve(small_puzzle(), 50).expect("solvable");
    let b = solve(small_puzzle(), 50).expect("solvable");
    assert_eq!(a.plies, 3);
    assert_eq!(a.plies, b.plies);
    assert_eq!(a.moves, b.moves);
    assert_eq!(a.board, b.board);
}

#[test]
fn solution_moves_replay_to_won_board() {
    let start = small_puzzle();
    let s = solve(small_puzzle(), 50).expect("solvable");
    assert_eq!(s.moves.len() as u32, s.plies);
    let mut b = start;
    for m in &s.moves {
        assert!(b.all_moves().contains(m));
        b = b.play(m);
    }
    assert_eq!(b, s.board);
    assert!(b.is_won);
}

#[test]
fn occupies_runs_along_axis() {
    assert_eq!(
        Piece::new((1, 2), 3, Direction::Horizontal).occupies(),
        vec![(1, 2), (2, 2), (3, 2)]
    );
    assert_eq!(
        Piece::new((1, 2), 2, Direction::Vertical).occupies(),
        vec![(1, 2), (1, 3)]
    );
}

#[test]
fn constructors_set_marked_flag() {
    let p = Piece::new((0, 1), 2, Direction::Vertical);
    let q = Piece::marked((0, 1), 2, Direction::Vertical);
    assert!(!p.marked);
    assert!(q.marked);
    assert_eq!(p.size, 2);
    assert_eq!(q.location, (0, 1));
}

#[test]
fn occupied_tiles_is_union_of_pieces() {
    let b = small_puzzle();
    assert_eq!(
        b.occupied_tiles,
        vec![(0, 1), (1, 1), (2, 0), (2, 1), (3, 1), (3, 2), (0, 3), (1, 3)]
    );
    assert_eq!(Board::occupied_tiles(&b.pieces), b.occupied_tiles);
    let mut sorted = b.occupied_tiles.clone();
    sorted.sort();
    sorted.dedup();
    assert_eq!(sorted.len(), b.occupied_tiles.len());
}

#[test]
fn win_flag_counts_any_covered_tile() {
    let b = Board::new(4, 1, (1, 0), vec![Piece::marked((0, 0), 2, Direction::Horizontal)]);
    assert!(b.is_won);
    let c = Board::new(4, 1, (1, 0), vec![Piece::new((0, 0), 2, Direction::Horizontal)]);
    assert!(!c.is_won);
}

#[test]
fn all_moves_lists_every_step_length() {
    let b = small_puzzle();
    assert_eq!(
        b.all_moves(),
        vec![
            Move::Down((2, 0), 1),
            Move::Down((2, 0), 2),
            Move::Up((3, 1), 1),
            Move::Down((3, 1), 1),
            Move::Right((0, 3), 1),
            Move::Right((0, 3), 2),
        ]
    );
    let row = single_row(5, (4, 0), vec![Piece::marked((2, 0), 1, Direction::Horizontal)]);
    assert_eq!(
        row.all_moves(),
        vec![
            Move::Right((2, 0), 1),
            Move::Right((2, 0), 2),
            Move::Left((2, 0), 1),
            Move::Left((2, 0), 2),
        ]
    );
}

#[test]
fn moves_land_on_empty_tiles() {
    let b = small_puzzle();
    for m in b.all_moves() {
        let after = b.play(&m);
        for t in &after.occupied_tiles {
            assert!(b.tile_exists(*t));
        }
        let mut sorted = after.occupied_tiles.clone();
        sorted.sort();
        sorted.dedup();
        assert_eq!(sorted.len(), after.occupied_tiles.len());
    }
}

#[test]
fn play_then_undo_restores_board() {
    let b = small_puzzle();
    for m in b.all_moves() {
        assert_eq!(b.play(&m).undo(&m), b);
    }
    let row = single_row(5, (4, 0), vec![Piece::marked((2, 0), 1, Direction::Horizontal)]);
    for m in row.all_moves() {
        assert_eq!(row.play(&m).undo(&m), row);
    }
}

#[test]
fn play_moves_only_the_named_piece() {
    let b = small_puzzle();
    let after = b.play(&Move::Right((0, 3), 2));
    assert_eq!(after.pieces[3].location, (2, 3));
    assert_eq!(after.pieces[0], b.pieces[0]);
    assert_eq!(after.pieces[1], b.pieces[1]);
    assert_eq!(after.pieces[2], b.pieces[2]);
    let back = after.undo(&Move::Right((0, 3), 2));
    assert_eq!(back.pieces[3].location, (0, 3));
}

#[test]
fn future_boards_pairs_moves_with_results() {
    let b = small_puzzle();
    let moves = b.all_moves();
    let fut = b.future_boards();
    assert_eq!(fut.len(), moves.len());
    for (i, (board, m)) in fut.iter().enumerate() {
        assert_eq!(*m, moves[i]);
        assert_eq!(*board, b.play(m));
    }
}

#[test]
fn tile_checks() {
    let b = small_puzzle();
    assert!(b.tile_exists((3, 3)));
    assert!(!b.tile_exists((4, 0)));
    assert!(!b.tile_exists((0, 4)));
    assert!(b.empty_tile((0, 0)));
    assert!(!b.empty_tile((2, 0)));
    assert!(!b.empty_tile((9, 9)));
}

#[test]
fn move_tile_is_origin() {
    assert_eq!(Move::Left((3, 4), 2).get_tile(), (3, 4));
    assert_eq!(Move::Up((1, 0), 1).get_tile(), (1, 0));
}

#[test]
fn same_state_compares_pieces_in_order() {
    let b = small_puzzle();
    assert!(b.same_state(&small_puzzle()));
    assert!(!b.same_state(&b.play(&Move::Down((2, 0), 1))));
}
