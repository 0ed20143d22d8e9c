use reng::board::{ChessBoard, Move, Piece};

fn board_from(fen: &str) -> ChessBoard {
    let mut board = ChessBoard::new();
    assert!(board.fen_to_board(fen).is_ok());
    board
}

fn king_moves_of(board: &ChessBoard, for_white: bool) -> Vec<Move> {
    board.king_moves(for_white, board.empty(), board.open_for_attack(for_white))
}

fn square(rank: u32, file: u32) -> u64 {
    1u64 << (rank * 8 + file)
}

fn has_move(moves: &[Move], start: u64, dest: u64) -> bool {
    moves.iter().any(|m| m.start == start && m.dest == dest)
}

#[test]
fn test_castling_both_sides_offered() {
    let board = board_from("r3k2r/8/8/8/8/8/8/R3K2R w KQkq -");
    let moves = king_moves_of(&board, true);
    // Five ordinary king steps plus the two castling moves.
    assert_eq!(moves.len(), 7);
    assert!(has_move(&moves, square(0, 4), square(0, 6)));
    assert!(has_move(&moves, square(0, 4), square(0, 2)));
    // The same position for black.
    let moves = king_moves_of(&board, false);
    assert_eq!(moves.len(), 7);
    assert!(has_move(&moves, square(7, 4), square(7, 6)));
    assert!(has_move(&moves, square(7, 4), square(7, 2)));
}

#[test]
fn test_castling_needs_rights() {
    let board = board_from("r3k2r/8/8/8/8/8/8/R3K2R w - -");
    let moves = king_moves_of(&board, true);
    assert_eq!(moves.len(), 5);
    assert!(!has_move(&moves, square(0, 4), square(0, 6)));
    assert!(!has_move(&moves, square(0, 4), square(0, 2)));
}

#[test]
fn test_castling_needs_empty_path() {
    // A knight still stands on b1: queenside is barred, kingside stays.
    let board = board_from("r3k2r/8/8/8/8/8/8/RN2K2R w KQkq -");
    let moves = king_moves_of(&board, true);
    assert_eq!(moves.len(), 6);
    assert!(has_move(&moves, square(0, 4), square(0, 6)));
    assert!(!has_move(&moves, square(0, 4), square(0, 2)));
}

#[test]
fn test_castling_needs_unattacked_path() {
    // A black rook on g8 sweeps g1: kingside is barred, queenside stays.
    let board = board_from("r3k1r1/8/8/8/8/8/8/R3K2R w KQkq -");
    let moves = king_moves_of(&board, true);
    assert_eq!(moves.len(), 6);
    assert!(!has_move(&moves, square(0, 4), square(0, 6)));
    assert!(has_move(&moves, square(0, 4), square(0, 2)));
}

#[test]
fn test_castling_needs_king_out_of_check() {
    // A black rook on e8 gives check: neither castling move is offered.
    let board = board_from("4r3/8/8/8/8/8/8/R3K2R w KQkq -");
    let moves = king_moves_of(&board, true);
    assert_eq!(moves.len(), 5);
    assert!(!has_move(&moves, square(0, 4), square(0, 6)));
    assert!(!has_move(&moves, square(0, 4), square(0, 2)));
}

#[test]
fn test_apply_castling_relocates_rook() {
    let mut board = board_from("r3k2r/8/8/8/8/8/8/R3K2R w KQkq -");
    let moves = king_moves_of(&board, true);
    let castle = moves
        .iter()
        .find(|m| m.start == square(0, 4) && m.dest == square(0, 6))
        .unwrap()
        .clone();
    board.make_move(&castle);
    assert_eq!(board.w_king, square(0, 6));
    assert_eq!(board.w_rook, square(0, 0) | square(0, 5));
    // Both white rights fall; black keeps its two bits.
    assert_eq!(board.castle_rights, 0b1100);
    assert!(!board.turn);
}

#[test]
fn test_rook_move_drops_one_right() {
    let mut board = board_from("r3k2r/8/8/8/8/8/8/R3K2R w KQkq -");
    let moves = board.legal_moves(true, false);
    let rook_up = moves
        .iter()
        .find(|m| m.start == square(0, 0) && m.dest == square(3, 0))
        .unwrap()
        .clone();
    board.make_move(&rook_up);
    // White queenside is gone, the other three corners stay.
    assert_eq!(board.castle_rights, 0b1110);
}

#[test]
fn test_legal_moves_keep_own_king_safe() {
    // The white bishop on e2 is pinned by the rook on e8.
    let board = board_from("4r3/8/8/8/8/8/4B3/4K3 w - -");
    let pseudo = board.legal_moves(true, true);
    assert!(pseudo.iter().any(|m| m.piece == Piece::w_bishop));
    let legal = board.legal_moves(true, false);
    assert!(legal.iter().all(|m| m.piece != Piece::w_bishop));
    assert_eq!(legal.len(), 4);
    // Every legal move really leaves the king unattacked.
    for mv in legal.iter() {
        let mut copy = board.clone();
        copy.make_move(mv);
        assert!(!copy.is_king_under_attack(true));
    }
}

#[test]
fn test_initial_position_has_twenty_moves() {
    let board = board_from("rnbqkbnr/pppppppp/8/8/8/8/PPPPPPPP/RNBQKBNR w KQkq -");
    assert_eq!(board.legal_moves(true, false).len(), 20);
    assert_eq!(board.legal_moves(false, false).len(), 20);
}

#[test]
fn test_evaluate_board_material() {
    let mut board = board_from("rnbqkbnr/pppppppp/8/8/8/8/PPPPPPPP/RNBQKBNR w KQkq -");
    assert_eq!(board.evaluate_board(true), 0);
    assert_eq!(board.evaluate_board(false), 0);
    // White: pawn + king = 101; black: queen + king = 109.
    let mut board = board_from("k7/8/8/3q4/2P5/8/8/K7 w - -");
    assert_eq!(board.evaluate_board(true), -8);
    assert_eq!(board.evaluate_board(false), 8);
}

#[test]
fn test_search_depth_one_takes_best_capture() {
    let mut board = board_from("k7/8/8/3q4/2P5/8/8/K7 w - -");
    let mv = board.get_computer_move(1);
    // The pawn capture of the queen is the locally best material delta.
    assert_eq!(mv.piece, Piece::w_pawn);
    assert_eq!(mv.start, square(3, 2));
    assert_eq!(mv.dest, square(4, 3));
}

#[test]
fn test_search_returns_a_legal_move() {
    let mut board = board_from("rnbqkbnr/pppppppp/8/8/8/8/PPPPPPPP/RNBQKBNR w KQkq -");
    let legal = board.legal_moves(true, false);
    let mv = board.get_computer_move(2);
    assert!(legal
        .iter()
        .any(|m| m.start == mv.start && m.dest == mv.dest && m.piece == mv.piece));
}

#[test]
fn test_masks_stay_disjoint_over_a_game() {
    let mut board = board_from("rnbqkbnr/pppppppp/8/8/8/8/PPPPPPPP/RNBQKBNR w KQkq -");
    for _ in 0..6 {
        let moves = board.legal_moves(board.turn, false);
        assert!(!moves.is_empty());
        let mv = moves[0].clone();
        board.make_move(&mv);
        // No two of the twelve masks may share a set bit.
        let masks = [
            board.w_pawn,
            board.w_knight,
            board.w_bishop,
            board.w_rook,
            board.w_queen,
            board.w_king,
            board.b_pawn,
            board.b_knight,
            board.b_bishop,
            board.b_rook,
            board.b_queen,
            board.b_king,
        ];
        for a in 0..12 {
            for b in 0..12 {
                if a != b {
                    assert_eq!(masks[a] & masks[b], 0);
                }
            }
        }
    }
}

#[test]
fn test_round_trip_partial_castling_rights() {
    let mut board = board_from("8/8/8/8/8/8/8/R3K2R w KQ -");
    assert_eq!(board.to_fen(), "8/8/8/8/8/8/8/R3K2R w KQ -");
    assert!(board.fen_to_board("r3k3/8/8/8/8/8/8/8 b q -").is_ok());
    assert_eq!(board.to_fen(), "r3k3/8/8/8/8/8/8/8 b q -");
}

#[test]
fn test_round_trip_mixed_position() {
    let mut board = ChessBoard::new();
    let fen = "r1bqk1nr/pp1pppbp/2n3p1/2p5/4P3/2N2N2/PPPP1PPP/R1BQKB1R w KQkq -";
    assert!(board.fen_to_board(fen).is_ok());
    assert_eq!(board.to_fen(), fen);
}

#[test]
fn test_fen_rejects_malformed_placement() {
    let mut board = ChessBoard::new();
    assert!(board.fen_to_board("8/8/8/8/8/8/8/9 w - -").is_err());
    assert_eq!(board.w_pawn | board.b_king, 0);
    assert!(board.fen_to_board("8/8/8/8/8/8/8 w - -").is_err());
    assert!(board.fen_to_board("8/8/8/8/8/8/8/8/8 w - -").is_err());
    assert!(board.fen_to_board("8/8/8/8/8/8/8/7 w - -").is_err());
    assert!(board.fen_to_board("8/8/8/8/8/8/8/8 x - -").is_err());
    assert!(board.fen_to_board("8/8/8/8/8/8/8/8 w z -").is_err());
    assert!(board.fen_to_board("8/8/8/8/8/8/8/x7 w - -").is_err());
    // After a rejected text the board is the blank one.
    assert_eq!(board.to_fen(), "8/8/8/8/8/8/8/8 w - -");
}

#[test]
fn test_attack_oracle_geometry() {
    // A black knight on d5 covers e3 but not a1.
    let board = board_from("8/8/8/3n4/8/8/8/8 w - -");
    assert!(board.is_square_under_attack(square(2, 4), false));
    assert!(!board.is_square_under_attack(square(0, 0), false));
    // A white pawn on b2 covers a3 and c3, not b3.
    let board = board_from("8/8/8/8/8/8/1P6/8 w - -");
    assert!(board.is_square_under_attack(square(2, 0), true));
    assert!(board.is_square_under_attack(square(2, 2), true));
    assert!(!board.is_square_under_attack(square(2, 1), true));
    // A sliding attack stops at the first blocker.
    let board = board_from("8/8/8/8/8/8/8/R2p4 w - -");
    assert!(board.is_square_under_attack(square(0, 2), true));
    assert!(board.is_square_under_attack(square(0, 3), true));
    assert!(!board.is_square_under_attack(square(0, 4), true));
}

#[test]
fn test_in_bounds() {
    assert!(ChessBoard::in_bounds(0, 0));
    assert!(ChessBoard::in_bounds(7, 7));
    assert!(!ChessBoard::in_bounds(8, 0));
    assert!(!ChessBoard::in_bounds(0, -1));
}

#[test]
fn test_get_and_set_piece() {
    let mut board = ChessBoard::new();
    board.set_piece(Piece::b_queen, 0x10);
    assert_eq!(board.get_piece(Piece::b_queen), Some(0x10));
    assert_eq!(board.get_piece(Piece::w_queen), Some(0));
}

#[test]
fn test_promotion_applies_as_queen() {
    let mut board = board_from("8/P7/8/8/8/8/8/8 w - -");
    let moves =
        board.pawn_moves(true, board.empty(), board.open_for_attack(true));
    assert_eq!(moves.len(), 1);
    board.make_move(&moves[0]);
    assert_eq!(board.w_pawn, 0);
    assert_eq!(board.w_queen, square(7, 0));
}

#[test]
fn test_rook_capture_drops_corner_right() {
    // The white rook takes the black rook on a8: both queenside rights fall,
    // the mover's because its rook left a1, the victim's because a8 was hit.
    let mut board = board_from("r3k3/8/8/8/8/8/8/R3K3 w Qq -");
    let moves = board.legal_moves(true, false);
    let capture = moves
        .iter()
        .find(|m| m.start == square(0, 0) && m.dest == square(7, 0))
        .unwrap()
        .clone();
    board.make_move(&capture);
    assert_eq!(board.castle_rights, 0);
    assert_eq!(board.b_rook, 0);
    assert_eq!(board.w_rook, square(7, 0));
}

#[test]
fn test_search_finds_mate_in_one() {
    // With a rook holding the seventh rank, lifting the other rook to the
    // eighth is the only mate, and mate outscores every other move.
    let mut board = board_from("7k/R7/8/8/8/8/8/1R5K w - -");
    let mv = board.get_computer_move(2);
    assert_eq!(mv.start, square(0, 1));
    assert_eq!(mv.dest, square(7, 1));
}

#[test]
fn test_occupancy_views() {
    let board = board_from("rnbqkbnr/pppppppp/8/8/8/8/PPPPPPPP/RNBQKBNR w KQkq -");
    assert_eq!(board.white_pieces(), 0xFFFF);
    assert_eq!(board.black_pieces(), 0xFFFF_0000_0000_0000);
    assert_eq!(board.occupied(), 0xFFFF_0000_0000_FFFF);
    assert_eq!(board.empty(), !0xFFFF_0000_0000_FFFFu64);
    assert_eq!(board.current_pieces(), board.white_pieces());
    assert_eq!(board.opponent_pieces(), board.black_pieces());
}

#[test]
fn test_search_ties_go_to_the_earliest_move() {
    // Lone kings: at depth one every move scores zero, so the searcher
    // must return the first legal move in generation order.
    let mut board = board_from("k7/8/8/8/8/8/8/K7 w - -");
    let legal = board.legal_moves(true, false);
    let mv = board.get_computer_move(1);
    assert_eq!(mv.start, legal[0].start);
    assert_eq!(mv.dest, legal[0].dest);
    assert_eq!(mv.start, square(0, 0));
    assert_eq!(mv.dest, square(0, 1));
}

#[test]
fn test_move_lists_hold_no_duplicates() {
    let board = board_from("r3k2r/pppppppp/8/8/8/8/PPPPPPPP/R3K2R w KQkq -");
    for pseudo in [true, false] {
        let moves = board.legal_moves(true, pseudo);
        for a in 0..moves.len() {
            for b in 0..moves.len() {
                if a != b {
                    assert!(
                        moves[a].start != moves[b].start
                            || moves[a].dest != moves[b].dest
                            || moves[a].piece != moves[b].piece
                            || moves[a].promotion != moves[b].promotion
                    );
                }
            }
        }
    }
}
