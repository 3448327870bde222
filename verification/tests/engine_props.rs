use chesstactoe::ChessError;
use chesstactoe::Color;
use chesstactoe::Coordinates;
use chesstactoe::EndResult;
use chesstactoe::FenError;
use chesstactoe::GameError;
use chesstactoe::MoveError;
use chesstactoe::TicError;
use chesstactoe::board::ChessBoard;
use chesstactoe::make_move;
use chesstactoe::tictactoe::TicTacToe;

const START_FEN: &str = "rnbqkbnr/pppppppp/8/8/8/8/PPPPPPPP/RNBQKBNR w KQkq - 0 1";

fn assert_round_trip(board: &ChessBoard, next: Color) {
    let fen = board.to_fen(next).unwrap();
    let parsed = ChessBoard::parse_fen(&fen).unwrap();
    assert_eq!(parsed.board, board.board);
    assert_eq!(parsed.castling, board.castling);
    assert_eq!(parsed.en_passant, board.en_passant);
    assert_eq!(parsed.halfmove, board.halfmove);
    assert_eq!(parsed.fullmove, board.fullmove);
    assert_eq!(parsed.to_fen(next).unwrap(), fen);
}

#[test]
fn fen_round_trip_along_a_game() {
    let mut board = ChessBoard::default();
    assert_eq!(board.to_fen(Color::White).unwrap(), START_FEN);
    let moves = [
        ("e2e4", Color::White),
        ("c7c5", Color::Black),
        ("Ng1f3", Color::White),
        ("d7d6", Color::Black),
        ("d2d4", Color::White),
        ("c5xd4", Color::Black),
        ("Nf3xd4", Color::White),
        ("Ng8f6", Color::Black),
        ("Nb1c3", Color::White),
        ("a7a6", Color::Black),
    ];
    for (alg, mover) in moves {
        board.make_move(alg, mover).unwrap();
        assert_round_trip(&board, mover.other());
    }
}

#[test]
fn en_passant_target_is_the_skipped_square() {
    let mut board = ChessBoard::default();
    board.make_move("d2d4", Color::White).unwrap();
    assert_eq!(board.en_passant, Some(Coordinates { row: 2, col: 3 }));

    board.make_move("Ng8f6", Color::Black).unwrap();
    assert_eq!(board.en_passant, None);

    board.make_move("e2e3", Color::White).unwrap();
    assert_eq!(board.en_passant, None);

    board.make_move("e7e5", Color::Black).unwrap();
    assert_eq!(board.en_passant, Some(Coordinates { row: 5, col: 4 }));
}

#[test]
fn castling_needs_empty_cells_and_a_safe_path() {
    let free = ChessBoard::parse_fen("r3k2r/8/8/8/8/8/8/R3K2R w KQkq - 0 1").unwrap();
    assert!(free.validate_move("O-O", Color::White).unwrap());
    assert!(free.validate_move("O-O-O", Color::White).unwrap());
    assert!(free.validate_move("O-O", Color::Black).unwrap());
    assert!(free.validate_move("O-O-O", Color::Black).unwrap());

    let blocked = ChessBoard::default();
    assert!(!blocked.validate_move("O-O", Color::White).unwrap());
    assert!(!blocked.validate_move("O-O-O", Color::White).unwrap());

    let f_file_attacked = ChessBoard::parse_fen("4kr2/8/8/8/8/8/8/R3K2R w KQ - 0 1").unwrap();
    assert!(!f_file_attacked.validate_move("O-O", Color::White).unwrap());
    assert!(f_file_attacked.validate_move("O-O-O", Color::White).unwrap());

    let d_file_attacked = ChessBoard::parse_fen("3rk3/8/8/8/8/8/8/R3K2R w KQ - 0 1").unwrap();
    assert!(!d_file_attacked.validate_move("O-O-O", Color::White).unwrap());
    assert!(d_file_attacked.validate_move("O-O", Color::White).unwrap());

    // only the two squares of the King's path matter on the queenside
    let b_file_attacked = ChessBoard::parse_fen("1r2k3/8/8/8/8/8/8/R3K2R w KQ - 0 1").unwrap();
    assert!(b_file_attacked.validate_move("O-O-O", Color::White).unwrap());

    let king_attacked = ChessBoard::parse_fen("k3r3/8/8/8/8/8/8/R3K2R w KQ - 0 1").unwrap();
    assert!(!king_attacked.validate_move("O-O", Color::White).unwrap());
    assert!(!king_attacked.validate_move("O-O-O", Color::White).unwrap());

    let rook_gone = ChessBoard::parse_fen("r3k2r/8/8/8/8/8/8/R3K3 w KQkq - 0 1").unwrap();
    assert!(!rook_gone.validate_move("O-O", Color::White).unwrap());

    let mut castled = ChessBoard::parse_fen("r3k2r/8/8/8/8/8/8/R3K2R w KQkq - 0 1").unwrap();
    castled.make_move("O-O", Color::White).unwrap();
    assert_eq!(castled.to_fen(Color::Black).unwrap(), "r3k2r/8/8/8/8/8/8/R4RK1 b kq - 1 1");
}

#[test]
fn king_capture_ends_the_board() {
    let mut board = ChessBoard::parse_fen("4k3/8/8/8/8/8/8/4QK2 w - - 0 1").unwrap();
    assert_eq!(board.end, EndResult::Undecided(true));
    board.make_move("Qe1xe8", Color::White).unwrap();
    assert_eq!(board.end, EndResult::Color(0));

    let after = board.make_move("Kf1f2", Color::White);
    assert_eq!(after.err().unwrap(), ChessError::MoveError(MoveError::GameOver));
}

#[test]
fn promotion_letter_is_required_on_the_back_rank() {
    let board = ChessBoard::parse_fen("8/P6k/8/8/8/8/8/7K w - - 0 1").unwrap();
    assert!(!board.validate_move("a7a8", Color::White).unwrap());
    assert!(board.validate_move("a7a8Q", Color::White).unwrap());

    let mut promoted = board.clone();
    promoted.make_move("a7a8Q", Color::White).unwrap();
    assert_eq!(promoted.to_fen(Color::Black).unwrap(), "Q7/7k/8/8/8/8/8/7K b - - 0 1");
}

#[test]
fn square_codec_is_exact() {
    assert_eq!(ChessBoard::get_square("e4").unwrap(), Coordinates { row: 3, col: 4 });
    assert_eq!(ChessBoard::get_square("a1").unwrap(), Coordinates { row: 0, col: 0 });
    assert_eq!(ChessBoard::get_square("h8").unwrap(), Coordinates { row: 7, col: 7 });
    assert_eq!(ChessBoard::get_square("z9").err().unwrap(), FenError::InvalidSquare);
    assert_eq!(ChessBoard::get_square("e").err().unwrap(), FenError::InvalidSquare);
    assert_eq!(ChessBoard::get_square("e44").err().unwrap(), FenError::InvalidSquare);
    assert_eq!(ChessBoard::get_square("").err().unwrap(), FenError::InvalidSquare);

    assert_eq!(ChessBoard::get_tile(Coordinates { row: 3, col: 4 }).unwrap(), "e4");
    assert_eq!(ChessBoard::get_tile(Coordinates { row: 0, col: 0 }).unwrap(), "a1");
    assert_eq!(
        ChessBoard::get_tile(Coordinates { row: 8, col: 0 }).err().unwrap(),
        FenError::InvalidSquare
    );
}

#[test]
fn move_text_is_parsed_exactly() {
    assert_eq!(
        ChessBoard::get_data_from_move("e2e4").unwrap(),
        (Coordinates { row: 1, col: 4 }, Coordinates { row: 3, col: 4 }, chesstactoe::PieceName::PAWN)
    );
    assert_eq!(
        ChessBoard::get_data_from_move("Ng1f3").unwrap(),
        (
            Coordinates { row: 0, col: 6 },
            Coordinates { row: 2, col: 5 },
            chesstactoe::PieceName::KNIGHT
        )
    );
    assert_eq!(
        ChessBoard::get_data_from_move("e7xd8Q").unwrap(),
        (Coordinates { row: 6, col: 4 }, Coordinates { row: 7, col: 3 }, chesstactoe::PieceName::PAWN)
    );
    assert_eq!(ChessBoard::get_data_from_move("O-O").err().unwrap(), FenError::InvalidFormat);
    assert_eq!(ChessBoard::get_data_from_move("e2").err().unwrap(), FenError::InvalidFormat);
    assert_eq!(ChessBoard::get_data_from_move("Ze2e4").err().unwrap(), FenError::InvalidFormat);
}

#[test]
fn clock_fields_parse_like_numbers() {
    let plus = ChessBoard::parse_fen("rnbqkbnr/pppppppp/8/8/8/8/PPPPPPPP/RNBQKBNR w KQkq - +5 1")
        .unwrap();
    assert_eq!(plus.to_fen(Color::White).unwrap(),
        "rnbqkbnr/pppppppp/8/8/8/8/PPPPPPPP/RNBQKBNR w KQkq - 5 1");

    let bad = ChessBoard::parse_fen("rnbqkbnr/pppppppp/8/8/8/8/PPPPPPPP/RNBQKBNR w KQkq - x 1");
    assert_eq!(bad.err().unwrap(), FenError::InvalidFormat);

    let bad_square =
        ChessBoard::parse_fen("rnbqkbnr/pppppppp/8/8/8/8/PPPPPPPP/RNBQKBNR w KQkq z9 0 1");
    assert_eq!(bad_square.err().unwrap(), FenError::InvalidSquare);
}

#[test]
fn meta_fen_round_trips() {
    let tic = TicTacToe::default();
    let text = tic.to_fen().unwrap();
    assert!(text.ends_with("+w"));
    let parsed = TicTacToe::from_fen(&text).unwrap();
    assert_eq!(parsed, tic);

    assert_eq!(TicTacToe::from_fen("nonsense").err().unwrap(), FenError::InvalidFormat);

    let eight_boards = vec![START_FEN; 8].join("\\") + "+w";
    assert_eq!(TicTacToe::from_fen(&eight_boards).err().unwrap(), FenError::InvalidFormat);
}

#[test]
fn meta_move_by_text_checks_turn_and_grid() {
    let tic = TicTacToe::default();
    let text = tic.to_fen().unwrap();

    let wrong_color = make_move(text.clone(), (0, 0), "e2e4", Color::Black);
    assert_eq!(wrong_color.err().unwrap(), GameError::Tic(TicError::WrongColor));

    let off_grid = make_move(text.clone(), (3, 0), "e2e4", Color::White);
    assert_eq!(off_grid.err().unwrap(), GameError::Tic(TicError::InvalidCoords));

    let advanced = make_move(text.clone(), (0, 0), "e2e4", Color::White).unwrap();
    assert_eq!(advanced.next, Color::Black);

    let bad_fen = make_move(String::from("junk"), (0, 0), "e2e4", Color::White);
    assert_eq!(
        bad_fen.err().unwrap(),
        GameError::Chess(ChessError::FenError(FenError::InvalidFormat))
    );
}

#[test]
fn meta_turn_alternates_even_on_decided_boards() {
    let mut tic = TicTacToe::default();
    assert_eq!(tic.next, Color::White);
    tic.make_move(Coordinates::new((0, 0)), "e2e4").unwrap();
    assert_eq!(tic.next, Color::Black);
    tic.make_move(Coordinates::new((1, 1)), "e7e5").unwrap();
    assert_eq!(tic.next, Color::White);

    let bad = tic.make_move(Coordinates::new((0, 0)), "Ke1e3");
    assert_eq!(
        bad.err().unwrap(),
        GameError::Chess(ChessError::MoveError(MoveError::InvalidMove))
    );
    assert_eq!(tic.next, Color::White);
}

#[test]
fn capturing_a_home_square_rook_withdraws_its_castling() {
    let mut board =
        ChessBoard::parse_fen("r3k2r/7R/8/8/8/8/8/R3K2R w KQkq - 0 1").unwrap();
    board.make_move("Rh7xh8", Color::White).unwrap();
    assert_eq!(board.to_fen(Color::Black).unwrap(), "r3k2R/8/8/8/8/8/8/R3K2R b KQq - 0 1");
}

#[test]
fn random_boards_differ_from_the_initial_position() {
    // a drawn rank never repeats a symbol, so it can never spell the
    // initial position's rank of eight pawns
    let board = ChessBoard::random();
    assert_ne!(board, ChessBoard::default());
}

#[test]
fn castled_positions_count_toward_repetition() {
    let mut board = ChessBoard::parse_fen("r3k2r/8/8/8/8/8/8/R3K2R w KQkq - 0 1").unwrap();
    let cycle = ["Ra8b8", "Ra1b1", "Rb8a8", "Rb1a1"];

    board.make_move("O-O", Color::White).unwrap();
    for alg in cycle {
        let mover = if alg.contains('8') { Color::Black } else { Color::White };
        board.make_move(alg, mover).unwrap();
    }
    assert_eq!(board.end, EndResult::Undecided(true));
    for alg in cycle {
        let mover = if alg.contains('8') { Color::Black } else { Color::White };
        board.make_move(alg, mover).unwrap();
    }
    // the placement reached by castling has now stood three times
    assert_eq!(board.end, EndResult::Draw(true));
}

#[test]
fn random_boards_keep_the_fixed_fields() {
    let board = ChessBoard::random();
    let fen = board.to_fen(Color::White).unwrap();
    assert!(fen.ends_with(" w KQkq - 0 1"));
}
