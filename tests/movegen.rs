use sfbinpack::attacks::{bishop, king, knight, pawn, queen, rook};
use sfbinpack::bitboard::Bitboard;
use sfbinpack::chess_move::MoveType;
use sfbinpack::coords::{Color, Square};
use sfbinpack::movegen::pseudo_legal_moves;
use sfbinpack::piece::PieceType;
use sfbinpack::position::Position;

const STARTPOS: &str = "rnbqkbnr/pppppppp/8/8/8/8/PPPPPPPP/RNBQKBNR w KQkq - 0 1";

fn perft(pos: &Position, depth: u32) -> u64 {
    if depth == 0 {
        return 1;
    }
    let mut nodes = 0;
    let moves = pseudo_legal_moves(pos);
    for mv in moves {
        let new_pos = pos.after_move(mv);
        if !new_pos.is_checked(pos.side_to_move()) {
            nodes += perft(&new_pos, depth - 1);
        }
    }
    nodes
}

fn split_perft(pos: &Position, depth: u32) -> u64 {
    let moves = pseudo_legal_moves(pos);
    let mut total_nodes = 0;
    for mv in moves {
        let new_pos = pos.after_move(mv);
        if !new_pos.is_checked(pos.side_to_move()) {
            total_nodes += perft(&new_pos, depth - 1);
        }
    }
    total_nodes
}

#[test]
fn test_bishop_mask() {
    assert_eq!(
        bishop(Square::new(27), Bitboard::new(0)).bits(),
        9241705379636978241
    );
    assert_eq!(
        rook(Square::new(27), Bitboard::new(0)).bits(),
        578721386714368008
    );
}

#[test]
fn test_pseudo_moves_startpos() {
    let pos = Position::from_fen(STARTPOS).unwrap();
    let moves = pseudo_legal_moves(&pos);
    assert_eq!(moves.len(), 20);
}

#[test]
fn test_knight_pseudo_moves() {
    let pos = Position::from_fen("k7/8/8/3N4/8/8/8/6K1 w - - 0 1").unwrap();
    let moves = pseudo_legal_moves(&pos);
    let knight_moves = moves
        .iter()
        .filter(|m| pos.piece_at(m.from()).piece_type() == PieceType::Knight)
        .count();
    assert_eq!(knight_moves, 8);
}

#[test]
fn test_en_passant_included() {
    let pos = Position::from_fen("k7/8/8/3pP3/8/8/8/6K1 w - d6 0 1").unwrap();
    let moves = pseudo_legal_moves(&pos);
    assert!(moves.iter().any(|m| m.mtype() == MoveType::EnPassant));
}

#[test]
fn test_perft_startpos_depth_1() {
    let pos = Position::from_fen(STARTPOS).unwrap();
    assert_eq!(split_perft(&pos, 1), 20);
}

#[test]
fn test_perft_startpos_depth_2() {
    assert_eq!(split_perft(&Position::from_fen(STARTPOS).unwrap(), 2), 400);
}

#[test]
fn test_perft_startpos_depth_3() {
    assert_eq!(split_perft(&Position::from_fen(STARTPOS).unwrap(), 3), 8902);
}

#[test]
fn test_perft_startpos_depth_4() {
    assert_eq!(split_perft(&Position::from_fen(STARTPOS).unwrap(), 4), 197281);
}

#[test]
fn test_perft_custom_position_1() {
    assert_eq!(
        split_perft(
            &Position::from_fen("rnbqkbnr/ppp1pppp/3p4/8/8/2P5/PP1PPPPP/RNBQKBNR w KQkq - 0 2")
                .unwrap(),
            1
        ),
        21
    );
}

#[test]
fn test_perft_custom_position_2() {
    assert_eq!(
        split_perft(
            &Position::from_fen("rnbqkbnr/pppppppp/8/8/8/2P5/PP1PPPPP/RNBQKBNR b KQkq - 0 1")
                .unwrap(),
            2
        ),
        420
    );
}

#[test]
fn test_perft_castle_position() {
    assert_eq!(
        split_perft(
            &Position::from_fen(
                "r3k2r/p1ppqpb1/bn2pnp1/3PN3/1p2P3/2N2Q1p/PPPBBPPP/R3K2R w KQkq - 0 1"
            )
            .unwrap(),
            1
        ),
        48
    );
}

#[test]
fn test_perft_complex_position_1() {
    assert_eq!(
        split_perft(
            &Position::from_fen(
                "r3k2r/p1ppqpb1/bnN1pnp1/3P4/1p2P3/2N2Q1p/PPPBBPPP/R3K2R b KQkq - 1 1"
            )
            .unwrap(),
            1
        ),
        41
    );
}

#[test]
fn test_perft_complex_position_2() {
    assert_eq!(
        split_perft(
            &Position::from_fen(
                "r3k2r/p1ppqpb1/bn2pnp1/3PN3/1p2P3/P1N2Q2/1PPBBPpP/R3K2R w KQkq - 0 2"
            )
            .unwrap(),
            1
        ),
        48
    );
}

#[test]
fn test_perft_complex_position_3() {
    assert_eq!(
        split_perft(
            &Position::from_fen(
                "r3k2r/p1ppqpb1/bn2pnp1/3PN3/1p2P3/2N2Q1p/PPPBBPPP/R3K2R w KQkq - 0 1"
            )
            .unwrap(),
            2
        ),
        2039
    );
}

#[test]
fn test_perft_complex_position_4() {
    assert_eq!(
        split_perft(
            &Position::from_fen(
                "r3k2r/p1ppqpb1/bn2pnp1/3PN3/1p2P3/P1N2Q1p/1PPBBPPP/R3K2R b KQkq - 0 1"
            )
            .unwrap(),
            2
        ),
        2186
    );
}

#[test]
fn test_perft_complex_position_5() {
    assert_eq!(
        split_perft(
            &Position::from_fen(
                "r3k2r/p1ppqpb1/bn2pnp1/3PN3/1p2P3/2N2Q1p/PPPBBPPP/R3K2R w KQkq - 0 1"
            )
            .unwrap(),
            3
        ),
        97862
    );
}

#[test]
fn test_perft_complex_position_6() {
    assert_eq!(
        split_perft(
            &Position::from_fen(
                "r3k2r/p1p1qpb1/bn1ppnp1/1B1PN3/1p2P3/P1N2Q1p/1PPB1PPP/R3K2R b KQkq - 1 2"
            )
            .unwrap(),
            1
        ),
        7
    );
}

#[test]
fn test_perft_complex_position_7() {
    assert_eq!(
        split_perft(
            &Position::from_fen(
                "r3k2r/p1p1qpb1/bn1ppnp1/3PN3/1p2P3/P1N2Q1p/1PPBBPPP/R3K2R w KQkq - 0 2"
            )
            .unwrap(),
            2
        ),
        2135
    );
}

#[test]
fn test_perft_complex_position_8() {
    assert_eq!(
        split_perft(
            &Position::from_fen(
                "r3k2r/p1ppqpb1/bn2p1p1/3PN3/1p2n3/P1N2Q1p/1PPBBPPP/R3K2R w KQkq - 0 2"
            )
            .unwrap(),
            2
        ),
        2717
    );
}

#[test]
fn test_perft_complex_position_9() {
    assert_eq!(
        split_perft(
            &Position::from_fen(
                "r3k2r/p1ppqpb1/bn2pnp1/3PN3/1p2P3/P1N2Q1p/1PPBBPPP/R3K2R b KQkq - 0 1"
            )
            .unwrap(),
            3
        ),
        94405
    );
}

#[test]
fn leaper_attacks_on_corners_and_centre() {
    assert_eq!(knight(Square::new(0)).bits(), (1u64 << 10) | (1u64 << 17));
    assert_eq!(king(Square::new(0)).bits(), (1u64 << 1) | (1u64 << 8) | (1u64 << 9));
    assert_eq!(knight(Square::new(27)).count(), 8);
    assert_eq!(pawn(Color::White, Square::new(8)).bits(), 1u64 << 17);
    assert_eq!(pawn(Color::Black, Square::new(55)).bits(), 1u64 << 46);
}

#[test]
fn sliders_stop_at_blockers() {
    let occ = Bitboard::new((1u64 << 29) | (1u64 << 43));
    let r = rook(Square::new(27), occ).bits();
    assert!(r & (1u64 << 29) != 0);
    assert!(r & (1u64 << 30) == 0);
    let q = queen(Square::new(27), Bitboard::new(0)).bits();
    assert_eq!(q, 9241705379636978241 | 578721386714368008);
}

#[test]
fn double_push_sets_en_passant_only_when_capturable() {
    let start = Position::from_fen(STARTPOS).unwrap();
    let e4 = sfbinpack::chess_move::Move::normal(Square::new(12), Square::new(28));
    let a4 = sfbinpack::chess_move::Move::normal(Square::new(8), Square::new(24));
    let after_e4 = start.after_move(e4);
    let after_a4 = start.after_move(a4);
    assert_eq!(after_a4.ep_square().index(), 64);
    assert_eq!(
        after_a4.fen(),
        "rnbqkbnr/pppppppp/8/8/P7/8/1PPPPPPP/RNBQKBNR b KQkq - 0 1"
    );
    let _ = after_e4.fen();
    let pos = Position::from_fen("rnbqkbnr/ppp1pppp/8/8/3p4/8/PPPPPPPP/RNBQKBNR w KQkq - 0 3").unwrap();
    let after = pos.after_move(e4);
    assert_eq!(after.ep_square().index(), 20);
    assert_eq!(
        after.fen(),
        "rnbqkbnr/ppp1pppp/8/8/3pP3/8/PPPP1PPP/RNBQKBNR b KQkq e3 0 3"
    );
}

#[test]
fn castling_moves_king_and_rook() {
    let pos = Position::from_fen("r3k2r/8/8/8/8/8/8/R3K2R w KQkq - 0 1").unwrap();
    let short = sfbinpack::chess_move::Move::castle(Square::new(4), Square::new(7));
    let after = pos.after_move(short);
    assert_eq!(after.fen(), "r3k2r/8/8/8/8/8/8/R4RK1 b kq - 1 1");
}

#[test]
fn fen_round_trips_and_rejects_bad_fields() {
    let fens = [
        STARTPOS,
        "r3k2r/p1ppqpb1/bn2pnp1/3PN3/1p2P3/2N2Q1p/PPPBBPPP/R3K2R w KQkq - 0 1",
        "8/2p5/3p4/KP5r/1R3p1k/8/4P1P1/8 w - - 0 1",
    ];
    for f in fens.iter() {
        assert_eq!(Position::from_fen(f).unwrap().fen(), *f);
    }
    assert!(Position::from_fen("9/8/8/8/8/8/8/8 w - - 0 1").is_err());
    assert_eq!(
        Position::from_fen("8/8/8/8/8/8/8/8 x - - 0 1").unwrap_err(),
        "x"
    );
    assert!(Position::from_fen("8/8/8/8/8/8/8/8 w - -").is_err());
}

#[test]
fn well_formedness_is_checked() {
    let pos = Position::from_fen(STARTPOS).unwrap();
    assert!(pos.is_well_formed());
    let mut broken = pos;
    broken.bb[0] = 0;
    assert!(!broken.is_well_formed());
    let mut bad_ep = pos;
    bad_ep.enpassant = Square::new(64);
    assert!(bad_ep.is_well_formed());
    bad_ep.enpassant.idx = 65;
    assert!(!bad_ep.is_well_formed());
}
