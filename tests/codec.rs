use sfbinpack::arithmetic::{signed_to_unsigned, unsigned_to_signed, used_bits};
use sfbinpack::bitboard::Bitboard;
use sfbinpack::chess_move::{CompressedMove, Move, MoveType};
use sfbinpack::compressed_position::CompressedPosition;
use sfbinpack::coords::Square;
use sfbinpack::entry::PackedTrainingDataEntry;
use sfbinpack::piece::{Piece, PieceType};
use sfbinpack::position::Position;
use sfbinpack::reader::read_chunk_header;
use sfbinpack::writer::frame_chunk;
use sfbinpack::{
    CompressedReaderError, CompressedTrainingDataEntryReader, CompressedTrainingDataEntryWriter,
    TrainingDataEntry,
};

const STEM: [u8; 32] = [
    98, 121, 192, 21, 24, 76, 241, 100, 100, 106, 0, 4, 8, 48, 2, 17, 17, 145, 19, 117, 247, 0, 0,
    0, 61, 232, 0, 253, 0, 39, 0, 2,
];

const EP1: [u8; 46] = [
    66, 73, 78, 80, 38, 0, 0, 0, 130, 130, 144, 210, 8, 192, 70, 82, 72, 58, 64, 0, 81, 16, 18,
    113, 155, 5, 0, 0, 0, 0, 0, 0, 10, 104, 1, 145, 0, 68, 0, 0, 0, 2, 29, 24, 245, 8,
];

fn ep1_entries() -> Vec<TrainingDataEntry> {
    vec![
        TrainingDataEntry {
            pos: Position::from_fen("1q5b/1r5k/4p2p/1b2P1pN/3p4/6PP/1nP3B1/1Q2B1K1 w - - 0 35")
                .unwrap(),
            mv: Move::new(Square::new(10), Square::new(26), MoveType::Normal, Piece::none()),
            score: -201,
            ply: 68,
            result: 0,
        },
        TrainingDataEntry {
            pos: Position::from_fen("1q5b/1r5k/4p2p/1b2P1pN/2Pp4/6PP/1n4B1/1Q2B1K1 b - - 0 35")
                .unwrap(),
            mv: Move::new(Square::new(27), Square::new(19), MoveType::Normal, Piece::none()),
            score: 254,
            ply: 69,
            result: 0,
        },
        TrainingDataEntry {
            pos: Position::from_fen("1q5b/1r5k/4p2p/1b2P1pN/2P5/3p2PP/1n4B1/1Q2B1K1 w - - 0 36")
                .unwrap(),
            mv: Move::new(Square::new(14), Square::new(49), MoveType::Normal, Piece::none()),
            score: -220,
            ply: 70,
            result: 0,
        },
    ]
}

#[test]
fn test_read_big_endian() {
    let data = [
        98, 121, 192, 21, 24, 76, 241, 100, 100, 106, 0, 4, 8, 48, 2, 17, 17, 145, 19, 117, 247,
        0, 0, 0,
    ];
    let compressed_pos = CompressedPosition::read_from_big_endian(&data);
    assert_eq!(
        CompressedPosition {
            occupied: Bitboard::new(7095913884733469028),
            packed_state: [100, 106, 0, 4, 8, 48, 2, 17, 17, 145, 19, 117, 247, 0, 0, 0]
        },
        compressed_pos
    );
}

#[test]
fn test_compressed_position() {
    let data = [
        98, 121, 192, 21, 24, 76, 241, 100, 100, 106, 0, 4, 8, 48, 2, 17, 17, 145, 19, 117, 247,
        0, 0, 0,
    ];
    let compressed_pos = CompressedPosition::read_from_big_endian(&data);
    let pos = compressed_pos.decompress();
    assert_eq!(
        pos.fen(),
        "1r3rk1/p2qnpb1/6pp/P1p1p3/3nN3/2QP2P1/R3PPBP/2B2RK1 b - - 0 1"
    );
}

#[test]
fn test_packed_training_data_entry() {
    let packed_entry = PackedTrainingDataEntry::from_slice(&STEM);
    let entry = packed_entry.unpack_entry();
    let expected = TrainingDataEntry {
        pos: Position::from_fen("1r3rk1/p2qnpb1/6pp/P1p1p3/3nN3/2QP2P1/R3PPBP/2B2RK1 b - - 2 20")
            .unwrap(),
        mv: Move::new(Square::new(61), Square::new(58), MoveType::Normal, Piece::none()),
        score: -127,
        ply: 39,
        result: 0,
    };
    assert_eq!(entry, expected);
}

#[test]
fn test_size_of_packed_training_data_entry() {
    assert_eq!(PackedTrainingDataEntry::byte_size(), 32);
}

#[test]
fn test_reader_simple() {
    let mut reader = CompressedTrainingDataEntryReader::new(EP1.to_vec()).unwrap();
    let mut entries: Vec<TrainingDataEntry> = Vec::new();
    while reader.has_next() {
        let entry = reader.next();
        entries.push(entry);
    }
    assert_eq!(entries, ep1_entries());
}

#[test]
fn test_compressed_writer() {
    let mut writer = CompressedTrainingDataEntryWriter::new();
    let mut bytes: Vec<u8> = Vec::new();
    for entry in ep1_entries().iter() {
        bytes.extend(writer.write_entry(entry));
    }
    bytes.extend(writer.flush());
    assert_eq!(bytes, EP1.to_vec());
}

#[test]
fn stem_round_trip_reproduces_bytes() {
    let entry = PackedTrainingDataEntry::from_slice(&STEM).unpack_entry();
    let again = PackedTrainingDataEntry::from_entry(&entry);
    assert_eq!(again.data, STEM);
}

#[test]
fn reader_then_writer_reproduces_file() {
    let mut reader = CompressedTrainingDataEntryReader::new(EP1.to_vec()).unwrap();
    let mut writer = CompressedTrainingDataEntryWriter::new();
    let mut out: Vec<u8> = Vec::new();
    while reader.has_next() {
        let e = reader.next();
        out.extend(writer.write_entry(&e));
    }
    out.extend(writer.flush());
    assert_eq!(out, EP1.to_vec());
}

#[test]
fn continuation_needs_next_ply_same_result_and_position() {
    let entries = ep1_entries();
    assert!(entries[0].is_continuation(&entries[1]));
    assert!(entries[1].is_continuation(&entries[2]));
    let mut other_result = entries[1];
    other_result.result = 1;
    assert!(!entries[0].is_continuation(&other_result));
    let mut other_ply = entries[1];
    other_ply.ply = 70;
    assert!(!entries[0].is_continuation(&other_ply));
    assert!(!entries[0].is_continuation(&entries[2]));
}

#[test]
fn zigzag_values() {
    assert_eq!(signed_to_unsigned(0), 0);
    assert_eq!(signed_to_unsigned(-1), 1);
    assert_eq!(signed_to_unsigned(1), 2);
    assert_eq!(signed_to_unsigned(-127), 253);
    assert_eq!(signed_to_unsigned(i16::MIN), 65535);
    assert_eq!(unsigned_to_signed(253), -127);
    assert_eq!(unsigned_to_signed(65534), 32767);
}

#[test]
fn used_bits_values() {
    assert_eq!(used_bits(0), 0);
    assert_eq!(used_bits(1), 0);
    assert_eq!(used_bits(2), 1);
    assert_eq!(used_bits(3), 2);
    assert_eq!(used_bits(16), 4);
    assert_eq!(used_bits(17), 5);
}

#[test]
fn compressed_move_round_trip() {
    let m = Move::new(Square::new(61), Square::new(58), MoveType::Normal, Piece::none());
    assert_eq!(m.compress().packed, 0x3de8);
    assert_eq!(CompressedMove { packed: 0x3de8 }.decompress(), m);
    let promo = Move::promotion(
        Square::new(52),
        Square::new(60),
        Piece::new(PieceType::Queen, sfbinpack::coords::Color::White),
    );
    assert_eq!(promo.compress().decompress(), promo);
    assert_eq!(promo.as_uci(), "e7e8q");
    assert_eq!(CompressedMove { packed: 0 }.decompress(), Move::null());
}

#[test]
fn chunk_framing() {
    let payload = vec![1u8, 2, 3];
    let framed = frame_chunk(&payload);
    assert_eq!(framed, vec![66, 73, 78, 80, 3, 0, 0, 0, 1, 2, 3]);
    assert_eq!(read_chunk_header(&framed, 0).unwrap(), (8, 3));
    let mut bad = framed.clone();
    bad[0] = b'X';
    assert!(read_chunk_header(&bad, 0).is_err());
    assert!(read_chunk_header(&framed[..10].to_vec(), 0).is_err());
}

#[test]
fn reader_rejects_empty_and_bad_input() {
    assert!(matches!(
        CompressedTrainingDataEntryReader::new(Vec::new()),
        Err(CompressedReaderError::EndOfFile)
    ));
    assert!(matches!(
        CompressedTrainingDataEntryReader::new(vec![1, 2, 3, 4, 5, 6, 7, 8, 9]),
        Err(CompressedReaderError::InvalidFormat(_))
    ));
}

#[test]
fn writer_splits_large_output_into_chunks() {
    let entry = ep1_entries()[0];
    let mut writer = CompressedTrainingDataEntryWriter::new();
    let mut bytes: Vec<u8> = Vec::new();
    let n = 40000;
    for _ in 0..n {
        bytes.extend(writer.write_entry(&entry));
    }
    bytes.extend(writer.flush());
    let (start, len) = read_chunk_header(&bytes, 0).unwrap();
    assert_eq!(start, 8);
    assert!(len >= 1048576);
    assert!(read_chunk_header(&bytes, start + len).is_ok());
    let mut reader = CompressedTrainingDataEntryReader::new(bytes.clone()).unwrap();
    assert_eq!(reader.file_size(), bytes.len() as u64);
    let mut count = 0;
    while reader.has_next() {
        let e = reader.next();
        assert_eq!(e, entry);
        assert!(!reader.is_next_entry_continuation());
        count += 1;
    }
    assert_eq!(count, n);
    assert_eq!(reader.read_bytes(), bytes.len() as u64);
}

#[test]
fn reader_reports_chain_continuations() {
    let mut reader = CompressedTrainingDataEntryReader::new(EP1.to_vec()).unwrap();
    let _ = reader.next();
    assert!(reader.is_next_entry_continuation());
    let _ = reader.next();
    assert!(reader.is_next_entry_continuation());
    let _ = reader.next();
    assert!(!reader.is_next_entry_continuation());
    assert!(!reader.has_next());
}

fn legal_moves(pos: &Position) -> Vec<Move> {
    sfbinpack::movegen::pseudo_legal_moves(pos)
        .iter()
        .copied()
        .filter(|m| !pos.after_move(*m).is_checked(pos.side_to_move()))
        .collect()
}

#[test]
fn every_generated_move_survives_a_chain() {
    let bases = [
        "rnbqkbnr/pppppppp/8/8/8/8/PPPPPPPP/RNBQKBNR w KQkq - 0 1",
        "r3k2r/p1ppqpb1/bn2pnp1/3PN3/1p2P3/2N2Q1p/PPPBBPPP/R3K2R w KQkq - 0 1",
        "r3k2r/Pppp1ppp/1b3nbN/nP6/BBP1P3/q4N2/Pp1P2PP/R2Q1RK1 w kq - 0 1",
    ];
    let mut checked = 0;
    for fen in bases.iter() {
        let base = Position::from_fen(fen).unwrap();
        for m0 in legal_moves(&base) {
            let pos = base.after_move(m0);
            for m in legal_moves(&pos) {
                let e1 = TrainingDataEntry { pos: base, mv: m0, score: 17, ply: 0, result: 1 };
                let e2 = TrainingDataEntry { pos, mv: m, score: -40, ply: 1, result: 1 };
                let mut writer = CompressedTrainingDataEntryWriter::new();
                let mut bytes: Vec<u8> = Vec::new();
                bytes.extend(writer.write_entry(&e1));
                bytes.extend(writer.write_entry(&e2));
                bytes.extend(writer.flush());
                let mut reader = CompressedTrainingDataEntryReader::new(bytes).unwrap();
                let r1 = reader.next();
                assert_eq!(r1, e1);
                assert!(reader.is_next_entry_continuation());
                let r2 = reader.next();
                assert_eq!(r2, e2);
                assert!(!reader.has_next());
                checked += 1;
            }
        }
    }
    assert!(checked > 2000);
}

#[test]
fn malformed_later_chunk_is_reported() {
    let mut bytes = EP1.to_vec();
    bytes.extend_from_slice(&[b'X', b'X', b'X', b'X', 0, 0, 0, 0]);
    let mut reader = CompressedTrainingDataEntryReader::new(bytes).unwrap();
    let mut count = 0;
    while reader.has_next() {
        let _ = reader.next();
        count += 1;
    }
    assert_eq!(count, 3);
    assert!(matches!(reader.error, Some(CompressedReaderError::InvalidFormat(_))));
    let mut clean = CompressedTrainingDataEntryReader::new(EP1.to_vec()).unwrap();
    while clean.has_next() {
        let _ = clean.next();
    }
    assert!(clean.error.is_none());
}

#[test]
fn castling_renders_king_to_rook() {
    let m = Move::from_castle(sfbinpack::castling::CastleType::Short, sfbinpack::coords::Color::White);
    assert_eq!(m.as_uci(), "e1h1");
    let l = Move::from_castle(sfbinpack::castling::CastleType::Long, sfbinpack::coords::Color::Black);
    assert_eq!(l.as_uci(), "e8a8");
}
