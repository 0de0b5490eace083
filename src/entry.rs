use vstd::prelude::*;
use crate::arithmetic::{
    lemma_zigzag_round_trip, signed_to_unsigned, unsigned_to_signed, unzigzag, zigzag,
};
use crate::chess_move::{
    is_promo_type, lemma_move_round_trip, move_word, packable, word_move, CompressedMove, Move,
    MoveType,
};
use crate::compressed_position::{
    be_u64, coded_count, compressible, decodes_to, lemma_position_round_trip, nibble, piece_nibble,
    CompressedPosition,
};
use crate::bits::squares;
use crate::position::{makes, Position};

verus! {

/// One training record: a position, the move played there, its score, the game ply and the
/// game result (1, 0, -1 for a white win, draw, white loss).
#[derive(Debug, Clone, Copy, PartialEq, Eq)]
pub struct TrainingDataEntry {
    pub pos: Position,
    pub mv: Move,
    pub score: i16,
    pub ply: u16,
    pub result: i16,
}

/// The 32-byte stem record of an entry.
#[derive(Debug, Clone, PartialEq, Eq)]
pub struct PackedTrainingDataEntry {
    pub data: [u8; 32],
}

/// The big-endian 16-bit word at `i`.
pub open spec fn be16(b: Seq<u8>, i: int) -> int {
    b[i] * 256 + b[i + 1]
}

/// Two positions with the same board and game state.
pub open spec fn same_position(a: Position, b: Position) -> bool {
    &&& a.pieces@ == b.pieces@
    &&& a.stm == b.stm
    &&& a.castling_rights == b.castling_rights
    &&& a.halfm == b.halfm
    &&& a.fullm == b.fullm
    &&& a.enpassant == b.enpassant
}

/// A move that can be played on its position and packed into 16 bits.
pub open spec fn playable(m: Move) -> bool {
    &&& m.on_board()
    &&& m.move_type == MoveType::Promotion ==> m.promoted_piece.valid() && is_promo_type(
        m.promoted_piece.spec_type(),
    )
}

/// `b` follows `a` in the same game: same result, next ply, and the position after `a`'s move.
pub open spec fn continues(a: TrainingDataEntry, b: TrainingDataEntry) -> bool {
    &&& playable(a.mv)
    &&& b.result == a.result
    &&& b.ply == a.ply + 1
    &&& makes(a.pos, a.mv, b.pos)
}

impl Position {
    /// Whether two positions have the same board and game state.
    pub fn same_as(&self, other: &Position) -> (r: bool)
        ensures
            r == same_position(*self, *other),
    {
        let mut i: usize = 0;
        while i < 64
            invariant
                i <= 64,
                forall|j: int| 0 <= j < i ==> self.pieces@[j] == other.pieces@[j],
            decreases 64 - i,
        {
            if self.pieces[i].id != other.pieces[i].id {
                return false;
            }
            i = i + 1;
        }
        proof {
            assert(self.pieces@ =~= other.pieces@);
        }
        self.stm == other.stm && self.castling_rights.bits == other.castling_rights.bits
            && self.halfm == other.halfm && self.fullm == other.fullm && self.enpassant.idx
            == other.enpassant.idx
    }
}

impl TrainingDataEntry {
    /// Whether `next` continues this entry: same result, next ply, and the position reached by
    /// this entry's move.
    pub fn is_continuation(&self, next: &TrainingDataEntry) -> (r: bool)
        requires
            self.pos.wf(),
        ensures
            r == continues(*self, *next),
    {
        if !(self.mv.from.idx < 64 && self.mv.to.idx < 64) {
            return false;
        }
        if self.mv.move_type == MoveType::Promotion {
            let pt = self.mv.promoted_piece;
            if !(pt.id <= 12 && pt.id / 2 >= 1 && pt.id / 2 <= 4) {
                return false;
            }
        }
        if next.result != self.result || self.ply == 0xFFFF || next.ply != self.ply + 1 {
            return false;
        }
        let after = self.pos.after_move(self.mv);
        after.same_as(&next.pos)
    }
}

/// `b` is the 32-byte stem record of entry `e`: compressed position, move, score, result with
/// ply, and fifty-move counter, all big-endian.
pub open spec fn stem_of(b: Seq<u8>, e: TrainingDataEntry) -> bool {
    let occ = e.pos.occ();
    let ps = b.subrange(8, 24);
    &&& b.len() == 32
    &&& be_u64(b.subrange(0, 8)) == occ
    &&& forall|k: int|
        0 <= k < coded_count(occ) ==> nibble(ps, k) == piece_nibble(e.pos, squares(occ)[k] as int)
    &&& forall|k: int| coded_count(occ) <= k < 32 ==> nibble(ps, k) == 0
    &&& be16(b, 24) == move_word(e.mv)
    &&& be16(b, 26) == zigzag(e.score as int)
    &&& be16(b, 28) == zigzag(e.result as int) * 0x4000 + e.ply % 0x4000
    &&& be16(b, 30) == e.pos.halfm
}

/// `r` is the entry that the 32-byte stem record `b` stands for.
pub open spec fn unpacks_to(b: Seq<u8>, r: TrainingDataEntry) -> bool {
    &&& decodes_to(be_u64(b.subrange(0, 8)) as u64, b.subrange(8, 24), r.pos)
    &&& r.mv == word_move(be16(b, 24) as u16)
    &&& r.score == unzigzag(be16(b, 26))
    &&& r.ply == be16(b, 28) % 0x4000
    &&& r.result == unzigzag(be16(b, 28) / 0x4000)
    &&& r.pos.fullm == r.ply / 2 + 1
    &&& r.pos.halfm == be16(b, 30) % 256
}

/// Unpacking the stem record of an entry gives the entry back, when its position survives
/// compression, its move packs without loss, its ply fits in 14 bits and agrees with the
/// fullmove number, and its result is one of -2..=1.
pub proof fn lemma_stem_round_trip(e: TrainingDataEntry, b: Seq<u8>, r: TrainingDataEntry)
    requires
        stem_of(b, e),
        unpacks_to(b, r),
        compressible(e.pos),
        packable(e.mv),
        -2 <= e.result <= 1,
        e.ply < 0x4000,
        e.pos.fullm == e.ply / 2 + 1,
    ensures
        same_position(r.pos, e.pos),
        r.mv == e.mv,
        r.score == e.score,
        r.ply == e.ply,
        r.result == e.result,
{
    let occ = e.pos.occ();
    assert(be_u64(b.subrange(0, 8)) as u64 == occ);
    lemma_position_round_trip(e.pos, b.subrange(8, 24), r.pos);
    lemma_move_round_trip(e.mv);
    lemma_zigzag_round_trip(e.score);
    lemma_zigzag_round_trip(e.result as i16);
    let z = zigzag(e.result as int);
    assert(0 <= z < 4);
    let w = be16(b, 28);
    assert(w == z * 0x4000 + e.ply);
    assert(w % 0x4000 == e.ply && w / 0x4000 == z) by (nonlinear_arith)
        requires
            w == z * 0x4000 + e.ply,
            0 <= z < 4,
            0 <= e.ply < 0x4000,
    ;
}

impl PackedTrainingDataEntry {
    /// The record made of the 32 bytes of `slice`.
    pub fn from_slice(slice: &[u8]) -> (r: PackedTrainingDataEntry)
        requires
            slice@.len() == 32,
        ensures
            r.data@ == slice@,
    {
        let mut data = [0u8; 32];
        let mut i: usize = 0;
        while i < 32
            invariant
                i <= 32,
                slice@.len() == 32,
                forall|j: int| 0 <= j < i ==> data@[j] == slice@[j],
            decreases 32 - i,
        {
            data[i] = slice[i];
            i = i + 1;
        }
        proof {
            assert(data@ =~= slice@);
        }
        PackedTrainingDataEntry { data }
    }

    pub fn byte_size() -> (r: usize)
        ensures
            r == 32,
    {
        32
    }

    fn read_u16_be(&self, offset: usize) -> (r: u16)
        requires
            offset + 1 < 32,
        ensures
            r == be16(self.data@, offset as int),
    {
        (self.data[offset] as u16) * 256 + (self.data[offset + 1] as u16)
    }

    /// The entry the record stands for: position, move, score, ply and result, with the
    /// position's move counters taken from the ply and the fifty-move field.
    pub fn unpack_entry(&self) -> (r: TrainingDataEntry)
        ensures
            r.pos.wf(),
            unpacks_to(self.data@, r),
    {
        let cp = CompressedPosition::read_from_big_endian(self.data.as_slice());
        let mut pos = cp.decompress();
        let cm = CompressedMove::read_from_big_endian(&self.data.as_slice()[24..26]);
        let mv = cm.decompress();
        let score = unsigned_to_signed(self.read_u16_be(26));
        let pr = self.read_u16_be(28);
        let ply = pr % 0x4000;
        let result = unsigned_to_signed(pr / 0x4000);
        let ghost board = pos;
        pos.set_ply(ply);
        pos.set_rule50_counter(self.read_u16_be(30));
        proof {
            crate::position::lemma_same_board_wf(board, pos);
        }
        TrainingDataEntry { pos, mv, score, ply, result }
    }

    /// The record of entry `e`.
    pub fn from_entry(e: &TrainingDataEntry) -> (r: PackedTrainingDataEntry)
        requires
            e.pos.wf(),
            playable(e.mv),
            -2 <= e.result <= 1,
        ensures
            stem_of(r.data@, *e),
    {
        let cp = CompressedPosition::compress(&e.pos);
        let mut bytes: Vec<u8> = Vec::new();
        cp.write_to_big_endian(&mut bytes);
        let ghost b24 = bytes@;
        let w = e.mv.compress().packed;
        bytes.push((w / 256) as u8);
        bytes.push((w % 256) as u8);
        let s = signed_to_unsigned(e.score);
        bytes.push((s / 256) as u8);
        bytes.push((s % 256) as u8);
        let pr = signed_to_unsigned(e.result) * 0x4000 + e.ply % 0x4000;
        bytes.push((pr / 256) as u8);
        bytes.push((pr % 256) as u8);
        let h = e.pos.halfm as u16;
        bytes.push((h / 256) as u8);
        bytes.push((h % 256) as u8);
        proof {
            assert(bytes@.len() == 32);
            assert(bytes@.subrange(0, 8) =~= b24.subrange(0, 8));
            assert(be_u64(bytes@.subrange(0, 8)) == e.pos.occ());
            assert(bytes@.subrange(8, 24) =~= cp.packed_state@);
            assert(cp.occupied.data == e.pos.occ());
            assert(be16(bytes@, 24) == move_word(e.mv));
            assert(be16(bytes@, 26) == zigzag(e.score as int));
            assert(be16(bytes@, 28) == zigzag(e.result as int) * 0x4000 + e.ply % 0x4000);
            assert(be16(bytes@, 30) == e.pos.halfm);
        }
        Self::from_slice(bytes.as_slice())
    }
}

} // verus!
