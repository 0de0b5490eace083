use vstd::prelude::*;
use crate::chain::{codable, PackedMoveScoreList};
use crate::chess_move::Move;
use crate::entry::{continues, playable, PackedTrainingDataEntry, TrainingDataEntry};
use crate::position::Position;
use crate::reader::{le32, magic};

verus! {

/// Why a binpack could not be written.
#[derive(Debug, Clone, PartialEq, Eq)]
pub enum CompressedWriterError {
    /// The underlying byte stream failed.
    Io(String),
    /// An entry cannot be stored.
    InvalidFormat(String),
    /// The output was closed.
    EndOfFile,
}

/// Payload size past which the buffered chains go out as a chunk.
pub const SUGGESTED_CHUNK_SIZE: usize = 1048576;

/// Most plies a chain holds.
pub const MAX_PLIES: u16 = 0xFFFF;

/// The buffer with the open chain closed: its ply count big-endian, then its packed plies.
pub open spec fn closed_buffer(w: CompressedTrainingDataEntryWriter) -> Seq<u8> {
    if w.is_first {
        w.packed_entries@
    } else {
        w.packed_entries@ + seq![
            (w.movelist.num_plies / 256) as u8,
            (w.movelist.num_plies % 256) as u8,
        ] + (if w.movelist.num_plies > 0 {
            w.movelist.movetext@
        } else {
            Seq::empty()
        })
    }
}

/// `r` is the chunk that carries `payload`.
pub open spec fn is_chunk_of(r: Seq<u8>, payload: Seq<u8>) -> bool {
    &&& r.len() == payload.len() + 8
    &&& r.subrange(0, 4) == magic()
    &&& le32(r, 4) == payload.len()
    &&& r.subrange(8, r.len() as int) == payload
}

/// A chunk: the magic, the payload length little-endian, the payload.
pub fn frame_chunk(payload: &Vec<u8>) -> (r: Vec<u8>)
    requires
        payload@.len() < 0x1_0000_0000,
    ensures
        r@.len() == payload@.len() + 8,
        r@.subrange(0, 4) == magic(),
        le32(r@, 4) == payload@.len(),
        r@.subrange(8, r@.len() as int) == payload@,
{
    let n = payload.len();
    let mut out: Vec<u8> = Vec::new();
    out.push(0x42u8);
    out.push(0x49u8);
    out.push(0x4Eu8);
    out.push(0x50u8);
    out.push((n % 0x100) as u8);
    out.push(((n / 0x100) % 0x100) as u8);
    out.push(((n / 0x10000) % 0x100) as u8);
    out.push(((n / 0x1000000) % 0x100) as u8);
    proof {
        assert(out@.subrange(0, 4) =~= magic());
    }
    let mut i: usize = 0;
    while i < n
        invariant
            i <= n,
            n == payload@.len(),
            out@.len() == 8 + i,
            out@.subrange(0, 4) == magic(),
            le32(out@, 4) == n,
            out@.subrange(8, 8 + i as int) == payload@.subrange(0, i as int),
        decreases n - i,
    {
        let ghost before = out@;
        out.push(payload[i]);
        i = i + 1;
        proof {
            assert(out@.subrange(0, 4) =~= before.subrange(0, 4));
            assert(out@.subrange(8, 8 + i as int) =~= payload@.subrange(0, i as int));
        }
    }
    proof {
        assert(payload@.subrange(0, n as int) =~= payload@);
    }
    out
}

/// Packs training entries into binpack chunks. Consecutive entries of one game go into a
/// chain after the stem of the first of them.
#[derive(Debug)]
pub struct CompressedTrainingDataEntryWriter {
    pub last_entry: TrainingDataEntry,
    pub movelist: PackedMoveScoreList,
    /// Stems and closed chains waiting to go out.
    pub packed_entries: Vec<u8>,
    pub is_first: bool,
}

impl CompressedTrainingDataEntryWriter {
    pub open spec fn wf(self) -> bool {
        &&& self.last_entry.pos.wf()
        &&& self.movelist.wf()
        &&& self.movelist.movetext@.len() <= 160 * self.movelist.num_plies
        &&& self.packed_entries@.len() <= SUGGESTED_CHUNK_SIZE + 32
        &&& self.movelist.num_plies <= MAX_PLIES
        &&& self.is_first ==> self.packed_entries@.len() == 0 && self.last_entry.mv.from.idx == 64
    }

    /// A writer with nothing buffered.
    pub fn new() -> (r: CompressedTrainingDataEntryWriter)
        ensures
            r.wf(),
            r.is_first,
            r.packed_entries@.len() == 0,
    {
        CompressedTrainingDataEntryWriter {
            last_entry: TrainingDataEntry {
                ply: 0xFFFF,
                result: 0x7FFF,
                pos: Position::new(),
                mv: Move::null(),
                score: 0,
            },
            movelist: PackedMoveScoreList::new(),
            packed_entries: Vec::new(),
            is_first: true,
        }
    }

    /// Closes the current chain: its ply count big-endian, then its packed plies.
    fn write_movelist(&mut self)
        requires
            old(self).wf(),
            old(self).packed_entries@.len() <= SUGGESTED_CHUNK_SIZE + 32,
        ensures
            final(self).last_entry == old(self).last_entry,
            final(self).movelist == old(self).movelist,
            final(self).is_first == old(self).is_first,
            final(self).packed_entries@.len() <= SUGGESTED_CHUNK_SIZE + 34 + 160 * 0xFFFF,
            final(self).packed_entries@ == old(self).packed_entries@ + seq![
                (old(self).movelist.num_plies / 256) as u8,
                (old(self).movelist.num_plies % 256) as u8,
            ] + (if old(self).movelist.num_plies > 0 {
                old(self).movelist.movetext@
            } else {
                Seq::empty()
            }),
    {
        let n = self.movelist.num_plies;
        self.packed_entries.push((n / 256) as u8);
        self.packed_entries.push((n % 256) as u8);
        let ghost mid = self.packed_entries@;
        if n > 0 {
            let mt = self.movelist.movetext();
            let mut i: usize = 0;
            while i < mt.len()
                invariant
                    i <= mt@.len(),
                    mt@ == old(self).movelist.movetext@,
                    self.packed_entries@ == mid + mt@.subrange(0, i as int),
                    mid.len() <= SUGGESTED_CHUNK_SIZE + 34,
                    mt@.len() <= 160 * 0xFFFF,
                    self.last_entry == old(self).last_entry,
                    self.movelist == old(self).movelist,
                    self.is_first == old(self).is_first,
                decreases mt@.len() - i,
            {
                self.packed_entries.push(mt[i]);
                i = i + 1;
                proof {
                    assert(self.packed_entries@ =~= mid + mt@.subrange(0, i as int));
                }
            }
            proof {
                assert(mt@.subrange(0, i as int) =~= mt@);
            }
        }
        proof {
            assert(self.packed_entries@ =~= old(self).packed_entries@ + seq![
                (n / 256) as u8,
                (n % 256) as u8,
            ] + (if n > 0 {
                old(self).movelist.movetext@
            } else {
                Seq::empty()
            }));
        }
    }

    /// Adds entry `entry`; returns the bytes of a finished chunk to append to the output, or
    /// nothing. An entry that continues the last one adds a ply to its chain; any other closes
    /// the chain and starts a new stem, first sending out the buffer once it holds a chunk's
    /// worth. A chain is also closed, and the entry written as a new stem, when it already holds
    /// 65535 plies (the most its count can say) or when the entry's move is not one a ply can
    /// code; this bounds every chain, so a chunk never exceeds its target by more than one chain.
    pub fn write_entry(&mut self, entry: &TrainingDataEntry) -> (r: Vec<u8>)
        requires
            old(self).wf(),
            entry.pos.wf(),
            playable(entry.mv),
            -2 <= entry.result <= 1,
        ensures
            final(self).wf(),
            final(self).last_entry == *entry,
            !old(self).is_first ==> !final(self).is_first,
            (continues(old(self).last_entry, *entry) && codable(entry.pos, entry.mv)
                && old(self).movelist.num_plies < MAX_PLIES) ==> r@.len() == 0
                && final(self).packed_entries == old(self).packed_entries
                && final(self).movelist.bits() == old(self).movelist.bits() + crate::chain::ply_bits(
                entry.pos,
                entry.mv,
                entry.score,
                old(self).movelist.last_score,
            ) && final(self).movelist.num_plies == old(self).movelist.num_plies + 1,
            !(continues(old(self).last_entry, *entry) && codable(entry.pos, entry.mv)
                && old(self).movelist.num_plies < MAX_PLIES) ==> !final(self).is_first
                && final(self).movelist.num_plies == 0 && final(self).movelist.bits().len() == 0
                && final(self).packed_entries@.len() >= 32 && crate::entry::stem_of(
                final(self).packed_entries@.subrange(
                    final(self).packed_entries@.len() - 32,
                    final(self).packed_entries@.len() as int,
                ),
                *entry,
            ) && (if closed_buffer(*old(self)).len() >= SUGGESTED_CHUNK_SIZE {
                is_chunk_of(r@, closed_buffer(*old(self))) && final(self).packed_entries@.len() == 32
            } else {
                r@.len() == 0 && final(self).packed_entries@.len() == closed_buffer(*old(self)).len()
                    + 32 && final(self).packed_entries@.subrange(
                    0,
                    closed_buffer(*old(self)).len() as int,
                ) == closed_buffer(*old(self))
            }),
    {
        let is_cont = self.last_entry.is_continuation(entry);
        let mut out: Vec<u8> = Vec::new();
        if is_cont && self.movelist.num_plies < MAX_PLIES && is_codable(&entry.pos, entry.mv) {
            self.movelist.add_move_score(&entry.pos, entry.mv, entry.score);
        } else {
            if !self.is_first {
                self.write_movelist();
            }
            if self.packed_entries.len() >= SUGGESTED_CHUNK_SIZE {
                out = frame_chunk(&self.packed_entries);
                self.packed_entries = Vec::new();
            }
            let packed = PackedTrainingDataEntry::from_entry(entry);
            let ghost before = self.packed_entries@;
            let mut i: usize = 0;
            while i < 32
                invariant
                    i <= 32,
                    self.packed_entries@ == before + packed.data@.subrange(0, i as int),
                    before.len() < SUGGESTED_CHUNK_SIZE,
                decreases 32 - i,
            {
                self.packed_entries.push(packed.data[i]);
                i = i + 1;
                proof {
                    assert(self.packed_entries@ =~= before + packed.data@.subrange(0, i as int));
                }
            }
            proof {
                assert(packed.data@.subrange(0, 32) =~= packed.data@);
                assert(self.packed_entries@.subrange(
                    self.packed_entries@.len() - 32,
                    self.packed_entries@.len() as int,
                ) =~= packed.data@);
            }
            self.movelist.clear(entry);
            self.is_first = false;
        }
        self.last_entry = *entry;
        out
    }

    /// Closes the open chain and returns the last chunk, or nothing when no entry is buffered.
    /// The writer then starts afresh.
    pub fn flush(&mut self) -> (r: Vec<u8>)
        requires
            old(self).wf(),
        ensures
            final(self).wf(),
            final(self).is_first,
            final(self).packed_entries@.len() == 0,
            old(self).is_first ==> r@.len() == 0,
            !old(self).is_first ==> is_chunk_of(r@, closed_buffer(*old(self))),
    {
        if self.is_first {
            return Vec::new();
        }
        self.write_movelist();
        let out = frame_chunk(&self.packed_entries);
        *self = Self::new();
        out
    }
}

/// Whether the chain can code move `m` on `p`.
fn is_codable(p: &Position, m: Move) -> (r: bool)
    requires
        p.wf(),
    ensures
        r == codable(*p, m),
{
    if !(m.from.idx < 64 && m.to.idx < 64) {
        return false;
    }
    let pc = p.pieces[m.from.idx as usize];
    pc.id != 12 && pc.id % 2 == p.stm.ordinal() && m.promoted_piece.id <= 12
        && m.promoted_piece.id >= 2
}

} // verus!
