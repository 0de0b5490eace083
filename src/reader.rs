use vstd::prelude::*;
use std::rc::Rc;
use crate::arithmetic::unzigzag;
use crate::bitstream::vle_bits;
use crate::chain::{chain_move_ok, ply_head, wrap16};
use crate::chain_reader::{seg_at, PackedMoveScoreListReader};
use crate::chess_move::Move;
use crate::position::makes;
use crate::entry::{playable, unpacks_to, PackedTrainingDataEntry, TrainingDataEntry};

verus! {

/// Why a binpack could not be read.
#[derive(Debug, Clone, PartialEq, Eq)]
pub enum CompressedReaderError {
    /// The underlying byte stream failed.
    Io(String),
    /// The bytes are not a binpack.
    InvalidFormat(String),
    /// The input holds no chunk.
    EndOfFile,
}

/// Relies on `Rc::clone`: a second handle to the same value.
#[verifier::external_body]
fn share(c: &Rc<Vec<u8>>) -> (r: Rc<Vec<u8>>)
    ensures
        r == *c,
{
    Rc::clone(c)
}

/// A fresh vector of the `len` bytes of `data` from `start` on.
fn copy_range(data: &Vec<u8>, start: usize, len: usize) -> (r: Vec<u8>)
    requires
        start + len <= data@.len(),
    ensures
        r@ == data@.subrange(start as int, start + len),
{
    let mut out: Vec<u8> = Vec::new();
    let mut i: usize = 0;
    let n = data.len();
    while i < len
        invariant
            i <= len,
            n == data@.len(),
            start + len <= n,
            out@ == data@.subrange(start as int, start + i),
        decreases len - i,
    {
        out.push(data[start + i]);
        i = i + 1;
        proof {
            assert(out@ =~= data@.subrange(start as int, start + i));
        }
    }
    out
}

/// The four magic bytes that open every chunk: `BINP`.
pub open spec fn magic() -> Seq<u8> {
    seq![0x42u8, 0x49u8, 0x4Eu8, 0x50u8]
}

/// The little-endian 32-bit word at `i`.
pub open spec fn le32(b: Seq<u8>, i: int) -> int {
    b[i] + b[i + 1] * 0x100 + b[i + 2] * 0x10000 + b[i + 3] * 0x1000000
}

/// Largest chunk payload the reader takes.
pub const MAX_CHUNK: usize = 0x0FFF_FFFF;

/// The result is an `InvalidFormat` error.
pub open spec fn invalid_format<T>(r: Result<T, CompressedReaderError>) -> bool {
    match r {
        Err(CompressedReaderError::InvalidFormat(_)) => true,
        _ => false,
    }
}

/// A well-formed chunk header starts at `offset`: the magic, then a length that the data holds.
pub open spec fn header_ok(data: Seq<u8>, offset: int) -> bool {
    offset + 8 <= data.len() && data.subrange(offset, offset + 4) == magic() && offset + 8 + le32(
        data,
        offset + 4,
    ) <= data.len() && le32(data, offset + 4) <= MAX_CHUNK
}

/// The payload of the chunk whose header starts at `offset`: its start and length.
pub fn read_chunk_header(data: &Vec<u8>, offset: usize) -> (r: Result<(usize, usize), CompressedReaderError>)
    ensures
        r.is_ok() <==> header_ok(data@, offset as int),
        r.is_err() ==> invalid_format(r),
        r.is_ok() ==> r.unwrap().0 == offset + 8 && r.unwrap().1 == le32(data@, offset + 4),
{
    if offset > data.len() || data.len() - offset < 8 {
        return Err(CompressedReaderError::InvalidFormat(String::new()));
    }
    if !(data[offset] == 0x42 && data[offset + 1] == 0x49 && data[offset + 2] == 0x4E
        && data[offset + 3] == 0x50) {
        proof {
            if data@.subrange(offset as int, offset + 4) == magic() {
                assert(data@.subrange(offset as int, offset + 4)[0] == data@[offset as int]);
                assert(data@.subrange(offset as int, offset + 4)[1] == data@[offset + 1]);
                assert(data@.subrange(offset as int, offset + 4)[2] == data@[offset + 2]);
                assert(data@.subrange(offset as int, offset + 4)[3] == data@[offset + 3]);
            }
        }
        return Err(CompressedReaderError::InvalidFormat(String::new()));
    }
    proof {
        assert(data@.subrange(offset as int, offset + 4) =~= magic());
    }
    let len = (data[offset + 4] as u64) + (data[offset + 5] as u64) * 0x100 + (data[offset + 6] as u64)
        * 0x10000 + (data[offset + 7] as u64) * 0x1000000;
    if len > MAX_CHUNK as u64 || len > (data.len() - offset - 8) as u64 {
        return Err(CompressedReaderError::InvalidFormat(String::new()));
    }
    Ok((offset + 8, len as usize))
}

/// Reads binpack entries from the bytes of a binpack file, chunk by chunk.
#[derive(Debug)]
pub struct CompressedTrainingDataEntryReader {
    pub data: Vec<u8>,
    pub chunk: Rc<Vec<u8>>,
    pub movelist_reader: Option<PackedMoveScoreListReader>,
    /// Offset in `data` of the next chunk header.
    pub next_chunk: usize,
    /// Offset in the current chunk.
    pub offset: usize,
    pub is_end: bool,
    /// Why reading stopped early, when a later chunk was malformed.
    pub error: Option<CompressedReaderError>,
}

/// Where the reader settles from chunk state (`nc`, `chunk`, `off`): at a stem in the current
/// chunk when it holds a stem and its count from `off` on, else in the next chunk that does.
/// The result is (ended, next chunk header, chunk, offset, failed on a malformed chunk).
pub open spec fn settle(data: Seq<u8>, nc: int, chunk: Seq<u8>, off: int) -> (bool, int, Seq<u8>, int, bool)
    decreases data.len() - nc,
{
    if off + 34 <= chunk.len() {
        (false, nc, chunk, off, false)
    } else if nc < 0 || nc >= data.len() {
        (true, nc, chunk, off, false)
    } else if !header_ok(data, nc) {
        (true, nc, chunk, off, true)
    } else {
        let len = le32(data, nc + 4);
        settle(data, nc + 8 + len, data.subrange(nc + 8, nc + 8 + len), 0)
    }
}

impl CompressedTrainingDataEntryReader {
    /// The reader stands where `t`, a result of [`settle`], says.
    pub open spec fn settled_at(self, t: (bool, int, Seq<u8>, int, bool)) -> bool {
        &&& self.is_end == t.0
        &&& self.next_chunk == t.1
        &&& (*self.chunk)@ == t.2
        &&& self.offset == t.3
        &&& self.error.is_some() == t.4
        &&& self.error.is_some() ==> invalid_format(Err::<(), CompressedReaderError>(self.error.unwrap()))
        &&& self.movelist_reader.is_none()
    }

    pub open spec fn wf(self) -> bool {
        &&& self.error.is_some() ==> self.is_end
        &&& self.next_chunk <= self.data@.len()
        &&& (*self.chunk)@.len() <= MAX_CHUNK
        &&& self.offset <= (*self.chunk)@.len()
        &&& !self.is_end ==> match self.movelist_reader {
            None => self.offset + 34 <= (*self.chunk)@.len(),
            Some(r) => r.wf() && r.num_read_plies < r.num_plies && r.reader.movetext == self.chunk
                && r.reader.base == self.offset,
        }
    }

    /// A reader over the bytes of a binpack; fails when they hold no chunk or a malformed one.
    pub fn new(data: Vec<u8>) -> (r: Result<CompressedTrainingDataEntryReader, CompressedReaderError>)
        ensures
            data@.len() == 0 ==> r == Err::<CompressedTrainingDataEntryReader, CompressedReaderError>(
                CompressedReaderError::EndOfFile,
            ),
            data@.len() > 0 ==> (r.is_ok() <==> header_ok(data@, 0)),
            data@.len() > 0 && !header_ok(data@, 0) ==> invalid_format(r),
            r.is_ok() ==> r.unwrap().wf() && r.unwrap().data@ == data@ && r.unwrap().settled_at(
                settle(
                    data@,
                    8 + le32(data@, 4),
                    data@.subrange(8, 8 + le32(data@, 4)),
                    0,
                ),
            ),
    {
        if data.len() == 0 {
            return Err(CompressedReaderError::EndOfFile);
        }
        let mut reader = CompressedTrainingDataEntryReader {
            data,
            chunk: Rc::new(Vec::new()),
            movelist_reader: None,
            next_chunk: 0,
            offset: 0,
            is_end: true,
            error: None,
        };
        match reader.load_chunk() {
            Ok(()) => {},
            Err(e) => {
                return Err(e);
            },
        }
        reader.fetch_next_chunk_if_needed();
        Ok(reader)
    }

    /// Loads the chunk at `next_chunk`.
    fn load_chunk(&mut self) -> (r: Result<(), CompressedReaderError>)
        requires
            old(self).next_chunk <= old(self).data@.len(),
            old(self).is_end,
            (*old(self).chunk)@.len() <= MAX_CHUNK,
            old(self).offset <= (*old(self).chunk)@.len(),
        ensures
            final(self).next_chunk <= final(self).data@.len(),
            final(self).data == old(self).data,
            final(self).is_end,
            (*final(self).chunk)@.len() <= MAX_CHUNK,
            final(self).offset <= (*final(self).chunk)@.len(),
            final(self).movetext_free(),
            r.is_ok() ==> final(self).offset == 0 && final(self).next_chunk > old(self).next_chunk,
            r.is_ok() <==> header_ok(old(self).data@, old(self).next_chunk as int),
            r.is_err() ==> invalid_format(r),
            r.is_ok() ==> (*final(self).chunk)@ == old(self).data@.subrange(
                old(self).next_chunk + 8,
                old(self).next_chunk + 8 + le32(old(self).data@, old(self).next_chunk + 4),
            ) && final(self).next_chunk == old(self).next_chunk + 8 + le32(
                old(self).data@,
                old(self).next_chunk + 4,
            ),
            r.is_err() ==> final(self).chunk == old(self).chunk && final(self).offset == old(
                self,
            ).offset && final(self).next_chunk == old(self).next_chunk,
            final(self).error == old(self).error,
    {
        match read_chunk_header(&self.data, self.next_chunk) {
            Ok((start, len)) => {
                let dl = self.data.len();
                assert(start + len <= dl);
                let bytes = copy_range(&self.data, start, len);
                self.chunk = Rc::new(bytes);
                self.offset = 0;
                self.next_chunk = start + len;
                self.movelist_reader = None;
                Ok(())
            },
            Err(e) => {
                self.movelist_reader = None;
                Err(e)
            },
        }
    }

    pub open spec fn movetext_free(self) -> bool {
        self.movelist_reader.is_none()
    }

    /// Makes the reader point at the next stem, loading chunks as needed, or ends it.
    fn fetch_next_chunk_if_needed(&mut self)
        requires
            old(self).next_chunk <= old(self).data@.len(),
            (*old(self).chunk)@.len() <= MAX_CHUNK,
            old(self).offset <= (*old(self).chunk)@.len(),
            old(self).movelist_reader.is_none(),
            old(self).error.is_none(),
        ensures
            final(self).wf(),
            final(self).data == old(self).data,
            final(self).settled_at(
                settle(
                    old(self).data@,
                    old(self).next_chunk as int,
                    (*old(self).chunk)@,
                    old(self).offset as int,
                ),
            ),
            old(self).offset + 34 <= (*old(self).chunk)@.len() ==> final(self).chunk == old(
                self,
            ).chunk,
        decreases old(self).data@.len() - old(self).next_chunk,
    {
        if self.offset + 34 <= self.chunk.len() {
            self.is_end = false;
            return;
        }
        self.is_end = true;
        if self.next_chunk < self.data.len() {
            match self.load_chunk() {
                Ok(()) => {
                    self.fetch_next_chunk_if_needed();
                },
                Err(e) => {
                    self.error = Some(e);
                },
            }
        }
    }

    /// Size of the input in bytes.
    pub fn file_size(&self) -> (r: u64)
        ensures
            r == self.data@.len(),
    {
        self.data.len() as u64
    }

    /// Bytes of the input taken in so far, whole chunks.
    pub fn read_bytes(&self) -> (r: u64)
        ensures
            r == self.next_chunk,
    {
        self.next_chunk as u64
    }

    /// Whether another entry can be read.
    pub fn has_next(&self) -> (r: bool)
        ensures
            r == !self.is_end,
    {
        !self.is_end
    }

    /// Whether the next entry continues the chain of the last one returned.
    pub fn is_next_entry_continuation(&self) -> (r: bool)
        ensures
            r == (self.movelist_reader.is_some() && self.movelist_reader.unwrap().num_read_plies
                < self.movelist_reader.unwrap().num_plies),
    {
        match &self.movelist_reader {
            Some(r) => r.has_next(),
            None => false,
        }
    }

    /// The big-endian ply count that follows the stem at the current offset.
    pub open spec fn plies_word(self) -> int {
        (*self.chunk)@[self.offset + 32] * 256 + (*self.chunk)@[self.offset + 33]
    }

    /// The next entry: a stem, or the next ply of the current chain.
    pub fn next(&mut self) -> (r: TrainingDataEntry)
        requires
            old(self).wf(),
            !old(self).is_end,
        ensures
            final(self).wf(),
            final(self).data == old(self).data,
            r.pos.wf(),
            old(self).movelist_reader.is_none() ==> unpacks_to(
                (*old(self).chunk)@.subrange(old(self).offset as int, old(self).offset + 32),
                r,
            ),
            old(self).movelist_reader.is_some() ==> r.result == old(self).movelist_reader.unwrap().entry.result
                && r.ply == (old(self).movelist_reader.unwrap().entry.ply + 1) % 0x10000,
            old(self).movelist_reader.is_some() && playable(old(self).movelist_reader.unwrap().entry.mv)
                ==> makes(
                old(self).movelist_reader.unwrap().entry.pos,
                old(self).movelist_reader.unwrap().entry.mv,
                r.pos,
            ),
            old(self).movelist_reader.is_none() && old(self).plies_word() > 0 ==> ({
                let rd = final(self).movelist_reader.unwrap();
                &&& final(self).movelist_reader.is_some()
                &&& !final(self).is_end
                &&& final(self).chunk == old(self).chunk
                &&& final(self).offset == old(self).offset + 34
                &&& rd.entry == r
                &&& rd.num_plies == old(self).plies_word()
                &&& rd.num_read_plies == 0
                &&& rd.last_score == wrap16(-r.score)
                &&& rd.reader.movetext == old(self).chunk
                &&& rd.reader.base == old(self).offset + 34
                &&& rd.reader.pos() == 0
            }),
            old(self).movelist_reader.is_none() && old(self).plies_word() == 0 ==> final(self).settled_at(
                settle(
                    old(self).data@,
                    old(self).next_chunk as int,
                    (*old(self).chunk)@,
                    old(self).offset + 34,
                ),
            ),
            old(self).movelist_reader.is_some() && final(self).movelist_reader.is_some() ==> ({
                let o = old(self).movelist_reader.unwrap();
                let rd = final(self).movelist_reader.unwrap();
                &&& !final(self).is_end
                &&& final(self).chunk == old(self).chunk
                &&& final(self).offset == old(self).offset
                &&& final(self).next_chunk == old(self).next_chunk
                &&& final(self).error.is_none()
                &&& rd.entry == r
                &&& rd.num_plies == o.num_plies
                &&& o.num_read_plies < rd.num_read_plies < rd.num_plies
                &&& rd.reader.movetext == o.reader.movetext
                &&& rd.reader.base == o.reader.base
                &&& rd.last_score == wrap16(-r.score)
            }),
            old(self).movelist_reader.is_some() && final(self).movelist_reader.is_none() ==> exists|
                n: int,
            |
                old(self).offset <= n <= (*old(self).chunk)@.len() && final(self).settled_at(
                    settle(old(self).data@, old(self).next_chunk as int, (*old(self).chunk)@, n),
                ),
            old(self).movelist_reader.is_some() ==> forall|m: Move, d: u16|
                #![trigger chain_move_ok(r.pos, m), vle_bits(d as nat, 4)]
                chain_move_ok(r.pos, m) && seg_at(
                    old(self).movelist_reader.unwrap().reader.bits(),
                    old(self).movelist_reader.unwrap().reader.pos(),
                    ply_head(r.pos, m) + vle_bits(d as nat, 4),
                ) ==> r.mv == m && r.score == wrap16(
                    old(self).movelist_reader.unwrap().last_score + unzigzag(d as int),
                ) && ({
                    let o = old(self).movelist_reader.unwrap();
                    let after = o.reader.pos() + ply_head(r.pos, m).len() + vle_bits(
                        d as nat,
                        4,
                    ).len();
                    if o.num_read_plies + 1 < o.num_plies {
                        &&& final(self).movelist_reader.is_some()
                        &&& final(self).movelist_reader.unwrap().num_read_plies == o.num_read_plies
                            + 1
                        &&& final(self).movelist_reader.unwrap().reader.pos() == after
                    } else {
                        final(self).settled_at(
                            settle(
                                old(self).data@,
                                old(self).next_chunk as int,
                                (*old(self).chunk)@,
                                old(self).offset + (after + 7) / 8,
                            ),
                        )
                    }
                }),
    {
        if self.movelist_reader.is_some() {
            let mut r = self.movelist_reader.take().unwrap();
            let ghost o = r;
            let e = r.next_entry();
            if r.has_next() {
                self.movelist_reader = Some(r);
            } else {
                let used = r.num_read_bytes();
                proof {
                    assert(r.reader.pos() <= 8 * r.reader.bits().len());
                }
                self.offset = self.offset + used;
                self.fetch_next_chunk_if_needed();
            }
            return e;
        }
        let off = self.offset;
        let packed = PackedTrainingDataEntry::from_slice(&self.chunk.as_slice()[off..off + 32]);
        let e = packed.unpack_entry();
        let n = (self.chunk[off + 32] as u16) * 256 + (self.chunk[off + 33] as u16);
        self.offset = off + 34;
        if n > 0 {
            let mt = share(&self.chunk);
            self.movelist_reader = Some(PackedMoveScoreListReader::new(e, mt, off + 34, n));
        } else {
            self.fetch_next_chunk_if_needed();
        }
        e
    }
}

} // verus!
