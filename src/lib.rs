pub mod arithmetic;
pub mod attacks;
pub mod bitboard;
pub mod bits;
pub mod bitstream;
pub mod castling;
pub mod chain;
pub mod chain_reader;
pub mod chess_move;
pub mod compressed_position;
pub mod coords;
pub mod entry;
pub mod fen;
pub mod movegen;
pub mod piece;
pub mod position;
pub mod reader;
pub mod text;
pub mod writer;

pub use crate::entry::TrainingDataEntry;
pub use crate::reader::{CompressedReaderError, CompressedTrainingDataEntryReader};
pub use crate::writer::{CompressedTrainingDataEntryWriter, CompressedWriterError};
