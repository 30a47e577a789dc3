//! An append-only binary object log.
//!
//! A record is stored as one *frame*: its MessagePack encoding (the
//! payload) followed immediately by the MessagePack encoding of the
//! CRC-32 digest of the payload bytes.  Frames sit back to back in the
//! file with no header, separator or count; boundaries are recovered
//! purely from the encoding's own self-delimiting structure.
//!
//! Reading walks the bytes frame by frame, re-encodes each decoded
//! record, recomputes its digest and compares it with the stored one.
//! The sequence of records ends at the first sign of trouble — a clean
//! end of data, a torn (partially written) frame, a missing checksum or
//! a checksum mismatch — and the suspect frame is never yielded.

pub mod checksum;
pub mod codec;
pub mod frame;
pub mod reader;
pub mod record;

pub use checksum::checksum;
pub use codec::decode_record;
pub use codec::encode_record;
pub use codec::DecodeError;
pub use frame::encode_frame;
pub use reader::read_log;
pub use reader::ReadEnd;
pub use record::Record;
