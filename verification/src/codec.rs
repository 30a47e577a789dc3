use vstd::prelude::*;

use crate::record::Record;

verus! {

/// `s` begins with the bytes of `prefix`.
pub open spec fn starts_with(s: Seq<u8>, prefix: Seq<u8>) -> bool {
    prefix.len() <= s.len() && s.take(prefix.len() as int) == prefix
}

/// `s` is a strict prefix of `whole`: the first bytes of `whole`, cut
/// off before its end.
pub open spec fn cut_short(s: Seq<u8>, whole: Seq<u8>) -> bool {
    s.len() < whole.len() && s == whole.take(s.len() as int)
}

/// A tag short enough that the byte length of its UTF-8 form fits the
/// 32-bit length field of a MessagePack string.  A character takes at
/// most four bytes, so this bound is safe; of longer tags, whose
/// encodings would wrap that field, nothing is claimed.
pub open spec fn tag_fits(tag: Seq<char>) -> bool {
    tag.len() < 0x40000000
}

/// The MessagePack encoding of a record with the given fields, as
/// `rmp_serde::encode::to_vec` produces it: an array of the two fields,
/// each in its most compact representation.
pub uninterp spec fn record_encoding(id: u64, tag: Seq<char>) -> Seq<u8>;

/// What `rmp_serde::decode::from_read` makes of a byte sequence when
/// asked for one record: the fields it returns and the number of bytes
/// it consumes, or nothing when it fails.  The decoder is pure, so this
/// is a function of the bytes alone.
pub uninterp spec fn record_parse(s: Seq<u8>) -> Option<(u64, Seq<char>, int)>;

/// What `rmp_serde::decode::from_read` makes of a byte sequence when
/// asked for one 32-bit checksum value: the value and the number of
/// bytes consumed, or nothing when it fails.
pub uninterp spec fn u32_parse(s: Seq<u8>) -> Option<(u32, int)>;

/// The MessagePack encoding of a 32-bit unsigned value in its most
/// compact representation: a positive fixint, or a marker byte
/// (`0xcc`, `0xcd`, `0xce`) followed by the value in big-endian order.
pub open spec fn u32_encoding(v: u32) -> Seq<u8> {
    if v < 128 {
        seq![v as u8]
    } else if v < 256 {
        seq![0xccu8, v as u8]
    } else if v < 65536 {
        seq![0xcdu8, (v / 256) as u8, (v % 256) as u8]
    } else {
        seq![
            0xceu8,
            (v / 0x1000000) as u8,
            ((v / 0x10000) % 256) as u8,
            ((v / 256) % 256) as u8,
            (v % 256) as u8,
        ]
    }
}

/// Why a decode attempt returned no value.
#[derive(Debug, Clone, Copy, PartialEq, Eq, Structural)]
pub enum DecodeError {
    /// The data ran out where the decoder expected a marker byte: at
    /// the start of the value or, for torn data, at the start of one of
    /// its parts.  Decoding from the very end of the data always ends
    /// here.
    EndOfData,
    /// The bytes present cannot be one whole value of the expected
    /// shape: the data ended inside an element, or the bytes are not a
    /// valid encoding.
    Malformed,
}

/// Relies on `rmp_serde::encode::to_vec`: the MessagePack encoding of a
/// pair of an unsigned integer and a string is a function of the two
/// values alone, and writing it into a fresh byte vector cannot fail.
#[verifier::external_body]
fn rmp_encode_record(rec: &Record) -> (out: Vec<u8>)
    ensures
        out@ == record_encoding(rec.id, rec.tag@),
{
    rmp_serde::encode::to_vec(&(rec.id, &rec.tag)).unwrap()
}

/// Relies on `rmp_serde::encode::to_vec`: a `u32` is written by
/// `rmp::encode::write_uint`, which picks the smallest MessagePack
/// integer representation, and writing into a byte vector cannot fail.
#[verifier::external_body]
pub(crate) fn rmp_encode_u32(v: u32) -> (out: Vec<u8>)
    ensures
        out@ == u32_encoding(v),
{
    rmp_serde::encode::to_vec(&v).unwrap()
}

/// Relies on `rmp_serde::decode::from_read` reading a pair of an
/// unsigned integer and a string from a byte stream: the decoder is a
/// pure function of the bytes, reads exactly the bytes of one value
/// when one is present, consumes at least one byte on success, decodes
/// the canonical encoding of a record back to that record, and fails
/// when the data ends at the start of or inside a value.
#[verifier::external_body]
fn rmp_decode_record(bytes: &Vec<u8>, pos: usize) -> (res: Result<(Record, usize), DecodeError>)
    requires
        pos <= bytes@.len(),
    ensures
        res matches Ok((r, next)) ==> record_parse(bytes@.skip(pos as int))
            == Some((r.id, r.tag@, next - pos)) && pos < next <= bytes@.len(),
        res is Err ==> record_parse(bytes@.skip(pos as int)) is None,
        forall|id: u64, tag: Seq<char>|
            tag_fits(tag) && starts_with(bytes@.skip(pos as int), #[trigger] record_encoding(id, tag))
                ==> res is Ok && res->Ok_0.0.id == id && res->Ok_0.0.tag@ == tag
                    && res->Ok_0.1 == pos + record_encoding(id, tag).len(),
        forall|id: u64, tag: Seq<char>|
            tag_fits(tag) && cut_short(bytes@.skip(pos as int), #[trigger] record_encoding(id, tag))
                ==> res is Err,
        pos == bytes@.len() ==> res is Err && res->Err_0 == DecodeError::EndOfData,
{
    let mut cur = std::io::Cursor::new(&bytes[pos..]);
    match rmp_serde::decode::from_read::<_, (u64, String)>(&mut cur) {
        Ok((id, tag)) => Ok((Record { id, tag }, pos + cur.position() as usize)),
        Err(rmp_serde::decode::Error::InvalidMarkerRead(e)) => match e.kind() {
            std::io::ErrorKind::UnexpectedEof => Err(DecodeError::EndOfData),
            _ => Err(DecodeError::Malformed),
        },
        Err(_) => Err(DecodeError::Malformed),
    }
}

/// Relies on `rmp_serde::decode::from_read` reading one `u32` from a
/// byte stream: the decoder is a pure function of the bytes, consumes
/// at least one byte on success, decodes the canonical encoding of a
/// value back to that value, and fails when the data ends at the start
/// of or inside a value.
#[verifier::external_body]
pub(crate) fn rmp_decode_u32(bytes: &Vec<u8>, pos: usize) -> (res: Result<(u32, usize), DecodeError>)
    requires
        pos <= bytes@.len(),
    ensures
        res matches Ok((v, next)) ==> u32_parse(bytes@.skip(pos as int))
            == Some((v, next - pos)) && pos < next <= bytes@.len(),
        res is Err ==> u32_parse(bytes@.skip(pos as int)) is None,
        forall|v: u32|
            starts_with(bytes@.skip(pos as int), #[trigger] u32_encoding(v))
                ==> res is Ok && res->Ok_0.0 == v && res->Ok_0.1 == pos + u32_encoding(v).len(),
        forall|v: u32|
            cut_short(bytes@.skip(pos as int), #[trigger] u32_encoding(v)) ==> res is Err,
        pos == bytes@.len() ==> res is Err,
{
    let mut cur = std::io::Cursor::new(&bytes[pos..]);
    match rmp_serde::decode::from_read::<_, u32>(&mut cur) {
        Ok(v) => Ok((v, pos + cur.position() as usize)),
        Err(rmp_serde::decode::Error::InvalidMarkerRead(e)) => match e.kind() {
            std::io::ErrorKind::UnexpectedEof => Err(DecodeError::EndOfData),
            _ => Err(DecodeError::Malformed),
        },
        Err(_) => Err(DecodeError::Malformed),
    }
}

/// Serializes one record to its payload bytes.
pub fn encode_record(rec: &Record) -> (out: Vec<u8>)
    ensures
        out@ == record_encoding(rec.id, rec.tag@),
{
    rmp_encode_record(rec)
}

/// Decodes one record from `bytes` starting at `pos`, consuming exactly
/// the bytes of one value.  Returns the record and the position just
/// after it, or says why no record could be read; decoding from the
/// end of the data always reports `EndOfData`.
pub fn decode_record(bytes: &Vec<u8>, pos: usize) -> (res: Result<(Record, usize), DecodeError>)
    requires
        pos <= bytes@.len(),
    ensures
        (match res {
            Ok((r, next)) => record_parse(bytes@.skip(pos as int))
                == Some((r.id, r.tag@, next - pos)) && pos < next <= bytes@.len(),
            Err(_) => record_parse(bytes@.skip(pos as int)) is None,
        }),
        forall|id: u64, tag: Seq<char>|
            tag_fits(tag) && starts_with(bytes@.skip(pos as int), #[trigger] record_encoding(id, tag))
                ==> res is Ok && res->Ok_0.0.id == id && res->Ok_0.0.tag@ == tag
                    && res->Ok_0.1 == pos + record_encoding(id, tag).len(),
        forall|id: u64, tag: Seq<char>|
            tag_fits(tag) && cut_short(bytes@.skip(pos as int), #[trigger] record_encoding(id, tag))
                ==> res is Err,
        pos == bytes@.len() ==> res is Err && res->Err_0 == DecodeError::EndOfData,
{
    rmp_decode_record(bytes, pos)
}

} // verus!
