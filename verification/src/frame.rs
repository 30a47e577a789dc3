use vstd::prelude::*;

use crate::checksum::checksum;
use crate::checksum::crc32_of;
use crate::codec::encode_record;
use crate::codec::record_encoding;
use crate::codec::rmp_encode_u32;
use crate::codec::starts_with;
use crate::codec::u32_encoding;
use crate::record::RecView;
use crate::record::Record;

verus! {

/// The payload of a frame: the record's own encoding.
pub open spec fn payload_encoding(r: RecView) -> Seq<u8> {
    record_encoding(r.id, r.tag)
}

/// One whole frame: the payload followed by the encoded CRC-32 digest
/// of the payload bytes.
pub open spec fn frame_encoding(r: RecView) -> Seq<u8> {
    payload_encoding(r) + u32_encoding(crc32_of(payload_encoding(r)))
}

/// A whole log: the frames of the records, back to back, with nothing
/// before, between or after them.
pub open spec fn log_encoding(rs: Seq<RecView>) -> Seq<u8>
    decreases rs.len(),
{
    if rs.len() == 0 {
        Seq::empty()
    } else {
        frame_encoding(rs[0]) + log_encoding(rs.skip(1))
    }
}

/// Builds the bytes that appending one record adds to the file: the
/// payload, then the encoded digest of the payload.
pub fn encode_frame(rec: &Record) -> (out: Vec<u8>)
    ensures
        out@ == frame_encoding(rec@),
{
    let mut out = encode_record(rec);
    let digest = checksum(&out);
    let mut trailer = rmp_encode_u32(digest);
    out.append(&mut trailer);
    out
}

// ---------------------------------------------------------------------
// Concatenation algebra for whole logs.

pub proof fn lemma_concat_cut<T>(a: Seq<T>, b: Seq<T>)
    ensures
        (a + b).skip(a.len() as int) == b,
        (a + b).take(a.len() as int) == a,
{
    assert((a + b).skip(a.len() as int) =~= b);
    assert((a + b).take(a.len() as int) =~= a);
}

pub proof fn lemma_add_assoc<T>(a: Seq<T>, b: Seq<T>, c: Seq<T>)
    ensures
        (a + b) + c == a + (b + c),
{
    assert((a + b) + c =~= a + (b + c));
}

/// A sequence that begins with `p` is `p` followed by its own remainder.
pub proof fn lemma_starts_with_split(s: Seq<u8>, p: Seq<u8>)
    requires
        starts_with(s, p),
    ensures
        s == p + s.skip(p.len() as int),
{
    assert forall|j: int| 0 <= j < p.len() implies s[j] == p[j] by {
        assert(s.take(p.len() as int)[j] == s[j]);
    }
    assert(s =~= p + s.skip(p.len() as int));
}

/// Taking no more than the first part of a concatenation cuts the
/// first part.
pub proof fn lemma_take_concat_short<T>(a: Seq<T>, b: Seq<T>, k: int)
    requires
        0 <= k <= a.len(),
    ensures
        (a + b).take(k) == a.take(k),
{
    assert((a + b).take(k) =~= a.take(k));
}

/// Taking past the first part of a concatenation keeps the first part
/// whole and cuts the second.
pub proof fn lemma_take_concat_long<T>(a: Seq<T>, b: Seq<T>, k: int)
    requires
        a.len() <= k <= a.len() + b.len(),
    ensures
        (a + b).take(k) == a + b.take(k - a.len()),
{
    assert((a + b).take(k) =~= a + b.take(k - a.len()));
}

pub proof fn lemma_log_encoding_push(rs: Seq<RecView>, r: RecView)
    ensures
        log_encoding(rs.push(r)) == log_encoding(rs) + frame_encoding(r),
    decreases rs.len(),
{
    if rs.len() == 0 {
        assert(rs.push(r)[0] == r);
        assert(rs.push(r).skip(1) =~= Seq::<RecView>::empty());
        assert(log_encoding(Seq::<RecView>::empty()) == Seq::<u8>::empty());
        assert(log_encoding(rs.push(r)) =~= frame_encoding(r));
        assert(log_encoding(rs) + frame_encoding(r) =~= frame_encoding(r));
    } else {
        assert(rs.push(r)[0] == rs[0]);
        assert(rs.push(r).skip(1) =~= rs.skip(1).push(r));
        lemma_log_encoding_push(rs.skip(1), r);
        lemma_add_assoc(frame_encoding(rs[0]), log_encoding(rs.skip(1)), frame_encoding(r));
    }
}

pub proof fn lemma_log_encoding_take_succ(rs: Seq<RecView>, i: int)
    requires
        0 <= i < rs.len(),
    ensures
        log_encoding(rs.take(i + 1)) == log_encoding(rs.take(i)) + frame_encoding(rs[i]),
{
    assert(rs.take(i + 1) =~= rs.take(i).push(rs[i]));
    lemma_log_encoding_push(rs.take(i), rs[i]);
}

/// Peeling the frame of record `i` off the tail of a log.
pub proof fn lemma_log_encoding_skip_unfold(rs: Seq<RecView>, i: int)
    requires
        0 <= i < rs.len(),
    ensures
        log_encoding(rs.skip(i)) == frame_encoding(rs[i]) + log_encoding(rs.skip(i + 1)),
{
    assert(rs.skip(i).len() > 0);
    assert(rs.skip(i)[0] == rs[i]);
    assert(rs.skip(i).skip(1) =~= rs.skip(i + 1));
}

/// A whole log splits at any frame boundary.
pub proof fn lemma_log_encoding_split(rs: Seq<RecView>, i: int)
    requires
        0 <= i <= rs.len(),
    ensures
        log_encoding(rs) == log_encoding(rs.take(i)) + log_encoding(rs.skip(i)),
    decreases i,
{
    if i == 0 {
        assert(rs.take(0) =~= Seq::<RecView>::empty());
        assert(rs.skip(0) =~= rs);
        assert(log_encoding(rs.take(0)) + log_encoding(rs) =~= log_encoding(rs));
    } else {
        lemma_log_encoding_split(rs, i - 1);
        lemma_log_encoding_take_succ(rs, i - 1);
        lemma_log_encoding_skip_unfold(rs, i - 1);
        lemma_add_assoc(
            log_encoding(rs.take(i - 1)),
            frame_encoding(rs[i - 1]),
            log_encoding(rs.skip(i)),
        );
    }
}

} // verus!
