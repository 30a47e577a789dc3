use vstd::prelude::*;

use crate::checksum::checksum;
use crate::checksum::crc32_of;
use crate::codec::cut_short;
use crate::codec::decode_record;
use crate::codec::encode_record;
use crate::codec::record_encoding;
use crate::codec::record_parse;
use crate::codec::rmp_decode_u32;
use crate::codec::starts_with;
use crate::codec::tag_fits;
use crate::codec::u32_encoding;
use crate::codec::u32_parse;
use crate::codec::DecodeError;
use crate::frame::frame_encoding;
use crate::frame::lemma_add_assoc;
use crate::frame::lemma_concat_cut;
use crate::frame::lemma_log_encoding_skip_unfold;
use crate::frame::lemma_log_encoding_split;
use crate::frame::lemma_log_encoding_take_succ;
use crate::frame::lemma_starts_with_split;
use crate::frame::lemma_take_concat_long;
use crate::frame::lemma_take_concat_short;
use crate::frame::log_encoding;
use crate::frame::payload_encoding;
use crate::record::lemma_views_of_push;
use crate::record::views_of;
use crate::record::RecView;
use crate::record::Record;

verus! {

/// Why an iteration over the log stopped.  The reader never surfaces a
/// torn or corrupt frame as an error: the sequence simply ends, and
/// this value is the side-channel diagnostic saying what ended it.
#[derive(Debug, Clone, Copy, PartialEq, Eq, Structural)]
pub enum ReadEnd {
    /// The data ended where a frame would begin: the normal end of a
    /// well-formed log.  A tail torn exactly at a marker boundary is
    /// indistinguishable from a log still being written and ends here
    /// too.
    EndOfData,
    /// Bytes remained but no whole payload could be decoded from them:
    /// a torn write or foreign bytes.
    Malformed,
    /// A payload was decoded but no whole checksum value followed it:
    /// the tail of the log was torn between payload and checksum.
    MissingChecksum,
    /// The stored checksum decoded but did not match the digest of the
    /// decoded record's canonical encoding: silent corruption that kept
    /// the frame structure intact.
    Mismatch,
}

/// The records that walking the bytes yields, frame by frame: decode a
/// payload, recompute the digest of its canonical re-encoding, decode
/// the stored digest, compare, and stop at the first failure.  Built
/// from the named results of the decoder, so it is a function of the
/// bytes alone.
pub open spec fn spec_read(s: Seq<u8>) -> Seq<RecView>
    decreases s.len(),
{
    match record_parse(s) {
        None => Seq::empty(),
        Some((id, tag, n)) => {
            if 0 < n <= s.len() {
                match u32_parse(s.skip(n)) {
                    None => Seq::empty(),
                    Some((c, m)) => {
                        if c == crc32_of(record_encoding(id, tag)) && 0 < m && n + m
                            <= s.len() {
                            seq![RecView { id, tag }] + spec_read(s.skip(n + m))
                        } else {
                            Seq::empty()
                        }
                    },
                }
            } else {
                Seq::empty()
            }
        },
    }
}

/// `tail` is the beginning of the frame of record `r`, cut off after
/// `k` bytes, before the frame's end.
pub open spec fn partial_frame(tail: Seq<u8>, r: RecView, k: int) -> bool {
    tag_fits(r.tag) && 0 <= k < frame_encoding(r).len() && tail == frame_encoding(r).take(k)
}

/// `tail` is either nothing or a strictly partial frame.
pub open spec fn torn_tail(tail: Seq<u8>) -> bool {
    tail.len() == 0 || exists|r: RecView, k: int| #[trigger] partial_frame(tail, r, k)
}

/// Every record of the sequence has a tag within the encodable bound.
pub open spec fn tags_fit(rs: Seq<RecView>) -> bool {
    forall|j: int| 0 <= j < rs.len() ==> #[trigger] tag_fits(rs[j].tag)
}

/// `bytes` is the whole log of `rs` followed by at most one torn frame:
/// the shape a log file has after any number of complete appends and at
/// most one interrupted one.
pub open spec fn is_torn_log(bytes: Seq<u8>, rs: Seq<RecView>) -> bool {
    tags_fit(rs) && exists|tail: Seq<u8>|
        bytes == log_encoding(rs) + tail && #[trigger] torn_tail(tail)
}

/// After the whole log of `rs`, `bytes` carries the payload of record
/// `r` and then a whole stored checksum `c` that does not match the
/// payload's digest.
pub open spec fn mismatched_frame(bytes: Seq<u8>, rs: Seq<RecView>, r: RecView, c: u32) -> bool {
    tag_fits(r.tag) && starts_with(
        bytes,
        (log_encoding(rs) + record_encoding(r.id, r.tag)) + u32_encoding(c),
    ) && c != crc32_of(record_encoding(r.id, r.tag))
}

/// `bytes` is the whole log of `rs` followed by a structurally intact
/// frame whose stored checksum does not match its payload: the shape a
/// log file has after silent corruption that preserved the encoding.
pub open spec fn is_mismatch_log(bytes: Seq<u8>, rs: Seq<RecView>) -> bool {
    tags_fit(rs) && exists|r: RecView, c: u32| #[trigger] mismatched_frame(bytes, rs, r, c)
}

/// `bytes` is the whole log of `rs`, then the whole payload of one
/// more record, then at most a torn beginning of its stored checksum:
/// the shape a log file has when a crash fell between the payload
/// write and the checksum write.
pub open spec fn is_headless_frame_log(
    bytes: Seq<u8>,
    rs: Seq<RecView>,
    r: RecView,
    k: int,
) -> bool {
    tags_fit(rs) && tag_fits(r.tag) && payload_encoding(r).len() <= k < frame_encoding(r).len()
        && bytes == log_encoding(rs) + frame_encoding(r).take(k)
}

/// The reader has yielded exactly the first records of `rs` and stands
/// at the byte where the next frame would begin.
spec fn frames_consumed(rs: Seq<RecView>, done: Seq<RecView>, pos: int) -> bool {
    done.len() <= rs.len() && done == rs.take(done.len() as int) && pos == log_encoding(
        done,
    ).len()
}

/// Where the reader stands at frame `i` of a log with remainder `rest`,
/// the bytes ahead of it are the payload of record `i`, its encoded
/// digest, and then the rest of the log.
proof fn lemma_suffix_at_frame(bytes: Seq<u8>, rs: Seq<RecView>, rest: Seq<u8>, i: int, pos: int)
    requires
        bytes == log_encoding(rs) + rest,
        0 <= i < rs.len(),
        pos == log_encoding(rs.take(i)).len(),
    ensures
        0 <= pos,
        pos + payload_encoding(rs[i]).len() + u32_encoding(
            crc32_of(payload_encoding(rs[i])),
        ).len() <= bytes.len(),
        bytes.skip(pos) == payload_encoding(rs[i]) + (u32_encoding(
            crc32_of(payload_encoding(rs[i])),
        ) + (log_encoding(rs.skip(i + 1)) + rest)),
        bytes.skip(pos).skip(payload_encoding(rs[i]).len() as int) == u32_encoding(
            crc32_of(payload_encoding(rs[i])),
        ) + (log_encoding(rs.skip(i + 1)) + rest),
        starts_with(bytes.skip(pos), payload_encoding(rs[i])),
        starts_with(
            bytes.skip(pos).skip(payload_encoding(rs[i]).len() as int),
            u32_encoding(crc32_of(payload_encoding(rs[i]))),
        ),
{
    let a = log_encoding(rs.take(i));
    let p = payload_encoding(rs[i]);
    let cb = u32_encoding(crc32_of(p));
    let f = frame_encoding(rs[i]);
    let l = log_encoding(rs.skip(i + 1));
    lemma_log_encoding_split(rs, i);
    lemma_log_encoding_skip_unfold(rs, i);
    assert(f == p + cb);
    lemma_add_assoc(a, f + l, rest);
    lemma_add_assoc(f, l, rest);
    lemma_add_assoc(p, cb, l + rest);
    assert(bytes == a + (p + (cb + (l + rest))));
    lemma_concat_cut(a, p + (cb + (l + rest)));
    assert(bytes.skip(pos) == p + (cb + (l + rest)));
    lemma_concat_cut(p, cb + (l + rest));
    assert(starts_with(bytes.skip(pos), p));
    assert(bytes.skip(pos).skip(p.len() as int) == cb + (l + rest));
    lemma_concat_cut(cb, l + rest);
    assert(starts_with(bytes.skip(pos).skip(p.len() as int), cb));
}

/// Reads every whole, intact frame from the start of `bytes`, in order,
/// and reports why the walk stopped.  A record is yielded only when its
/// payload decoded, a whole checksum value followed, and that value
/// equals the digest of the payload's canonical re-encoding; the first
/// failure ends the sequence silently, as the format defines.
pub fn read_log(bytes: &Vec<u8>) -> (res: (Vec<Record>, ReadEnd))
    ensures
        views_of(res.0@) == spec_read(bytes@),
        forall|rs: Seq<RecView>| #[trigger] is_torn_log(bytes@, rs) ==> views_of(res.0@) == rs,
        forall|rs: Seq<RecView>|
            tags_fit(rs) && bytes@ == #[trigger] log_encoding(rs) ==> views_of(res.0@) == rs
                && res.1 == ReadEnd::EndOfData,
        forall|rs: Seq<RecView>| #[trigger]
            is_mismatch_log(bytes@, rs) ==> views_of(res.0@) == rs && res.1 == ReadEnd::Mismatch,
        forall|rs: Seq<RecView>, r: RecView, k: int| #[trigger]
            is_headless_frame_log(bytes@, rs, r, k) ==> views_of(res.0@) == rs && res.1
                == ReadEnd::MissingChecksum,
{
    let mut out: Vec<Record> = Vec::new();
    let mut pos: usize = 0;
    let mut end = ReadEnd::EndOfData;
    let mut going = true;
    proof {
        assert(bytes@.skip(0) =~= bytes@);
        assert(views_of(Seq::<Record>::empty()) =~= Seq::<RecView>::empty());
        assert(Seq::<RecView>::empty() + spec_read(bytes@) =~= spec_read(bytes@));
        assert forall|rs: Seq<RecView>| #[trigger]
            is_torn_log(bytes@, rs) implies frames_consumed(rs, views_of(out@), pos as int) by {
            assert(rs.take(0) =~= Seq::<RecView>::empty());
            assert(log_encoding(Seq::<RecView>::empty()) == Seq::<u8>::empty());
        }
        assert forall|rs: Seq<RecView>| #[trigger]
            is_mismatch_log(bytes@, rs) implies frames_consumed(rs, views_of(out@), pos as int) by {
            assert(rs.take(0) =~= Seq::<RecView>::empty());
            assert(log_encoding(Seq::<RecView>::empty()) == Seq::<u8>::empty());
        }
    }
    while going
        invariant
            pos <= bytes@.len(),
            going ==> spec_read(bytes@) == views_of(out@) + spec_read(bytes@.skip(pos as int)),
            going ==> forall|rs: Seq<RecView>| #[trigger]
                is_torn_log(bytes@, rs) ==> frames_consumed(rs, views_of(out@), pos as int),
            going ==> forall|rs: Seq<RecView>| #[trigger]
                is_mismatch_log(bytes@, rs) ==> frames_consumed(rs, views_of(out@), pos as int),
            !going ==> views_of(out@) == spec_read(bytes@),
            !going ==> forall|rs: Seq<RecView>| #[trigger]
                is_torn_log(bytes@, rs) ==> views_of(out@) == rs,
            !going ==> forall|rs: Seq<RecView>|
                tags_fit(rs) && bytes@ == #[trigger] log_encoding(rs) ==> views_of(out@) == rs
                    && end == ReadEnd::EndOfData,
            !going ==> forall|rs: Seq<RecView>| #[trigger]
                is_mismatch_log(bytes@, rs) ==> views_of(out@) == rs && end == ReadEnd::Mismatch,
            !going ==> forall|rs: Seq<RecView>, r: RecView, k: int| #[trigger]
                is_headless_frame_log(bytes@, rs, r, k) ==> views_of(out@) == rs && end
                    == ReadEnd::MissingChecksum,
        decreases bytes@.len() - pos + (if going { 1int } else { 0int }),
    {
        let ghost pos0 = pos as int;
        let ghost outv0 = views_of(out@);
        let ghost s0 = bytes@.skip(pos as int);
        match decode_record(bytes, pos) {
            Err(e) => {
                end = match e {
                    DecodeError::EndOfData => ReadEnd::EndOfData,
                    DecodeError::Malformed => ReadEnd::Malformed,
                };
                going = false;
                proof {
                    assert(spec_read(s0) == Seq::<RecView>::empty());
                    assert(outv0 + spec_read(s0) =~= outv0);
                    assert forall|rs: Seq<RecView>| #[trigger]
                        is_torn_log(bytes@, rs) implies outv0 == rs by {
                        let tail = choose|t: Seq<u8>|
                            bytes@ == log_encoding(rs) + t && #[trigger] torn_tail(t);
                        let i = outv0.len() as int;
                        if i < rs.len() {
                            assert(tag_fits(rs[i].tag));
                            lemma_suffix_at_frame(bytes@, rs, tail, i, pos0);
                            assert(false);
                        }
                        assert(rs.take(rs.len() as int) =~= rs);
                    }
                    assert forall|rs: Seq<RecView>|
                        tags_fit(rs) && bytes@ == #[trigger] log_encoding(rs) implies outv0 == rs
                            && end == ReadEnd::EndOfData by {
                        assert(log_encoding(rs) + Seq::<u8>::empty() =~= log_encoding(rs));
                        assert(torn_tail(Seq::<u8>::empty()));
                        assert(is_torn_log(bytes@, rs));
                        assert(outv0 == rs);
                        assert(pos0 == log_encoding(outv0).len());
                        assert(pos as int == bytes@.len() as int);
                    }
                    assert forall|rs: Seq<RecView>| #[trigger]
                        is_mismatch_log(bytes@, rs) implies outv0 == rs && end
                            == ReadEnd::Mismatch by {
                        let (rx, cx) = choose|rx: RecView, cx: u32| #[trigger]
                            mismatched_frame(bytes@, rs, rx, cx);
                        let px = record_encoding(rx.id, rx.tag);
                        let head = (log_encoding(rs) + px) + u32_encoding(cx);
                        lemma_starts_with_split(bytes@, head);
                        lemma_add_assoc(log_encoding(rs), px, u32_encoding(cx));
                        lemma_add_assoc(
                            px,
                            u32_encoding(cx),
                            bytes@.skip(head.len() as int),
                        );
                        assert(bytes@ == log_encoding(rs) + (px + (u32_encoding(cx)
                            + bytes@.skip(head.len() as int))));
                        let i = outv0.len() as int;
                        if i < rs.len() {
                            assert(tag_fits(rs[i].tag));
                            lemma_suffix_at_frame(
                                bytes@,
                                rs,
                                px + (u32_encoding(cx) + bytes@.skip(head.len() as int)),
                                i,
                                pos0,
                            );
                            assert(false);
                        } else {
                            lemma_concat_cut(
                                log_encoding(rs),
                                px + (u32_encoding(cx) + bytes@.skip(head.len() as int)),
                            );
                            assert(rs.take(rs.len() as int) =~= rs);
                            assert(pos0 == log_encoding(rs).len());
                            lemma_concat_cut(px, u32_encoding(cx) + bytes@.skip(head.len() as int));
                            assert(starts_with(s0, px));
                            assert(false);
                        }
                    }
                    assert forall|rs: Seq<RecView>, rh: RecView, k: int| #[trigger]
                        is_headless_frame_log(bytes@, rs, rh, k) implies outv0 == rs && end
                            == ReadEnd::MissingChecksum by {
                        let tail = frame_encoding(rh).take(k);
                        let pp = payload_encoding(rh);
                        let cc = u32_encoding(crc32_of(pp));
                        assert(frame_encoding(rh) == pp + cc);
                        assert(partial_frame(tail, rh, k));
                        assert(torn_tail(tail));
                        assert(is_torn_log(bytes@, rs));
                        let i = outv0.len() as int;
                        if i < rs.len() {
                            assert(tag_fits(rs[i].tag));
                            lemma_suffix_at_frame(bytes@, rs, tail, i, pos0);
                            assert(false);
                        } else {
                            lemma_concat_cut(log_encoding(rs), tail);
                            assert(rs.take(rs.len() as int) =~= rs);
                            assert(pos0 == log_encoding(rs).len());
                            assert(s0 == tail);
                            lemma_take_concat_long(pp, cc, k);
                            assert(tail == pp + cc.take(k - pp.len()));
                            lemma_concat_cut(pp, cc.take(k - pp.len()));
                            assert(starts_with(s0, pp));
                            assert(false);
                        }
                    }
                }
            },
            Ok((r, p2)) => {
                let enc = encode_record(&r);
                let digest = checksum(&enc);
                let ghost n = p2 as int - pos as int;
                proof {
                    assert(bytes@.skip(p2 as int) =~= s0.skip(n));
                }
                match rmp_decode_u32(bytes, p2) {
                    Err(_) => {
                        end = ReadEnd::MissingChecksum;
                        going = false;
                        proof {
                            assert(spec_read(s0) == Seq::<RecView>::empty());
                            assert(outv0 + spec_read(s0) =~= outv0);
                            assert forall|rs: Seq<RecView>| #[trigger]
                                is_torn_log(bytes@, rs) implies outv0 == rs by {
                                let tail = choose|t: Seq<u8>|
                                    bytes@ == log_encoding(rs) + t && #[trigger] torn_tail(t);
                                let i = outv0.len() as int;
                                if i < rs.len() {
                                    assert(tag_fits(rs[i].tag));
                                    lemma_suffix_at_frame(bytes@, rs, tail, i, pos0);
                                    assert(false);
                                }
                                assert(rs.take(rs.len() as int) =~= rs);
                            }
                            assert forall|rs: Seq<RecView>|
                                tags_fit(rs) && bytes@ == #[trigger] log_encoding(rs) implies outv0
                                    == rs && end == ReadEnd::EndOfData by {
                                assert(log_encoding(rs) + Seq::<u8>::empty() =~= log_encoding(rs));
                                assert(torn_tail(Seq::<u8>::empty()));
                                assert(is_torn_log(bytes@, rs));
                                assert(outv0 == rs);
                                assert(pos0 == log_encoding(outv0).len());
                                assert(pos as int == bytes@.len() as int);
                                assert(false);
                            }
                            assert forall|rs: Seq<RecView>| #[trigger]
                                is_mismatch_log(bytes@, rs) implies outv0 == rs && end
                                    == ReadEnd::Mismatch by {
                                let (rx, cx) = choose|rx: RecView, cx: u32| #[trigger]
                                    mismatched_frame(bytes@, rs, rx, cx);
                                let px = record_encoding(rx.id, rx.tag);
                                let head = (log_encoding(rs) + px) + u32_encoding(cx);
                                lemma_starts_with_split(bytes@, head);
                                lemma_add_assoc(log_encoding(rs), px, u32_encoding(cx));
                                lemma_add_assoc(
                                    px,
                                    u32_encoding(cx),
                                    bytes@.skip(head.len() as int),
                                );
                                assert(bytes@ == log_encoding(rs) + (px + (u32_encoding(cx)
                                    + bytes@.skip(head.len() as int))));
                                let rest = px + (u32_encoding(cx) + bytes@.skip(
                                    head.len() as int,
                                ));
                                let i = outv0.len() as int;
                                if i < rs.len() {
                                    assert(tag_fits(rs[i].tag));
                                    lemma_suffix_at_frame(bytes@, rs, rest, i, pos0);
                                    assert(false);
                                } else {
                                    lemma_concat_cut(log_encoding(rs), rest);
                                    assert(rs.take(rs.len() as int) =~= rs);
                                    assert(pos0 == log_encoding(rs).len());
                                    assert(s0 == rest);
                                    lemma_concat_cut(
                                        px,
                                        u32_encoding(cx) + bytes@.skip(head.len() as int),
                                    );
                                    assert(starts_with(s0, px));
                                    assert(r.id == rx.id && r.tag@ == rx.tag);
                                    assert(p2 as int == pos0 + px.len());
                                    assert(s0.skip(px.len() as int) == u32_encoding(cx)
                                        + bytes@.skip(head.len() as int));
                                    lemma_concat_cut(
                                        u32_encoding(cx),
                                        bytes@.skip(head.len() as int),
                                    );
                                    assert(starts_with(bytes@.skip(p2 as int), u32_encoding(cx)));
                                    assert(false);
                                }
                            }
                            assert forall|rs: Seq<RecView>, rh: RecView, k: int| #[trigger]
                                is_headless_frame_log(bytes@, rs, rh, k) implies outv0 == rs && end
                                    == ReadEnd::MissingChecksum by {
                                let tail = frame_encoding(rh).take(k);
                                assert(partial_frame(tail, rh, k));
                                assert(torn_tail(tail));
                                assert(is_torn_log(bytes@, rs));
                                assert(outv0 == rs);
                            }
                        }
                    },
                    Ok((stored, p3)) => {
                        let ghost m = p3 as int - p2 as int;
                        if digest == stored {
                            proof {
                                assert(bytes@.skip(p3 as int) =~= s0.skip(n + m));
                                assert(RecView { id: r.id, tag: r.tag@ } == r@);
                                assert(spec_read(s0) == seq![r@] + spec_read(s0.skip(n + m)));
                                lemma_views_of_push(out@, r);
                                assert(views_of(out@).push(r@) =~= views_of(out@) + seq![r@]);
                                lemma_add_assoc(views_of(out@), seq![r@], spec_read(s0.skip(n + m)));
                            }
                            out.push(r);
                            pos = p3;
                            proof {
                                assert(views_of(out@) == outv0.push(r@));
                                assert forall|rs: Seq<RecView>| #[trigger]
                                    is_torn_log(bytes@, rs) implies frames_consumed(
                                    rs,
                                    views_of(out@),
                                    pos as int,
                                ) by {
                                    let tail = choose|t: Seq<u8>|
                                        bytes@ == log_encoding(rs) + t && #[trigger] torn_tail(t);
                                    let i = outv0.len() as int;
                                    if i == rs.len() {
                                        lemma_concat_cut(log_encoding(rs), tail);
                                        assert(rs.take(rs.len() as int) =~= rs);
                                        assert(pos0 == log_encoding(rs).len());
                                        assert(s0 == tail);
                                        if tail.len() == 0 {
                                            assert(false);
                                        } else {
                                            let (rr, k) = choose|rr: RecView, k: int| #[trigger]
                                                partial_frame(tail, rr, k);
                                            let pp = payload_encoding(rr);
                                            let cc = u32_encoding(crc32_of(pp));
                                            assert(frame_encoding(rr) == pp + cc);
                                            if k < pp.len() {
                                                lemma_take_concat_short(pp, cc, k);
                                                assert(cut_short(tail, pp));
                                                assert(false);
                                            } else {
                                                lemma_take_concat_long(pp, cc, k);
                                                assert(tail == pp + cc.take(k - pp.len()));
                                                lemma_concat_cut(pp, cc.take(k - pp.len()));
                                                assert(starts_with(s0, pp));
                                                assert(p2 as int == pos0 + pp.len());
                                                assert(s0.skip(pp.len() as int) == cc.take(
                                                    k - pp.len(),
                                                ));
                                                assert(cc.take(k - pp.len()).len() < cc.len());
                                                assert(cut_short(bytes@.skip(p2 as int), cc));
                                                assert(false);
                                            }
                                        }
                                    } else {
                                        assert(tag_fits(rs[i].tag));
                                        lemma_suffix_at_frame(bytes@, rs, tail, i, pos0);
                                        let pp = payload_encoding(rs[i]);
                                        let cc = u32_encoding(crc32_of(pp));
                                        assert(r.id == rs[i].id && r.tag@ == rs[i].tag);
                                        assert(r@ == rs[i]);
                                        assert(p2 as int == pos0 + pp.len());
                                        assert(starts_with(bytes@.skip(p2 as int), cc));
                                        assert(stored == crc32_of(pp));
                                        assert(p3 as int == p2 as int + cc.len());
                                        lemma_log_encoding_take_succ(rs, i);
                                        assert(rs.take(i + 1) =~= rs.take(i).push(rs[i]));
                                        assert(views_of(out@) == rs.take(i + 1));
                                        assert(pos as int == log_encoding(rs.take(i + 1)).len());
                                    }
                                }
                                assert forall|rs: Seq<RecView>| #[trigger]
                                    is_mismatch_log(bytes@, rs) implies frames_consumed(
                                    rs,
                                    views_of(out@),
                                    pos as int,
                                ) by {
                                    let (rx, cx) = choose|rx: RecView, cx: u32| #[trigger]
                                        mismatched_frame(bytes@, rs, rx, cx);
                                    let px = record_encoding(rx.id, rx.tag);
                                    let head = (log_encoding(rs) + px) + u32_encoding(cx);
                                    lemma_starts_with_split(bytes@, head);
                                    lemma_add_assoc(log_encoding(rs), px, u32_encoding(cx));
                                    lemma_add_assoc(
                                        px,
                                        u32_encoding(cx),
                                        bytes@.skip(head.len() as int),
                                    );
                                    assert(bytes@ == log_encoding(rs) + (px + (u32_encoding(cx)
                                        + bytes@.skip(head.len() as int))));
                                    let rest = px + (u32_encoding(cx) + bytes@.skip(
                                        head.len() as int,
                                    ));
                                    let i = outv0.len() as int;
                                    if i == rs.len() {
                                        lemma_concat_cut(log_encoding(rs), rest);
                                        assert(rs.take(rs.len() as int) =~= rs);
                                        assert(pos0 == log_encoding(rs).len());
                                        assert(s0 == rest);
                                        lemma_concat_cut(
                                            px,
                                            u32_encoding(cx) + bytes@.skip(head.len() as int),
                                        );
                                        assert(starts_with(s0, px));
                                        assert(r.id == rx.id && r.tag@ == rx.tag);
                                        assert(p2 as int == pos0 + px.len());
                                        lemma_concat_cut(
                                            u32_encoding(cx),
                                            bytes@.skip(head.len() as int),
                                        );
                                        assert(starts_with(bytes@.skip(p2 as int), u32_encoding(
                                            cx,
                                        )));
                                        assert(stored == cx);
                                        assert(digest == crc32_of(record_encoding(r.id, r.tag@)));
                                        assert(false);
                                    } else {
                                        assert(tag_fits(rs[i].tag));
                                        lemma_suffix_at_frame(bytes@, rs, rest, i, pos0);
                                        let pp = payload_encoding(rs[i]);
                                        let cc = u32_encoding(crc32_of(pp));
                                        assert(r.id == rs[i].id && r.tag@ == rs[i].tag);
                                        assert(r@ == rs[i]);
                                        assert(p2 as int == pos0 + pp.len());
                                        assert(starts_with(bytes@.skip(p2 as int), cc));
                                        assert(stored == crc32_of(pp));
                                        assert(p3 as int == p2 as int + cc.len());
                                        lemma_log_encoding_take_succ(rs, i);
                                        assert(rs.take(i + 1) =~= rs.take(i).push(rs[i]));
                                        assert(views_of(out@) == rs.take(i + 1));
                                        assert(pos as int == log_encoding(rs.take(i + 1)).len());
                                    }
                                }
                            }
                        } else {
                            end = ReadEnd::Mismatch;
                            going = false;
                            proof {
                                assert(spec_read(s0) == Seq::<RecView>::empty());
                                assert(outv0 + spec_read(s0) =~= outv0);
                                assert forall|rs: Seq<RecView>| #[trigger]
                                    is_torn_log(bytes@, rs) implies outv0 == rs by {
                                    let tail = choose|t: Seq<u8>|
                                        bytes@ == log_encoding(rs) + t && #[trigger] torn_tail(t);
                                    let i = outv0.len() as int;
                                    if i == rs.len() {
                                        lemma_concat_cut(log_encoding(rs), tail);
                                        assert(rs.take(rs.len() as int) =~= rs);
                                        assert(pos0 == log_encoding(rs).len());
                                        assert(s0 == tail);
                                        if tail.len() == 0 {
                                            assert(false);
                                        } else {
                                            let (rr, k) = choose|rr: RecView, k: int| #[trigger]
                                                partial_frame(tail, rr, k);
                                            let pp = payload_encoding(rr);
                                            let cc = u32_encoding(crc32_of(pp));
                                            assert(frame_encoding(rr) == pp + cc);
                                            if k < pp.len() {
                                                lemma_take_concat_short(pp, cc, k);
                                                assert(cut_short(tail, pp));
                                                assert(false);
                                            } else {
                                                lemma_take_concat_long(pp, cc, k);
                                                assert(tail == pp + cc.take(k - pp.len()));
                                                lemma_concat_cut(pp, cc.take(k - pp.len()));
                                                assert(starts_with(s0, pp));
                                                assert(p2 as int == pos0 + pp.len());
                                                assert(s0.skip(pp.len() as int) == cc.take(
                                                    k - pp.len(),
                                                ));
                                                assert(cut_short(bytes@.skip(p2 as int), cc));
                                                assert(false);
                                            }
                                        }
                                    } else {
                                        assert(tag_fits(rs[i].tag));
                                        lemma_suffix_at_frame(bytes@, rs, tail, i, pos0);
                                        let pp = payload_encoding(rs[i]);
                                        assert(r.id == rs[i].id && r.tag@ == rs[i].tag);
                                        assert(p2 as int == pos0 + pp.len());
                                        assert(starts_with(
                                            bytes@.skip(p2 as int),
                                            u32_encoding(crc32_of(pp)),
                                        ));
                                        assert(stored == crc32_of(pp));
                                        assert(digest == crc32_of(record_encoding(r.id, r.tag@)));
                                        assert(false);
                                    }
                                    assert(outv0 == rs);
                                }
                                assert forall|rs: Seq<RecView>|
                                    tags_fit(rs) && bytes@ == #[trigger] log_encoding(rs) implies
                                        outv0 == rs && end == ReadEnd::EndOfData by {
                                    assert(log_encoding(rs) + Seq::<u8>::empty() =~= log_encoding(
                                        rs,
                                    ));
                                    assert(torn_tail(Seq::<u8>::empty()));
                                    assert(is_torn_log(bytes@, rs));
                                    assert(outv0 == rs);
                                    assert(pos0 == log_encoding(outv0).len());
                                    assert(pos as int == bytes@.len() as int);
                                    assert(false);
                                }
                                assert forall|rs: Seq<RecView>| #[trigger]
                                    is_mismatch_log(bytes@, rs) implies outv0 == rs && end
                                        == ReadEnd::Mismatch by {
                                    let (rx, cx) = choose|rx: RecView, cx: u32| #[trigger]
                                        mismatched_frame(bytes@, rs, rx, cx);
                                    let px = record_encoding(rx.id, rx.tag);
                                    let head = (log_encoding(rs) + px) + u32_encoding(cx);
                                    lemma_starts_with_split(bytes@, head);
                                    lemma_add_assoc(log_encoding(rs), px, u32_encoding(cx));
                                    lemma_add_assoc(
                                        px,
                                        u32_encoding(cx),
                                        bytes@.skip(head.len() as int),
                                    );
                                    assert(bytes@ == log_encoding(rs) + (px + (u32_encoding(cx)
                                        + bytes@.skip(head.len() as int))));
                                    let rest = px + (u32_encoding(cx) + bytes@.skip(
                                        head.len() as int,
                                    ));
                                    let i = outv0.len() as int;
                                    if i < rs.len() {
                                        assert(tag_fits(rs[i].tag));
                                        lemma_suffix_at_frame(bytes@, rs, rest, i, pos0);
                                        let pp = payload_encoding(rs[i]);
                                        assert(r.id == rs[i].id && r.tag@ == rs[i].tag);
                                        assert(p2 as int == pos0 + pp.len());
                                        assert(starts_with(
                                            bytes@.skip(p2 as int),
                                            u32_encoding(crc32_of(pp)),
                                        ));
                                        assert(stored == crc32_of(pp));
                                        assert(digest == crc32_of(record_encoding(r.id, r.tag@)));
                                        assert(false);
                                    } else {
                                        lemma_concat_cut(log_encoding(rs), rest);
                                        assert(rs.take(rs.len() as int) =~= rs);
                                        assert(outv0 == rs);
                                    }
                                }
                                assert forall|rs: Seq<RecView>, rh: RecView, k: int| #[trigger]
                                    is_headless_frame_log(bytes@, rs, rh, k) implies outv0 == rs && end
                                        == ReadEnd::MissingChecksum by {
                                    let tail = frame_encoding(rh).take(k);
                                    let pp = payload_encoding(rh);
                                    let cc = u32_encoding(crc32_of(pp));
                                    assert(frame_encoding(rh) == pp + cc);
                                    assert(partial_frame(tail, rh, k));
                                    assert(torn_tail(tail));
                                    assert(is_torn_log(bytes@, rs));
                                    let i = outv0.len() as int;
                                    if i < rs.len() {
                                        assert(tag_fits(rs[i].tag));
                                        lemma_suffix_at_frame(bytes@, rs, tail, i, pos0);
                                        let ppi = payload_encoding(rs[i]);
                                        assert(r.id == rs[i].id && r.tag@ == rs[i].tag);
                                        assert(p2 as int == pos0 + ppi.len());
                                        assert(starts_with(bytes@.skip(p2 as int), u32_encoding(crc32_of(ppi))));
                                        assert(stored == crc32_of(ppi));
                                        assert(digest == crc32_of(record_encoding(r.id, r.tag@)));
                                        assert(false);
                                    } else {
                                        lemma_concat_cut(log_encoding(rs), tail);
                                        assert(rs.take(rs.len() as int) =~= rs);
                                        assert(pos0 == log_encoding(rs).len());
                                        assert(s0 == tail);
                                        lemma_take_concat_long(pp, cc, k);
                                        assert(tail == pp + cc.take(k - pp.len()));
                                        lemma_concat_cut(pp, cc.take(k - pp.len()));
                                        assert(starts_with(s0, pp));
                                        assert(r.id == rh.id && r.tag@ == rh.tag);
                                        assert(p2 as int == pos0 + pp.len());
                                        assert(s0.skip(pp.len() as int) == cc.take(k - pp.len()));
                                        assert(cc.take(k - pp.len()).len() < cc.len());
                                        assert(cut_short(bytes@.skip(p2 as int), cc));
                                        assert(false);
                                    }
                                }
                            }
                        }
                    },
                }
            },
        }
    }
    (out, end)
}

/// Order preservation: a log of whole frames is a torn log with an
/// empty remainder, so by the torn-log clause of `read_log`, reading it
/// yields exactly the appended records, in their order.
pub proof fn lemma_whole_log_reads_back(rs: Seq<RecView>)
    requires
        tags_fit(rs),
    ensures
        is_torn_log(log_encoding(rs), rs),
{
    let tail = Seq::<u8>::empty();
    assert(log_encoding(rs) + tail =~= log_encoding(rs));
    assert(torn_tail(tail));
    assert(is_torn_log(log_encoding(rs), rs));
}

/// Round trip: the bytes one append writes are a whole one-record log,
/// so reading them back yields exactly that record.
pub proof fn lemma_round_trip(r: RecView)
    requires
        tag_fits(r.tag),
    ensures
        is_torn_log(frame_encoding(r), seq![r]),
{
    assert(seq![r][0] == r);
    assert(tags_fit(seq![r]));
    assert(seq![r].skip(1) =~= Seq::<RecView>::empty());
    assert(log_encoding(Seq::<RecView>::empty()) == Seq::<u8>::empty());
    assert(log_encoding(seq![r]) =~= frame_encoding(r));
    lemma_whole_log_reads_back(seq![r]);
}

/// An empty file is the whole log of no records: reading an unwritten
/// log yields an empty sequence and no error.
pub proof fn lemma_empty_log()
    ensures
        is_torn_log(Seq::<u8>::empty(), Seq::<RecView>::empty()),
{
    assert(tags_fit(Seq::<RecView>::empty()));
    assert(log_encoding(Seq::<RecView>::empty()) == Seq::<u8>::empty());
    lemma_whole_log_reads_back(Seq::<RecView>::empty());
}

/// Torn tail tolerance: a whole log followed by a strictly partial
/// frame — the file truncated anywhere inside one further frame — reads
/// back as exactly the whole records, with no error.
pub proof fn lemma_torn_tail_tolerance(rs: Seq<RecView>, r: RecView, k: int)
    requires
        tags_fit(rs),
        tag_fits(r.tag),
        0 <= k < frame_encoding(r).len(),
    ensures
        is_torn_log(log_encoding(rs) + frame_encoding(r).take(k), rs),
{
    let tail = frame_encoding(r).take(k);
    assert(partial_frame(tail, r, k));
    assert(torn_tail(tail));
    assert(is_torn_log(log_encoding(rs) + tail, rs));
}

/// A structurally intact frame whose stored checksum is wrong is a
/// mismatch log: by the mismatch clause of `read_log`, the read yields
/// the records before it, never the suspect record, and reports the
/// mismatch.
pub proof fn lemma_mismatch_halts(rs: Seq<RecView>, r: RecView, c: u32, rest: Seq<u8>)
    requires
        tags_fit(rs),
        tag_fits(r.tag),
        c != crc32_of(record_encoding(r.id, r.tag)),
    ensures
        is_mismatch_log(
            ((log_encoding(rs) + record_encoding(r.id, r.tag)) + u32_encoding(c)) + rest,
            rs,
        ),
{
    let head = (log_encoding(rs) + record_encoding(r.id, r.tag)) + u32_encoding(c);
    let bytes = head + rest;
    lemma_concat_cut(head, rest);
    assert(starts_with(bytes, head));
    assert(mismatched_frame(bytes, rs, r, c));
}

/// Idempotent reads: what a read yields is pinned by the bytes alone —
/// the first clause of `read_log` — so reading unchanged bytes twice
/// yields the same records both times.
pub proof fn lemma_reads_idempotent(bytes1: Seq<u8>, bytes2: Seq<u8>)
    requires
        bytes1 == bytes2,
    ensures
        spec_read(bytes1) == spec_read(bytes2),
{
}

} // verus!
