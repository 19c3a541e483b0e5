//! What decoding gives back of what encoding wrote.
use vstd::prelude::*;

use crate::data::{
    Error, VARINT_MAX, be_bytes, lemma_uint_roundtrip, lemma_varint_roundtrip, spec_read_data,
    spec_read_data_and_len, spec_read_uint, spec_read_varint, varint_bytes,
};
use crate::frame::{
    AckRange, CloseType, FrameView, StreamType, spec_ack_ranges_bytes, spec_close_type_bit,
    spec_close_type_of, spec_decode_body, spec_decode_frame, spec_encodable, spec_frame_body,
    spec_frame_bytes, spec_frame_type, spec_read_ack_ranges, spec_stream_type_bit,
    spec_stream_type_of, varint_ok,
};

verus! {

/// `x` stands in `s` from position `p` on.
pub open spec fn stands_at(s: Seq<u8>, p: nat, x: Seq<u8>) -> bool {
    p + x.len() <= s.len() && s.subrange(p as int, (p + x.len()) as int) == x
}

/// A concatenation stands somewhere when each part stands right after the one before.
pub proof fn lemma_stands_at_concat(s: Seq<u8>, p: nat, a: Seq<u8>, b: Seq<u8>)
    requires
        stands_at(s, p, a + b),
    ensures
        stands_at(s, p, a),
        stands_at(s, p + a.len(), b),
{
    let ab = s.subrange(p as int, (p + a.len() + b.len()) as int);
    assert forall|i: int| 0 <= i < a.len() implies s[p + i] == a[i] by {
        assert(ab[i] == (a + b)[i]);
    }
    assert forall|i: int| 0 <= i < b.len() implies s[p + a.len() + i] == b[i] by {
        assert(ab[a.len() + i] == (a + b)[a.len() + i]);
    }
    assert(s.subrange(p as int, (p + a.len()) as int) =~= a);
    assert(s.subrange((p + a.len()) as int, (p + a.len() + b.len()) as int) =~= b);
}

proof fn lemma_read_varint_at(s: Seq<u8>, p: nat, v: u64)
    requires
        v <= VARINT_MAX,
        stands_at(s, p, varint_bytes(v)),
    ensures
        spec_read_varint(s, p) == Ok::<(u64, nat), Error>((v, p + varint_bytes(v).len())),
{
    lemma_varint_roundtrip(s, p, v);
}

proof fn lemma_read_data_at(s: Seq<u8>, p: nat, x: Seq<u8>)
    requires
        stands_at(s, p, x),
    ensures
        spec_read_data(s, p, x.len()) == Ok::<(Seq<u8>, nat), Error>((x, p + x.len())),
{
}

proof fn lemma_read_u16_at(s: Seq<u8>, p: nat, v: u16)
    requires
        stands_at(s, p, be_bytes(v as u64, 2)),
    ensures
        spec_read_uint(s, p, 2) == Ok::<(u64, nat), Error>((v as u64, p + 2)),
{
    assert(((v as u64) >> 16u64) == 0) by (bit_vector);
    lemma_uint_roundtrip(s, p, v as u64, 2);
}

proof fn lemma_read_data_and_len_at(s: Seq<u8>, p: nat, x: Seq<u8>)
    requires
        x.len() <= VARINT_MAX,
        stands_at(s, p, varint_bytes(x.len() as u64) + x),
    ensures
        spec_read_data_and_len(s, p) == (
            Ok::<Seq<u8>, Error>(x),
            p + varint_bytes(x.len() as u64).len() + x.len(),
        ),
{
    let v = varint_bytes(x.len() as u64);
    lemma_stands_at_concat(s, p, v, x);
    lemma_read_varint_at(s, p, x.len() as u64);
    lemma_read_data_at(s, p + v.len(), x);
}

/// ACK ranges read back as written.
pub proof fn lemma_ack_ranges_roundtrip(s: Seq<u8>, p: nat, rs: Seq<AckRange>)
    requires
        forall|i: int|
            0 <= i < rs.len() ==> varint_ok(#[trigger] rs[i].gap) && varint_ok(rs[i].range),
        stands_at(s, p, spec_ack_ranges_bytes(rs)),
    ensures
        spec_read_ack_ranges(s, p, rs.len()) == (
            Ok::<Seq<AckRange>, Error>(rs),
            p + spec_ack_ranges_bytes(rs).len(),
        ),
    decreases rs.len(),
{
    if rs.len() > 0 {
        let init = rs.drop_last();
        let last = rs.last();
        let a = spec_ack_ranges_bytes(init);
        let g = varint_bytes(last.gap);
        let r = varint_bytes(last.range);
        assert(varint_ok(rs[rs.len() - 1].gap));
        lemma_stands_at_concat(s, p, a + g, r);
        lemma_stands_at_concat(s, p, a, g);
        assert forall|i: int| 0 <= i < init.len() implies varint_ok(#[trigger] init[i].gap)
            && varint_ok(init[i].range) by {
            assert(init[i] == rs[i]);
        }
        lemma_ack_ranges_roundtrip(s, p, init);
        lemma_read_varint_at(s, p + a.len(), last.gap);
        lemma_read_varint_at(s, p + a.len() + g.len(), last.range);
        assert(init.push(AckRange { gap: last.gap, range: last.range }) =~= rs);
    } else {
        assert(rs =~= Seq::<AckRange>::empty());
    }
}


/// The stream type written into a frame type is the one read back from it.
pub proof fn lemma_stream_type_roundtrip(t: StreamType)
    ensures
        spec_stream_type_of(spec_stream_type_bit(t)) == t,
{
    lemma_low_bit_facts();
}

/// The close type written into a frame type is the one read back from it.
pub proof fn lemma_close_type_roundtrip(t: CloseType)
    ensures
        spec_close_type_of(spec_close_type_bit(t)) == t,
{
    lemma_low_bit_facts();
}

/// The fields that encoding writes with a fixed width hold as many bytes as
/// decoding reads back: a connection ID of at most 255 bytes (its length is
/// written in one byte), a reset token of 16 bytes, path data of 8 bytes.
pub open spec fn spec_fixed_widths_ok(f: FrameView) -> bool {
    match f {
        FrameView::NewConnectionId { connection_id, stateless_reset_token, .. } =>
            connection_id.len() <= 255 && stateless_reset_token.len() == 16,
        FrameView::PathChallenge { data } => data.len() == 8,
        FrameView::PathResponse { data } => data.len() == 8,
        _ => true,
    }
}

proof fn lemma_stream_type_bits(fin: bool, off: bool, t: u8)
    requires
        t == ({
            let t1 = if fin {
                0x08u8 | 0x01u8
            } else {
                0x08u8
            };
            let t2 = if off {
                t1 | 0x04u8
            } else {
                t1
            };
            t2 | 0x02u8
        }),
    ensures
        0x08 <= t <= 0x0f,
        ((t & 0x04u8) != 0) == off,
        (t & 0x02u8) != 0,
        ((t & 0x01u8) != 0) == fin,
{
    if fin {
        if off {
            assert(t == 0x0f) by (bit_vector)
                requires
                    t == ((0x08u8 | 0x01u8) | 0x04u8) | 0x02u8,
            ;
        } else {
            assert(t == 0x0b) by (bit_vector)
                requires
                    t == (0x08u8 | 0x01u8) | 0x02u8,
            ;
        }
    } else {
        if off {
            assert(t == 0x0e) by (bit_vector)
                requires
                    t == (0x08u8 | 0x04u8) | 0x02u8,
            ;
        } else {
            assert(t == 0x0a) by (bit_vector)
                requires
                    t == 0x08u8 | 0x02u8,
            ;
        }
    }
    assert(((0x0fu8 & 0x04u8) != 0) && ((0x0fu8 & 0x02u8) != 0) && ((0x0fu8 & 0x01u8) != 0)
        && ((0x0bu8 & 0x04u8) == 0) && ((0x0bu8 & 0x02u8) != 0) && ((0x0bu8 & 0x01u8) != 0)
        && ((0x0eu8 & 0x04u8) != 0) && ((0x0eu8 & 0x02u8) != 0) && ((0x0eu8 & 0x01u8) == 0)
        && ((0x0au8 & 0x04u8) == 0) && ((0x0au8 & 0x02u8) != 0) && ((0x0au8 & 0x01u8) == 0))
        by (bit_vector);
}

proof fn lemma_low_bit_facts()
    ensures
        (0x12u8 & 0x01u8) == 0,
        (0x13u8 & 0x01u8) != 0,
        (0x16u8 & 0x01u8) == 0,
        (0x17u8 & 0x01u8) != 0,
        (0x1cu8 & 0x01u8) == 0,
        (0x1du8 & 0x01u8) != 0,
        (0x00u8 & 0x01u8) == 0,
        (0x01u8 & 0x01u8) != 0,
{
    assert((0x12u8 & 0x01u8) == 0 && (0x13u8 & 0x01u8) != 0 && (0x16u8 & 0x01u8) == 0 && (0x17u8
        & 0x01u8) != 0 && (0x1cu8 & 0x01u8) == 0 && (0x1du8 & 0x01u8) != 0 && (0x00u8 & 0x01u8)
        == 0 && (0x01u8 & 0x01u8) != 0) by (bit_vector);
}

proof fn lemma_ack_body(f: FrameView, s: Seq<u8>, q: nat)
    requires
        spec_encodable(f),
        spec_fixed_widths_ok(f),
        stands_at(s, q, spec_frame_body(f)),
        f is Ack,
    ensures
        spec_decode_body(spec_frame_type(f), s, q) == (
            Ok::<FrameView, Error>(f),
            q + spec_frame_body(f).len(),
        ),
{
    if let FrameView::Ack { largest_acknowledged, ack_delay, first_ack_range, ack_ranges } = f {
        let a = varint_bytes(largest_acknowledged);
        let b = varint_bytes(ack_delay);
        let c = varint_bytes(ack_ranges.len() as u64);
        let e = varint_bytes(first_ack_range);
        let r = spec_ack_ranges_bytes(ack_ranges);
        lemma_stands_at_concat(s, q, a + b + c + e, r);
        lemma_stands_at_concat(s, q, a + b + c, e);
        lemma_stands_at_concat(s, q, a + b, c);
        lemma_stands_at_concat(s, q, a, b);
        lemma_read_varint_at(s, q, largest_acknowledged);
        lemma_read_varint_at(s, q + a.len(), ack_delay);
        lemma_read_varint_at(s, q + a.len() + b.len(), ack_ranges.len() as u64);
        lemma_read_varint_at(s, q + a.len() + b.len() + c.len(), first_ack_range);
        lemma_ack_ranges_roundtrip(s, q + a.len() + b.len() + c.len() + e.len(), ack_ranges);
    }
}

proof fn lemma_reset_stream_body(f: FrameView, s: Seq<u8>, q: nat)
    requires
        spec_encodable(f),
        spec_fixed_widths_ok(f),
        stands_at(s, q, spec_frame_body(f)),
        f is ResetStream,
    ensures
        spec_decode_body(spec_frame_type(f), s, q) == (
            Ok::<FrameView, Error>(f),
            q + spec_frame_body(f).len(),
        ),
{
    if let FrameView::ResetStream { stream_id, application_error_code, final_size } = f {
        let a = varint_bytes(stream_id);
        let b = be_bytes(application_error_code as u64, 2);
        let c = varint_bytes(final_size);
        lemma_stands_at_concat(s, q, a + b, c);
        lemma_stands_at_concat(s, q, a, b);
        lemma_read_varint_at(s, q, stream_id);
        lemma_read_u16_at(s, q + a.len(), application_error_code);
        lemma_read_varint_at(s, q + a.len() + 2, final_size);
    }
}

proof fn lemma_stop_sending_body(f: FrameView, s: Seq<u8>, q: nat)
    requires
        spec_encodable(f),
        spec_fixed_widths_ok(f),
        stands_at(s, q, spec_frame_body(f)),
        f is StopSending,
    ensures
        spec_decode_body(spec_frame_type(f), s, q) == (
            Ok::<FrameView, Error>(f),
            q + spec_frame_body(f).len(),
        ),
{
    if let FrameView::StopSending { application_error_code } = f {
        lemma_read_u16_at(s, q, application_error_code);
    }
}

proof fn lemma_crypto_body(f: FrameView, s: Seq<u8>, q: nat)
    requires
        spec_encodable(f),
        spec_fixed_widths_ok(f),
        stands_at(s, q, spec_frame_body(f)),
        f is Crypto,
    ensures
        spec_decode_body(spec_frame_type(f), s, q) == (
            Ok::<FrameView, Error>(f),
            q + spec_frame_body(f).len(),
        ),
{
    if let FrameView::Crypto { offset, data } = f {
        let a = varint_bytes(offset);
        lemma_stands_at_concat(s, q, a, varint_bytes(data.len() as u64) + data);
        lemma_read_varint_at(s, q, offset);
        lemma_read_data_and_len_at(s, q + a.len(), data);
    }
}

proof fn lemma_new_token_body(f: FrameView, s: Seq<u8>, q: nat)
    requires
        spec_encodable(f),
        spec_fixed_widths_ok(f),
        stands_at(s, q, spec_frame_body(f)),
        f is NewToken,
    ensures
        spec_decode_body(spec_frame_type(f), s, q) == (
            Ok::<FrameView, Error>(f),
            q + spec_frame_body(f).len(),
        ),
{
    if let FrameView::NewToken { token } = f {
        lemma_read_data_and_len_at(s, q, token);
    }
}

proof fn lemma_stream_body(f: FrameView, s: Seq<u8>, q: nat)
    requires
        spec_encodable(f),
        spec_fixed_widths_ok(f),
        stands_at(s, q, spec_frame_body(f)),
        f is Stream,
    ensures
        spec_decode_body(spec_frame_type(f), s, q) == (
            Ok::<FrameView, Error>(f),
            q + spec_frame_body(f).len(),
        ),
{
    if let FrameView::Stream { fin, stream_id, offset, data } = f {
        let t = spec_frame_type(f);
        lemma_stream_type_bits(fin, offset > 0, t);
        let a = varint_bytes(stream_id);
        let o = if offset > 0 {
            varint_bytes(offset)
        } else {
            Seq::<u8>::empty()
        };
        let rest = varint_bytes(data.len() as u64) + data;
        assert(spec_frame_body(f) == a + o + rest);
        lemma_stands_at_concat(s, q, a + o, rest);
        lemma_stands_at_concat(s, q, a, o);
        lemma_read_varint_at(s, q, stream_id);
        if offset > 0 {
            lemma_read_varint_at(s, q + a.len(), offset);
        }
        lemma_read_data_and_len_at(s, q + a.len() + o.len(), data);
    }
}

proof fn lemma_max_data_body(f: FrameView, s: Seq<u8>, q: nat)
    requires
        spec_encodable(f),
        spec_fixed_widths_ok(f),
        stands_at(s, q, spec_frame_body(f)),
        f is MaxData,
    ensures
        spec_decode_body(spec_frame_type(f), s, q) == (
            Ok::<FrameView, Error>(f),
            q + spec_frame_body(f).len(),
        ),
{
    if let FrameView::MaxData { maximum_data } = f {
        lemma_read_varint_at(s, q, maximum_data);
    }
}

proof fn lemma_max_stream_data_body(f: FrameView, s: Seq<u8>, q: nat)
    requires
        spec_encodable(f),
        spec_fixed_widths_ok(f),
        stands_at(s, q, spec_frame_body(f)),
        f is MaxStreamData,
    ensures
        spec_decode_body(spec_frame_type(f), s, q) == (
            Ok::<FrameView, Error>(f),
            q + spec_frame_body(f).len(),
        ),
{
    if let FrameView::MaxStreamData { stream_id, maximum_stream_data } = f {
        let a = varint_bytes(stream_id);
        lemma_stands_at_concat(s, q, a, varint_bytes(maximum_stream_data));
        lemma_read_varint_at(s, q, stream_id);
        lemma_read_varint_at(s, q + a.len(), maximum_stream_data);
    }
}

proof fn lemma_max_streams_body(f: FrameView, s: Seq<u8>, q: nat)
    requires
        spec_encodable(f),
        spec_fixed_widths_ok(f),
        stands_at(s, q, spec_frame_body(f)),
        f is MaxStreams,
    ensures
        spec_decode_body(spec_frame_type(f), s, q) == (
            Ok::<FrameView, Error>(f),
            q + spec_frame_body(f).len(),
        ),
{
    lemma_low_bit_facts();
    if let FrameView::MaxStreams { stream_type, maximum_streams } = f {
        lemma_read_varint_at(s, q, maximum_streams);
    }
}

proof fn lemma_data_blocked_body(f: FrameView, s: Seq<u8>, q: nat)
    requires
        spec_encodable(f),
        spec_fixed_widths_ok(f),
        stands_at(s, q, spec_frame_body(f)),
        f is DataBlocked,
    ensures
        spec_decode_body(spec_frame_type(f), s, q) == (
            Ok::<FrameView, Error>(f),
            q + spec_frame_body(f).len(),
        ),
{
    if let FrameView::DataBlocked { data_limit } = f {
        lemma_read_varint_at(s, q, data_limit);
    }
}

proof fn lemma_stream_data_blocked_body(f: FrameView, s: Seq<u8>, q: nat)
    requires
        spec_encodable(f),
        spec_fixed_widths_ok(f),
        stands_at(s, q, spec_frame_body(f)),
        f is StreamDataBlocked,
    ensures
        spec_decode_body(spec_frame_type(f), s, q) == (
            Ok::<FrameView, Error>(f),
            q + spec_frame_body(f).len(),
        ),
{
    if let FrameView::StreamDataBlocked { stream_id, stream_data_limit } = f {
        let a = varint_bytes(stream_id);
        lemma_stands_at_concat(s, q, a, varint_bytes(stream_data_limit));
        lemma_read_varint_at(s, q, stream_id);
        lemma_read_varint_at(s, q + a.len(), stream_data_limit);
    }
}

proof fn lemma_streams_blocked_body(f: FrameView, s: Seq<u8>, q: nat)
    requires
        spec_encodable(f),
        spec_fixed_widths_ok(f),
        stands_at(s, q, spec_frame_body(f)),
        f is StreamsBlocked,
    ensures
        spec_decode_body(spec_frame_type(f), s, q) == (
            Ok::<FrameView, Error>(f),
            q + spec_frame_body(f).len(),
        ),
{
    lemma_low_bit_facts();
    if let FrameView::StreamsBlocked { stream_type, stream_limit } = f {
        lemma_read_varint_at(s, q, stream_limit);
    }
}

proof fn lemma_new_connection_id_body(f: FrameView, s: Seq<u8>, q: nat)
    requires
        spec_encodable(f),
        spec_fixed_widths_ok(f),
        stands_at(s, q, spec_frame_body(f)),
        f is NewConnectionId,
    ensures
        spec_decode_body(spec_frame_type(f), s, q) == (
            Ok::<FrameView, Error>(f),
            q + spec_frame_body(f).len(),
        ),
{
    if let FrameView::NewConnectionId { sequence_number, connection_id, stateless_reset_token } = f {
        let a = varint_bytes(sequence_number);
        let l = connection_id.len() as u64;
        let b = be_bytes(l, 1);
        lemma_stands_at_concat(s, q, a + b + connection_id, stateless_reset_token);
        lemma_stands_at_concat(s, q, a + b, connection_id);
        lemma_stands_at_concat(s, q, a, b);
        lemma_read_varint_at(s, q, sequence_number);
        assert((l >> 8u64) == 0) by (bit_vector)
            requires
                l <= 255,
        ;
        lemma_uint_roundtrip(s, q + a.len(), l, 1);
        lemma_read_data_at(s, q + a.len() + 1, connection_id);
        lemma_read_data_at(s, q + a.len() + 1 + connection_id.len(), stateless_reset_token);
    }
}

proof fn lemma_retire_connection_id_body(f: FrameView, s: Seq<u8>, q: nat)
    requires
        spec_encodable(f),
        spec_fixed_widths_ok(f),
        stands_at(s, q, spec_frame_body(f)),
        f is RetireConnectionId,
    ensures
        spec_decode_body(spec_frame_type(f), s, q) == (
            Ok::<FrameView, Error>(f),
            q + spec_frame_body(f).len(),
        ),
{
    if let FrameView::RetireConnectionId { sequence_number } = f {
        lemma_read_varint_at(s, q, sequence_number);
    }
}

proof fn lemma_path_challenge_body(f: FrameView, s: Seq<u8>, q: nat)
    requires
        spec_encodable(f),
        spec_fixed_widths_ok(f),
        stands_at(s, q, spec_frame_body(f)),
        f is PathChallenge,
    ensures
        spec_decode_body(spec_frame_type(f), s, q) == (
            Ok::<FrameView, Error>(f),
            q + spec_frame_body(f).len(),
        ),
{
    if let FrameView::PathChallenge { data } = f {
        lemma_read_data_at(s, q, data);
    }
}

proof fn lemma_path_response_body(f: FrameView, s: Seq<u8>, q: nat)
    requires
        spec_encodable(f),
        spec_fixed_widths_ok(f),
        stands_at(s, q, spec_frame_body(f)),
        f is PathResponse,
    ensures
        spec_decode_body(spec_frame_type(f), s, q) == (
            Ok::<FrameView, Error>(f),
            q + spec_frame_body(f).len(),
        ),
{
    if let FrameView::PathResponse { data } = f {
        lemma_read_data_at(s, q, data);
    }
}

proof fn lemma_connection_close_body(f: FrameView, s: Seq<u8>, q: nat)
    requires
        spec_encodable(f),
        spec_fixed_widths_ok(f),
        stands_at(s, q, spec_frame_body(f)),
        f is ConnectionClose,
    ensures
        spec_decode_body(spec_frame_type(f), s, q) == (
            Ok::<FrameView, Error>(f),
            q + spec_frame_body(f).len(),
        ),
{
    lemma_low_bit_facts();
    if let FrameView::ConnectionClose { close_type, error_code, frame_type, reason_phrase } = f {
        let a = be_bytes(error_code as u64, 2);
        let b = varint_bytes(frame_type);
        let c = varint_bytes(reason_phrase.len() as u64) + reason_phrase;
        lemma_stands_at_concat(s, q, a + b, c);
        lemma_stands_at_concat(s, q, a, b);
        lemma_read_u16_at(s, q, error_code);
        lemma_read_varint_at(s, q + 2, frame_type);
        lemma_read_data_and_len_at(s, q + 2 + b.len(), reason_phrase);
    }
}

/// The body of a frame reads back as written after its type byte.
proof fn lemma_body_roundtrip(f: FrameView, s: Seq<u8>, q: nat)
    requires
        spec_encodable(f),
        spec_fixed_widths_ok(f),
        stands_at(s, q, spec_frame_body(f)),
    ensures
        spec_decode_body(spec_frame_type(f), s, q) == (
            Ok::<FrameView, Error>(f),
            q + spec_frame_body(f).len(),
        ),
{
    lemma_low_bit_facts();
    match f {
        FrameView::Padding => {},
        FrameView::Ping => {},
        FrameView::Ack { .. } => lemma_ack_body(f, s, q),
        FrameView::ResetStream { .. } => lemma_reset_stream_body(f, s, q),
        FrameView::StopSending { .. } => lemma_stop_sending_body(f, s, q),
        FrameView::Crypto { .. } => lemma_crypto_body(f, s, q),
        FrameView::NewToken { .. } => lemma_new_token_body(f, s, q),
        FrameView::Stream { .. } => lemma_stream_body(f, s, q),
        FrameView::MaxData { .. } => lemma_max_data_body(f, s, q),
        FrameView::MaxStreamData { .. } => lemma_max_stream_data_body(f, s, q),
        FrameView::MaxStreams { .. } => lemma_max_streams_body(f, s, q),
        FrameView::DataBlocked { .. } => lemma_data_blocked_body(f, s, q),
        FrameView::StreamDataBlocked { .. } => lemma_stream_data_blocked_body(f, s, q),
        FrameView::StreamsBlocked { .. } => lemma_streams_blocked_body(f, s, q),
        FrameView::NewConnectionId { .. } => lemma_new_connection_id_body(f, s, q),
        FrameView::RetireConnectionId { .. } => lemma_retire_connection_id_body(f, s, q),
        FrameView::PathChallenge { .. } => lemma_path_challenge_body(f, s, q),
        FrameView::PathResponse { .. } => lemma_path_response_body(f, s, q),
        FrameView::ConnectionClose { .. } => lemma_connection_close_body(f, s, q),
    }
}

/// Decoding what encoding wrote gives the frame back and stops right after
/// its last byte, wherever the encoding stands in the buffer and whatever
/// follows it.
pub proof fn lemma_frame_roundtrip(f: FrameView, s: Seq<u8>, p: nat)
    requires
        spec_encodable(f),
        spec_fixed_widths_ok(f),
        stands_at(s, p, spec_frame_bytes(f)),
    ensures
        spec_decode_frame(s, p) == (
            Ok::<FrameView, Error>(f),
            p + spec_frame_bytes(f).len(),
        ),
{
    lemma_stands_at_concat(s, p, seq![spec_frame_type(f)], spec_frame_body(f));
    assert(s[p as int] == spec_frame_bytes(f)[0]);
    lemma_body_roundtrip(f, s, p + 1);
}


/// An encoded frame is never empty, and its first byte is its type.
pub proof fn lemma_frame_starts_with_type(f: FrameView)
    ensures
        spec_frame_bytes(f).len() >= 1,
        spec_frame_bytes(f)[0] == spec_frame_type(f),
{
}

/// Reading ACK ranges never moves backwards nor past the end of the buffer.
pub proof fn lemma_ack_ranges_within(s: Seq<u8>, p: nat, n: nat)
    requires
        p <= s.len(),
    ensures
        p <= spec_read_ack_ranges(s, p, n).1 <= s.len(),
    decreases n,
{
    if n > 0 {
        lemma_ack_ranges_within(s, p, (n - 1) as nat);
    }
}

/// Decoding a frame never moves backwards nor past the end of the buffer,
/// and a decoded frame takes at least one byte: reading frame after frame
/// from a buffer comes to its end.
pub proof fn lemma_decode_frame_advances(s: Seq<u8>, p: nat)
    requires
        p <= s.len(),
    ensures
        p <= spec_decode_frame(s, p).1 <= s.len(),
        spec_decode_frame(s, p).0 is Ok ==> p < spec_decode_frame(s, p).1,
{
    if p < s.len() {
        let t = s[p as int];
        if t == 2 || t == 3 {
            let q = p + 1;
            if let Ok((_, p1)) = spec_read_varint(s, q) {
                if let Ok((_, p2)) = spec_read_varint(s, p1) {
                    if let Ok((nr, p3)) = spec_read_varint(s, p2) {
                        if let Ok((_, p4)) = spec_read_varint(s, p3) {
                            lemma_ack_ranges_within(s, p4, nr as nat);
                        }
                    }
                }
            }
        }
    }
}

} // verus!
