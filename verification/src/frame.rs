use vstd::prelude::*;

use crate::data::{
    Data, Error, Res, VARINT_MAX, be_bytes, lemma_be_value_single, spec_read_byte, spec_read_data,
    spec_read_data_and_len, spec_read_uint, spec_read_varint, varint_bytes,
};

verus! {

pub const FRAME_TYPE_PADDING: u8 = 0x0;
pub const FRAME_TYPE_PING: u8 = 0x1;
pub const FRAME_TYPE_ACK: u8 = 0x2;
pub const FRAME_TYPE_ACK_ECN: u8 = 0x3;
pub const FRAME_TYPE_RST_STREAM: u8 = 0x4;
pub const FRAME_TYPE_STOP_SENDING: u8 = 0x5;
pub const FRAME_TYPE_CRYPTO: u8 = 0x6;
pub const FRAME_TYPE_NEW_TOKEN: u8 = 0x7;
pub const FRAME_TYPE_STREAM: u8 = 0x8;
pub const FRAME_TYPE_STREAM_MAX: u8 = 0xf;
pub const FRAME_TYPE_MAX_DATA: u8 = 0x10;
pub const FRAME_TYPE_MAX_STREAM_DATA: u8 = 0x11;
pub const FRAME_TYPE_MAX_STREAMS_BIDI: u8 = 0x12;
pub const FRAME_TYPE_MAX_STREAMS_UNIDI: u8 = 0x13;
pub const FRAME_TYPE_DATA_BLOCKED: u8 = 0x14;
pub const FRAME_TYPE_STREAM_DATA_BLOCKED: u8 = 0x15;
pub const FRAME_TYPE_STREAMS_BLOCKED_BIDI: u8 = 0x16;
pub const FRAME_TYPE_STREAMS_BLOCKED_UNIDI: u8 = 0x17;
pub const FRAME_TYPE_NEW_CONNECTION_ID: u8 = 0x18;
pub const FRAME_TYPE_RETIRE_CONNECTION_ID: u8 = 0x19;
pub const FRAME_TYPE_PATH_CHALLENGE: u8 = 0x1a;
pub const FRAME_TYPE_PATH_RESPONSE: u8 = 0x1b;
pub const FRAME_TYPE_CONNECTION_CLOSE_TRANSPORT: u8 = 0x1c;
pub const FRAME_TYPE_CONNECTION_CLOSE_APPLICATION: u8 = 0x1d;

pub const STREAM_FRAME_BIT_FIN: u8 = 0x01;
pub const STREAM_FRAME_BIT_LEN: u8 = 0x02;
pub const STREAM_FRAME_BIT_OFF: u8 = 0x04;

/// Direction of the streams a MAX_STREAMS or STREAMS_BLOCKED frame speaks of.
#[derive(PartialEq, Eq, Structural, Debug, Clone, Copy)]
pub enum StreamType {
    BiDi,
    UniDi,
}

/// The stream type that the low bit of a frame type selects.
pub open spec fn spec_stream_type_of(bit: u8) -> StreamType {
    if (bit & 0x01) == 0 {
        StreamType::BiDi
    } else {
        StreamType::UniDi
    }
}

/// The bit that a stream type adds to the frame type.
pub open spec fn spec_stream_type_bit(t: StreamType) -> u8 {
    match t {
        StreamType::BiDi => 0,
        StreamType::UniDi => 1,
    }
}

impl StreamType {
    /// The bit this stream type adds to the frame type.
    pub fn frame_type_bit(&self) -> (b: u8)
        ensures
            b == spec_stream_type_bit(*self),
    {
        match self {
            StreamType::BiDi => 0,
            StreamType::UniDi => 1,
        }
    }

    /// The stream type selected by the low bit of `bit`.
    pub fn from_type_bit(bit: u8) -> (t: StreamType)
        ensures
            t == spec_stream_type_of(bit),
    {
        if (bit & 0x01) == 0 {
            return StreamType::BiDi;
        }
        return StreamType::UniDi;
    }
}

/// Whether a CONNECTION_CLOSE frame reports a transport or an application error.
#[derive(PartialEq, Eq, Structural, Debug, Clone, Copy)]
pub enum CloseType {
    Transport,
    Application,
}

/// The close type that the low bit of a frame type selects.
pub open spec fn spec_close_type_of(bit: u8) -> CloseType {
    if (bit & 0x01) == 0 {
        CloseType::Transport
    } else {
        CloseType::Application
    }
}

/// The bit that a close type adds to the frame type.
pub open spec fn spec_close_type_bit(t: CloseType) -> u8 {
    match t {
        CloseType::Transport => 0,
        CloseType::Application => 1,
    }
}

impl CloseType {
    /// The bit this close type adds to the frame type.
    pub fn frame_type_bit(&self) -> (b: u8)
        ensures
            b == spec_close_type_bit(*self),
    {
        match self {
            CloseType::Transport => 0,
            CloseType::Application => 1,
        }
    }

    /// The close type selected by the low bit of `bit`.
    pub fn from_type_bit(bit: u8) -> (t: CloseType)
        ensures
            t == spec_close_type_of(bit),
    {
        if (bit & 0x01) == 0 {
            return CloseType::Transport;
        }
        return CloseType::Application;
    }
}

/// One range of an ACK frame after the first: a gap, then a run of
/// acknowledged packets.
#[derive(PartialEq, Eq, Structural, Debug, Default, Clone, Copy)]
pub struct AckRange {
    pub gap: u64,
    pub range: u64,
}

/// A QUIC frame.
#[allow(inconsistent_fields)]
#[derive(PartialEq, Debug)]
pub enum Frame {
    Padding,
    Ping,
    Ack {
        largest_acknowledged: u64,
        ack_delay: u64,
        first_ack_range: u64,
        ack_ranges: Vec<AckRange>,
    },
    ResetStream { stream_id: u64, application_error_code: u16, final_size: u64 },
    StopSending { application_error_code: u16 },
    Crypto { offset: u64, data: Vec<u8> },
    NewToken { token: Vec<u8> },
    Stream { fin: bool, stream_id: u64, offset: u64, data: Vec<u8> },
    MaxData { maximum_data: u64 },
    MaxStreamData { stream_id: u64, maximum_stream_data: u64 },
    MaxStreams { stream_type: StreamType, maximum_streams: u64 },
    DataBlocked { data_limit: u64 },
    StreamDataBlocked { stream_id: u64, stream_data_limit: u64 },
    StreamsBlocked { stream_type: StreamType, stream_limit: u64 },
    NewConnectionId {
        sequence_number: u64,
        connection_id: Vec<u8>,
        stateless_reset_token: [u8; 16],
    },
    RetireConnectionId { sequence_number: u64 },
    PathChallenge { data: [u8; 8] },
    PathResponse { data: [u8; 8] },
    ConnectionClose {
        close_type: CloseType,
        error_code: u16,
        frame_type: u64,
        reason_phrase: Vec<u8>,
    },
}

/// A frame as a mathematical value: byte vectors and arrays become sequences.
#[verifier::ext_equal]
pub enum FrameView {
    Padding,
    Ping,
    Ack {
        largest_acknowledged: u64,
        ack_delay: u64,
        first_ack_range: u64,
        ack_ranges: Seq<AckRange>,
    },
    ResetStream { stream_id: u64, application_error_code: u16, final_size: u64 },
    StopSending { application_error_code: u16 },
    Crypto { offset: u64, data: Seq<u8> },
    NewToken { token: Seq<u8> },
    Stream { fin: bool, stream_id: u64, offset: u64, data: Seq<u8> },
    MaxData { maximum_data: u64 },
    MaxStreamData { stream_id: u64, maximum_stream_data: u64 },
    MaxStreams { stream_type: StreamType, maximum_streams: u64 },
    DataBlocked { data_limit: u64 },
    StreamDataBlocked { stream_id: u64, stream_data_limit: u64 },
    StreamsBlocked { stream_type: StreamType, stream_limit: u64 },
    NewConnectionId {
        sequence_number: u64,
        connection_id: Seq<u8>,
        stateless_reset_token: Seq<u8>,
    },
    RetireConnectionId { sequence_number: u64 },
    PathChallenge { data: Seq<u8> },
    PathResponse { data: Seq<u8> },
    ConnectionClose {
        close_type: CloseType,
        error_code: u16,
        frame_type: u64,
        reason_phrase: Seq<u8>,
    },
}

impl View for Frame {
    type V = FrameView;

    open spec fn view(&self) -> FrameView {
        match self {
            Frame::Padding => FrameView::Padding,
            Frame::Ping => FrameView::Ping,
            Frame::Ack { largest_acknowledged, ack_delay, first_ack_range, ack_ranges } =>
                FrameView::Ack {
                largest_acknowledged: *largest_acknowledged,
                ack_delay: *ack_delay,
                first_ack_range: *first_ack_range,
                ack_ranges: ack_ranges@,
            },
            Frame::ResetStream { stream_id, application_error_code, final_size } =>
                FrameView::ResetStream {
                stream_id: *stream_id,
                application_error_code: *application_error_code,
                final_size: *final_size,
            },
            Frame::StopSending { application_error_code } => FrameView::StopSending {
                application_error_code: *application_error_code,
            },
            Frame::Crypto { offset, data } => FrameView::Crypto { offset: *offset, data: data@ },
            Frame::NewToken { token } => FrameView::NewToken { token: token@ },
            Frame::Stream { fin, stream_id, offset, data } => FrameView::Stream {
                fin: *fin,
                stream_id: *stream_id,
                offset: *offset,
                data: data@,
            },
            Frame::MaxData { maximum_data } => FrameView::MaxData { maximum_data: *maximum_data },
            Frame::MaxStreamData { stream_id, maximum_stream_data } => FrameView::MaxStreamData {
                stream_id: *stream_id,
                maximum_stream_data: *maximum_stream_data,
            },
            Frame::MaxStreams { stream_type, maximum_streams } => FrameView::MaxStreams {
                stream_type: *stream_type,
                maximum_streams: *maximum_streams,
            },
            Frame::DataBlocked { data_limit } => FrameView::DataBlocked { data_limit: *data_limit },
            Frame::StreamDataBlocked { stream_id, stream_data_limit } =>
                FrameView::StreamDataBlocked {
                stream_id: *stream_id,
                stream_data_limit: *stream_data_limit,
            },
            Frame::StreamsBlocked { stream_type, stream_limit } => FrameView::StreamsBlocked {
                stream_type: *stream_type,
                stream_limit: *stream_limit,
            },
            Frame::NewConnectionId { sequence_number, connection_id, stateless_reset_token } =>
                FrameView::NewConnectionId {
                sequence_number: *sequence_number,
                connection_id: connection_id@,
                stateless_reset_token: stateless_reset_token@,
            },
            Frame::RetireConnectionId { sequence_number } => FrameView::RetireConnectionId {
                sequence_number: *sequence_number,
            },
            Frame::PathChallenge { data } => FrameView::PathChallenge { data: data@ },
            Frame::PathResponse { data } => FrameView::PathResponse { data: data@ },
            Frame::ConnectionClose { close_type, error_code, frame_type, reason_phrase } =>
                FrameView::ConnectionClose {
                close_type: *close_type,
                error_code: *error_code,
                frame_type: *frame_type,
                reason_phrase: reason_phrase@,
            },
        }
    }
}

/// The type byte that starts the encoding of `f`. A STREAM frame always
/// carries a length, carries an offset only when it is not zero, and sets
/// the FIN bit as asked; ACK frames never carry ECN counts.
pub open spec fn spec_frame_type(f: FrameView) -> u8 {
    match f {
        FrameView::Padding => FRAME_TYPE_PADDING,
        FrameView::Ping => FRAME_TYPE_PING,
        FrameView::Ack { .. } => FRAME_TYPE_ACK,
        FrameView::ResetStream { .. } => FRAME_TYPE_RST_STREAM,
        FrameView::StopSending { .. } => FRAME_TYPE_STOP_SENDING,
        FrameView::Crypto { .. } => FRAME_TYPE_CRYPTO,
        FrameView::NewToken { .. } => FRAME_TYPE_NEW_TOKEN,
        FrameView::Stream { fin, offset, .. } => {
            let t1 = if fin {
                FRAME_TYPE_STREAM | STREAM_FRAME_BIT_FIN
            } else {
                FRAME_TYPE_STREAM
            };
            let t2 = if offset > 0 {
                t1 | STREAM_FRAME_BIT_OFF
            } else {
                t1
            };
            t2 | STREAM_FRAME_BIT_LEN
        },
        FrameView::MaxData { .. } => FRAME_TYPE_MAX_DATA,
        FrameView::MaxStreamData { .. } => FRAME_TYPE_MAX_STREAM_DATA,
        FrameView::MaxStreams { stream_type, .. } => (FRAME_TYPE_MAX_STREAMS_BIDI
            + spec_stream_type_bit(stream_type)) as u8,
        FrameView::DataBlocked { .. } => FRAME_TYPE_DATA_BLOCKED,
        FrameView::StreamDataBlocked { .. } => FRAME_TYPE_STREAM_DATA_BLOCKED,
        FrameView::StreamsBlocked { stream_type, .. } => (FRAME_TYPE_STREAMS_BLOCKED_BIDI
            + spec_stream_type_bit(stream_type)) as u8,
        FrameView::NewConnectionId { .. } => FRAME_TYPE_NEW_CONNECTION_ID,
        FrameView::RetireConnectionId { .. } => FRAME_TYPE_RETIRE_CONNECTION_ID,
        FrameView::PathChallenge { .. } => FRAME_TYPE_PATH_CHALLENGE,
        FrameView::PathResponse { .. } => FRAME_TYPE_PATH_RESPONSE,
        FrameView::ConnectionClose { close_type, .. } => (FRAME_TYPE_CONNECTION_CLOSE_TRANSPORT
            + spec_close_type_bit(close_type)) as u8,
    }
}

/// The encoding of a list of ACK ranges: gap, then range, each as a
/// variable-length integer.
pub open spec fn spec_ack_ranges_bytes(rs: Seq<AckRange>) -> Seq<u8>
    decreases rs.len(),
{
    if rs.len() == 0 {
        Seq::<u8>::empty()
    } else {
        spec_ack_ranges_bytes(rs.drop_last()) + varint_bytes(rs.last().gap) + varint_bytes(
            rs.last().range,
        )
    }
}

/// `v` fits a variable-length integer.
pub open spec fn varint_ok(v: u64) -> bool {
    v <= VARINT_MAX
}

/// A byte string whose length fits a variable-length integer.
pub open spec fn len_ok(s: Seq<u8>) -> bool {
    s.len() <= VARINT_MAX
}

/// Every integer that `f` writes as a variable-length integer fits one.
pub open spec fn spec_encodable(f: FrameView) -> bool {
    match f {
        FrameView::Padding => true,
        FrameView::Ping => true,
        FrameView::Ack { largest_acknowledged, ack_delay, first_ack_range, ack_ranges } => {
            &&& varint_ok(largest_acknowledged)
            &&& varint_ok(ack_delay)
            &&& varint_ok(first_ack_range)
            &&& ack_ranges.len() <= VARINT_MAX
            &&& forall|i: int|
                0 <= i < ack_ranges.len() ==> varint_ok(#[trigger] ack_ranges[i].gap) && varint_ok(
                    ack_ranges[i].range,
                )
        },
        FrameView::ResetStream { stream_id, final_size, .. } => varint_ok(stream_id) && varint_ok(
            final_size,
        ),
        FrameView::StopSending { .. } => true,
        FrameView::Crypto { offset, data } => varint_ok(offset) && len_ok(data),
        FrameView::NewToken { token } => len_ok(token),
        FrameView::Stream { stream_id, offset, data, .. } => varint_ok(stream_id) && varint_ok(
            offset,
        ) && len_ok(data),
        FrameView::MaxData { maximum_data } => varint_ok(maximum_data),
        FrameView::MaxStreamData { stream_id, maximum_stream_data } => varint_ok(stream_id)
            && varint_ok(maximum_stream_data),
        FrameView::MaxStreams { maximum_streams, .. } => varint_ok(maximum_streams),
        FrameView::DataBlocked { data_limit } => varint_ok(data_limit),
        FrameView::StreamDataBlocked { stream_id, stream_data_limit } => varint_ok(stream_id)
            && varint_ok(stream_data_limit),
        FrameView::StreamsBlocked { stream_limit, .. } => varint_ok(stream_limit),
        FrameView::NewConnectionId { sequence_number, .. } => varint_ok(sequence_number),
        FrameView::RetireConnectionId { sequence_number } => varint_ok(sequence_number),
        FrameView::PathChallenge { .. } => true,
        FrameView::PathResponse { .. } => true,
        FrameView::ConnectionClose { frame_type, reason_phrase, .. } => varint_ok(frame_type)
            && len_ok(reason_phrase),
    }
}

/// The length of `s` as a variable-length integer, then `s` itself.
pub open spec fn spec_vec_and_len(s: Seq<u8>) -> Seq<u8> {
    varint_bytes(s.len() as u64) + s
}

/// What follows the type byte in the encoding of `f`. The length of a
/// connection ID is written in one byte, its low-order byte.
pub open spec fn spec_frame_body(f: FrameView) -> Seq<u8> {
    match f {
        FrameView::Padding => Seq::<u8>::empty(),
        FrameView::Ping => Seq::<u8>::empty(),
        FrameView::Ack { largest_acknowledged, ack_delay, first_ack_range, ack_ranges } =>
            varint_bytes(largest_acknowledged) + varint_bytes(ack_delay) + varint_bytes(
            ack_ranges.len() as u64,
        ) + varint_bytes(first_ack_range) + spec_ack_ranges_bytes(ack_ranges),
        FrameView::ResetStream { stream_id, application_error_code, final_size } =>
            varint_bytes(stream_id) + be_bytes(application_error_code as u64, 2) + varint_bytes(
            final_size,
        ),
        FrameView::StopSending { application_error_code } => be_bytes(
            application_error_code as u64,
            2,
        ),
        FrameView::Crypto { offset, data } => varint_bytes(offset) + spec_vec_and_len(data),
        FrameView::NewToken { token } => spec_vec_and_len(token),
        FrameView::Stream { stream_id, offset, data, .. } => varint_bytes(stream_id) + (if offset
            > 0 {
            varint_bytes(offset)
        } else {
            Seq::<u8>::empty()
        }) + spec_vec_and_len(data),
        FrameView::MaxData { maximum_data } => varint_bytes(maximum_data),
        FrameView::MaxStreamData { stream_id, maximum_stream_data } => varint_bytes(stream_id)
            + varint_bytes(maximum_stream_data),
        FrameView::MaxStreams { maximum_streams, .. } => varint_bytes(maximum_streams),
        FrameView::DataBlocked { data_limit } => varint_bytes(data_limit),
        FrameView::StreamDataBlocked { stream_id, stream_data_limit } => varint_bytes(stream_id)
            + varint_bytes(stream_data_limit),
        FrameView::StreamsBlocked { stream_limit, .. } => varint_bytes(stream_limit),
        FrameView::NewConnectionId { sequence_number, connection_id, stateless_reset_token } =>
            varint_bytes(sequence_number) + be_bytes(connection_id.len() as u64, 1) + connection_id
            + stateless_reset_token,
        FrameView::RetireConnectionId { sequence_number } => varint_bytes(sequence_number),
        FrameView::PathChallenge { data } => data,
        FrameView::PathResponse { data } => data,
        FrameView::ConnectionClose { error_code, frame_type, reason_phrase, .. } => be_bytes(
            error_code as u64,
            2,
        ) + varint_bytes(frame_type) + spec_vec_and_len(reason_phrase),
    }
}

/// The encoding of `f`: its type byte, then its fields.
pub open spec fn spec_frame_bytes(f: FrameView) -> Seq<u8> {
    seq![spec_frame_type(f)] + spec_frame_body(f)
}

impl Frame {
    /// The type byte that starts the encoding of this frame.
    pub fn get_type(&self) -> (t: u8)
        ensures
            t == spec_frame_type(self@),
    {
        match self {
            Frame::Padding => FRAME_TYPE_PADDING,
            Frame::Ping => FRAME_TYPE_PING,
            Frame::Ack { .. } => FRAME_TYPE_ACK,  // We don't do ACK ECN.
            Frame::ResetStream { .. } => FRAME_TYPE_RST_STREAM,
            Frame::StopSending { .. } => FRAME_TYPE_STOP_SENDING,
            Frame::Crypto { .. } => FRAME_TYPE_CRYPTO,
            Frame::NewToken { .. } => FRAME_TYPE_NEW_TOKEN,
            Frame::Stream { fin, offset, .. } => {
                let mut t = FRAME_TYPE_STREAM;
                if *fin {
                    t = t | STREAM_FRAME_BIT_FIN;
                }
                if *offset > 0 {
                    t = t | STREAM_FRAME_BIT_OFF;
                }
                t = t | STREAM_FRAME_BIT_LEN;
                t
            },
            Frame::MaxData { .. } => FRAME_TYPE_MAX_DATA,
            Frame::MaxStreamData { .. } => FRAME_TYPE_MAX_STREAM_DATA,
            Frame::MaxStreams { stream_type, .. } => {
                FRAME_TYPE_MAX_STREAMS_BIDI + stream_type.frame_type_bit()
            },
            Frame::DataBlocked { .. } => FRAME_TYPE_DATA_BLOCKED,
            Frame::StreamDataBlocked { .. } => FRAME_TYPE_STREAM_DATA_BLOCKED,
            Frame::StreamsBlocked { stream_type, .. } => {
                FRAME_TYPE_STREAMS_BLOCKED_BIDI + stream_type.frame_type_bit()
            },
            Frame::NewConnectionId { .. } => FRAME_TYPE_NEW_CONNECTION_ID,
            Frame::RetireConnectionId { .. } => FRAME_TYPE_RETIRE_CONNECTION_ID,
            Frame::PathChallenge { .. } => FRAME_TYPE_PATH_CHALLENGE,
            Frame::PathResponse { .. } => FRAME_TYPE_PATH_RESPONSE,
            Frame::ConnectionClose { close_type, .. } => {
                FRAME_TYPE_CONNECTION_CLOSE_TRANSPORT + close_type.frame_type_bit()
            },
        }
    }
}

/// Appends the encoding of each of `rs` to `d`.
fn encode_ack_ranges(d: &mut Data, rs: &Vec<AckRange>)
    requires
        old(d).wf(),
        forall|j: int|
            0 <= j < rs@.len() ==> varint_ok(#[trigger] rs@[j].gap) && varint_ok(rs@[j].range),
    ensures
        final(d).wf(),
        final(d).pos() == old(d).pos(),
        final(d).bytes() == old(d).bytes() + spec_ack_ranges_bytes(rs@),
{
    let ghost before = d.bytes();
    let mut i: usize = 0;
    while i < rs.len()
        invariant
            i <= rs@.len(),
            d.wf(),
            d.pos() == old(d).pos(),
            forall|j: int|
                0 <= j < rs@.len() ==> varint_ok(#[trigger] rs@[j].gap) && varint_ok(rs@[j].range),
            d.bytes() == before + spec_ack_ranges_bytes(rs@.subrange(0, i as int)),
        decreases rs@.len() - i,
    {
        let r = &rs[i];
        d.encode_varint(r.gap);
        d.encode_varint(r.range);
        assert(rs@.subrange(0, i + 1).drop_last() =~= rs@.subrange(0, i as int));
        i = i + 1;
        assert(d.bytes() =~= before + spec_ack_ranges_bytes(rs@.subrange(0, i as int)));
    }
    assert(rs@.subrange(0, i as int) =~= rs@);
}


/// A decoding result seen as a value.
pub open spec fn res_view(r: Res<Frame>) -> Res<FrameView> {
    match r {
        Ok(f) => Ok(f@),
        Err(e) => Err(e),
    }
}

/// Reading `n` ACK ranges at position `p` of `s`: the ranges, or the first
/// error met, with the position reached.
pub open spec fn spec_read_ack_ranges(s: Seq<u8>, p: nat, n: nat) -> (Res<Seq<AckRange>>, nat)
    decreases n,
{
    if n == 0 {
        (Ok(Seq::<AckRange>::empty()), p)
    } else {
        let (r, q) = spec_read_ack_ranges(s, p, (n - 1) as nat);
        match r {
            Err(e) => (Err(e), q),
            Ok(rs) => match spec_read_varint(s, q) {
                Err(e) => (Err(e), q),
                Ok((gap, q1)) => match spec_read_varint(s, q1) {
                    Err(e) => (Err(e), q1),
                    Ok((range, q2)) => (Ok(rs.push(AckRange { gap, range })), q2),
                },
            },
        }
    }
}

/// Decoding the body of an ACK frame (with ECN counts, read and dropped,
/// when `t` asks for them).
pub open spec fn spec_decode_ack(t: u8, s: Seq<u8>, p: nat) -> (Res<FrameView>, nat) {
    match spec_read_varint(s, p) {
        Err(e) => (Err(e), p),
        Ok((la, p1)) => match spec_read_varint(s, p1) {
            Err(e) => (Err(e), p1),
            Ok((ad, p2)) => match spec_read_varint(s, p2) {
                Err(e) => (Err(e), p2),
                Ok((nr, p3)) => match spec_read_varint(s, p3) {
                    Err(e) => (Err(e), p3),
                    Ok((fa, p4)) => {
                        let (rr, p5) = spec_read_ack_ranges(s, p4, nr as nat);
                        match rr {
                            Err(e) => (Err(e), p5),
                            Ok(rs) => {
                                let f = FrameView::Ack {
                                    largest_acknowledged: la,
                                    ack_delay: ad,
                                    first_ack_range: fa,
                                    ack_ranges: rs,
                                };
                                if t == FRAME_TYPE_ACK_ECN {
                                    match spec_read_varint(s, p5) {
                                        Err(e) => (Err(e), p5),
                                        Ok((_, p6)) => match spec_read_varint(s, p6) {
                                            Err(e) => (Err(e), p6),
                                            Ok((_, p7)) => match spec_read_varint(s, p7) {
                                                Err(e) => (Err(e), p7),
                                                Ok((_, p8)) => (Ok(f), p8),
                                            },
                                        },
                                    }
                                } else {
                                    (Ok(f), p5)
                                }
                            },
                        }
                    },
                },
            },
        },
    }
}

/// Decoding the body of a STREAM frame whose type byte is `t`: the offset is
/// present when the OFF bit is set (zero otherwise), the data runs for the
/// given length when the LEN bit is set, to the end of the buffer otherwise.
pub open spec fn spec_decode_stream(t: u8, s: Seq<u8>, p: nat) -> (Res<FrameView>, nat) {
    match spec_read_varint(s, p) {
        Err(e) => (Err(e), p),
        Ok((sid, p1)) => {
            let (ro, p2) = if (t & STREAM_FRAME_BIT_OFF) != 0 {
                match spec_read_varint(s, p1) {
                    Err(e) => (Err(e), p1),
                    Ok((o, q)) => (Ok(o), q),
                }
            } else {
                (Ok(0u64), p1)
            };
            match ro {
                Err(e) => (Err(e), p2),
                Ok(o) => {
                    let fin = (t & STREAM_FRAME_BIT_FIN) != 0;
                    if (t & STREAM_FRAME_BIT_LEN) != 0 {
                        let (rd, p3) = spec_read_data_and_len(s, p2);
                        match rd {
                            Err(e) => (Err(e), p3),
                            Ok(data) => (
                                Ok(FrameView::Stream { fin, stream_id: sid, offset: o, data }),
                                p3,
                            ),
                        }
                    } else {
                        (
                            Ok(
                                FrameView::Stream {
                                    fin,
                                    stream_id: sid,
                                    offset: o,
                                    data: s.subrange(p2 as int, s.len() as int),
                                },
                            ),
                            s.len(),
                        )
                    }
                },
            }
        },
    }
}

/// Decoding a frame body made of a single variable-length integer.
pub open spec fn spec_decode_one(s: Seq<u8>, p: nat, k: spec_fn(u64) -> FrameView) -> (
    Res<FrameView>,
    nat,
) {
    match spec_read_varint(s, p) {
        Err(e) => (Err(e), p),
        Ok((a, p1)) => (Ok(k(a)), p1),
    }
}

/// Decoding a frame body made of two variable-length integers.
pub open spec fn spec_decode_two(s: Seq<u8>, p: nat, k: spec_fn(u64, u64) -> FrameView) -> (
    Res<FrameView>,
    nat,
) {
    match spec_read_varint(s, p) {
        Err(e) => (Err(e), p),
        Ok((a, p1)) => match spec_read_varint(s, p1) {
            Err(e) => (Err(e), p1),
            Ok((b, p2)) => (Ok(k(a, b)), p2),
        },
    }
}

/// Decoding the body of a frame whose type byte is `t`, starting at `p`:
/// the frame, or the error met, with the position reached.
pub open spec fn spec_decode_body(t: u8, s: Seq<u8>, p: nat) -> (Res<FrameView>, nat) {
    if t == FRAME_TYPE_PADDING {
        (Ok(FrameView::Padding), p)
    } else if t == FRAME_TYPE_PING {
        (Ok(FrameView::Ping), p)
    } else if t == FRAME_TYPE_RST_STREAM {
        match spec_read_varint(s, p) {
            Err(e) => (Err(e), p),
            Ok((sid, p1)) => match spec_read_uint(s, p1, 2) {
                Err(e) => (Err(e), p1),
                Ok((ec, p2)) => match spec_read_varint(s, p2) {
                    Err(e) => (Err(e), p2),
                    Ok((fs, p3)) => (
                        Ok(
                            FrameView::ResetStream {
                                stream_id: sid,
                                application_error_code: ec as u16,
                                final_size: fs,
                            },
                        ),
                        p3,
                    ),
                },
            },
        }
    } else if t == FRAME_TYPE_ACK || t == FRAME_TYPE_ACK_ECN {
        spec_decode_ack(t, s, p)
    } else if t == FRAME_TYPE_STOP_SENDING {
        match spec_read_uint(s, p, 2) {
            Err(e) => (Err(e), p),
            Ok((ec, p1)) => (Ok(FrameView::StopSending { application_error_code: ec as u16 }), p1),
        }
    } else if t == FRAME_TYPE_CRYPTO {
        match spec_read_varint(s, p) {
            Err(e) => (Err(e), p),
            Ok((o, p1)) => {
                let (rd, p2) = spec_read_data_and_len(s, p1);
                match rd {
                    Err(e) => (Err(e), p2),
                    Ok(data) => (Ok(FrameView::Crypto { offset: o, data }), p2),
                }
            },
        }
    } else if t == FRAME_TYPE_NEW_TOKEN {
        let (rd, p1) = spec_read_data_and_len(s, p);
        match rd {
            Err(e) => (Err(e), p1),
            Ok(token) => (Ok(FrameView::NewToken { token }), p1),
        }
    } else if FRAME_TYPE_STREAM <= t <= FRAME_TYPE_STREAM_MAX {
        spec_decode_stream(t, s, p)
    } else if t == FRAME_TYPE_MAX_DATA {
        spec_decode_one(s, p, |a: u64| FrameView::MaxData { maximum_data: a })
    } else if t == FRAME_TYPE_MAX_STREAM_DATA {
        spec_decode_two(
            s,
            p,
            |a: u64, b: u64| FrameView::MaxStreamData { stream_id: a, maximum_stream_data: b },
        )
    } else if t == FRAME_TYPE_MAX_STREAMS_BIDI || t == FRAME_TYPE_MAX_STREAMS_UNIDI {
        spec_decode_one(
            s,
            p,
            |a: u64|
                FrameView::MaxStreams { stream_type: spec_stream_type_of(t), maximum_streams: a },
        )
    } else if t == FRAME_TYPE_DATA_BLOCKED {
        spec_decode_one(s, p, |a: u64| FrameView::DataBlocked { data_limit: a })
    } else if t == FRAME_TYPE_STREAM_DATA_BLOCKED {
        spec_decode_two(
            s,
            p,
            |a: u64, b: u64| FrameView::StreamDataBlocked { stream_id: a, stream_data_limit: b },
        )
    } else if t == FRAME_TYPE_STREAMS_BLOCKED_BIDI || t == FRAME_TYPE_STREAMS_BLOCKED_UNIDI {
        spec_decode_one(
            s,
            p,
            |a: u64| FrameView::StreamsBlocked { stream_type: spec_stream_type_of(t), stream_limit: a },
        )
    } else if t == FRAME_TYPE_NEW_CONNECTION_ID {
        match spec_read_varint(s, p) {
            Err(e) => (Err(e), p),
            Ok((sn, p1)) => match spec_read_uint(s, p1, 1) {
                Err(e) => (Err(e), p1),
                Ok((l, p2)) => match spec_read_data(s, p2, l as nat) {
                    Err(e) => (Err(e), p2),
                    Ok((cid, p3)) => match spec_read_data(s, p3, 16) {
                        Err(e) => (Err(e), p3),
                        Ok((srt, p4)) => (
                            Ok(
                                FrameView::NewConnectionId {
                                    sequence_number: sn,
                                    connection_id: cid,
                                    stateless_reset_token: srt,
                                },
                            ),
                            p4,
                        ),
                    },
                },
            },
        }
    } else if t == FRAME_TYPE_RETIRE_CONNECTION_ID {
        spec_decode_one(s, p, |a: u64| FrameView::RetireConnectionId { sequence_number: a })
    } else if t == FRAME_TYPE_PATH_CHALLENGE {
        match spec_read_data(s, p, 8) {
            Err(e) => (Err(e), p),
            Ok((data, p1)) => (Ok(FrameView::PathChallenge { data }), p1),
        }
    } else if t == FRAME_TYPE_PATH_RESPONSE {
        match spec_read_data(s, p, 8) {
            Err(e) => (Err(e), p),
            Ok((data, p1)) => (Ok(FrameView::PathResponse { data }), p1),
        }
    } else if t == FRAME_TYPE_CONNECTION_CLOSE_TRANSPORT || t
        == FRAME_TYPE_CONNECTION_CLOSE_APPLICATION {
        match spec_read_uint(s, p, 2) {
            Err(e) => (Err(e), p),
            Ok((ec, p1)) => match spec_read_varint(s, p1) {
                Err(e) => (Err(e), p1),
                Ok((ft, p2)) => {
                    let (rd, p3) = spec_read_data_and_len(s, p2);
                    match rd {
                        Err(e) => (Err(e), p3),
                        Ok(reason) => (
                            Ok(
                                FrameView::ConnectionClose {
                                    close_type: spec_close_type_of(t),
                                    error_code: ec as u16,
                                    frame_type: ft,
                                    reason_phrase: reason,
                                },
                            ),
                            p3,
                        ),
                    }
                },
            },
        }
    } else {
        (Err(Error::ErrUnknownFrameType), p)
    }
}

/// Decoding a frame at position `p` of `s`: the frame, or the error met,
/// with the position reached.
pub open spec fn spec_decode_frame(s: Seq<u8>, p: nat) -> (Res<FrameView>, nat) {
    match spec_read_byte(s, p) {
        Err(e) => (Err(e), p),
        Ok((t, q)) => spec_decode_body(t, s, q),
    }
}


/// Once reading ACK ranges has failed, reading more of them fails the same way.
pub proof fn lemma_ack_ranges_error_persists(s: Seq<u8>, p: nat, n: nat, m: nat)
    requires
        n <= m,
        spec_read_ack_ranges(s, p, n).0 is Err,
    ensures
        spec_read_ack_ranges(s, p, m) == spec_read_ack_ranges(s, p, n),
    decreases m - n,
{
    if n < m {
        lemma_ack_ranges_error_persists(s, p, n, (m - 1) as nat);
    }
}

/// Decodes the body of an ACK frame whose type byte is `t`.
fn decode_ack(t: u8, d: &mut Data) -> (r: Res<Frame>)
    requires
        old(d).wf(),
    ensures
        final(d).wf(),
        final(d).bytes() == old(d).bytes(),
        spec_decode_ack(t, old(d).bytes(), old(d).pos()) == (res_view(r), final(d).pos()),
{
    let ghost s = d.bytes();
    let la = d.decode_varint()?;
    let ghost p1 = d.pos();
    let ad = d.decode_varint()?;
    let ghost p2 = d.pos();
    let nr = d.decode_varint()?;
    let ghost p3 = d.pos();
    let fa = d.decode_varint()?;
    let ghost p4 = d.pos();
    let mut arr: Vec<AckRange> = Vec::new();
    let mut i: u64 = 0;
    while i < nr
        invariant
            d.wf(),
            d.bytes() == s,
            s == old(d).bytes(),
            spec_read_varint(s, old(d).pos()) == Ok::<(u64, nat), Error>((la, p1)),
            spec_read_varint(s, p1) == Ok::<(u64, nat), Error>((ad, p2)),
            spec_read_varint(s, p2) == Ok::<(u64, nat), Error>((nr, p3)),
            spec_read_varint(s, p3) == Ok::<(u64, nat), Error>((fa, p4)),
            i <= nr,
            spec_read_ack_ranges(s, p4, i as nat) == (Ok::<Seq<AckRange>, Error>(arr@), d.pos()),
        decreases nr - i,
    {
        let gap = match d.decode_varint() {
            Ok(g) => g,
            Err(e) => {
                proof {
                    lemma_ack_ranges_error_persists(s, p4, (i + 1) as nat, nr as nat);
                }
                return Err(e);
            },
        };
        let range = match d.decode_varint() {
            Ok(g) => g,
            Err(e) => {
                proof {
                    lemma_ack_ranges_error_persists(s, p4, (i + 1) as nat, nr as nat);
                }
                return Err(e);
            },
        };
        arr.push(AckRange { gap, range });
        i = i + 1;
    }
    // Now check for the values for ACK_ECN.
    if t == FRAME_TYPE_ACK_ECN {
        d.decode_varint()?;
        d.decode_varint()?;
        d.decode_varint()?;
    }
    Ok(Frame::Ack { largest_acknowledged: la, ack_delay: ad, first_ack_range: fa, ack_ranges: arr })
}

/// Decodes the body of a STREAM frame whose type byte is `t`.
fn decode_stream(t: u8, d: &mut Data) -> (r: Res<Frame>)
    requires
        old(d).wf(),
    ensures
        final(d).wf(),
        final(d).bytes() == old(d).bytes(),
        spec_decode_stream(t, old(d).bytes(), old(d).pos()) == (res_view(r), final(d).pos()),
{
    let s = d.decode_varint()?;
    let mut o: u64 = 0;
    if (t & STREAM_FRAME_BIT_OFF) != 0 {
        o = d.decode_varint()?;
    }
    let data: Vec<u8>;
    if (t & STREAM_FRAME_BIT_LEN) != 0 {
        data = d.decode_data_and_len()?;
    } else {
        data = d.decode_remainder()?;
    }
    Ok(Frame::Stream { fin: (t & STREAM_FRAME_BIT_FIN) != 0, stream_id: s, offset: o, data: data })
}

/// Decodes the body of a NEW_CONNECTION_ID frame.
fn decode_new_connection_id(d: &mut Data) -> (r: Res<Frame>)
    requires
        old(d).wf(),
    ensures
        final(d).wf(),
        final(d).bytes() == old(d).bytes(),
        spec_decode_body(FRAME_TYPE_NEW_CONNECTION_ID, old(d).bytes(), old(d).pos()) == (
            res_view(r),
            final(d).pos(),
        ),
{
    let ghost s0 = d.bytes();
    let s = d.decode_varint()?;
    let ghost p1 = d.pos();
    let l = d.decode_uint(1)?;
    proof {
        lemma_be_value_single(s0.subrange(p1 as int, (p1 + 1) as int));
    }
    let cid = d.decode_data(l as usize)?;
    let srt = d.decode_data(16)?;
    let srtv: [u8; 16] = [
        srt[0],
        srt[1],
        srt[2],
        srt[3],
        srt[4],
        srt[5],
        srt[6],
        srt[7],
        srt[8],
        srt[9],
        srt[10],
        srt[11],
        srt[12],
        srt[13],
        srt[14],
        srt[15],
    ];
    assert(srtv@ =~= srt@);
    Ok(Frame::NewConnectionId { sequence_number: s, connection_id: cid, stateless_reset_token: srtv })
}

/// Decodes eight bytes of path-validation data.
fn decode_path_data(d: &mut Data) -> (r: Res<[u8; 8]>)
    requires
        old(d).wf(),
    ensures
        final(d).wf(),
        final(d).bytes() == old(d).bytes(),
        spec_read_data(old(d).bytes(), old(d).pos(), 8) == match r {
            Ok(v) => Ok::<(Seq<u8>, nat), Error>((v@, final(d).pos())),
            Err(e) => Err(e),
        },
        r is Err ==> final(d).pos() == old(d).pos(),
{
    let data = d.decode_data(8)?;
    let datav: [u8; 8] = [data[0], data[1], data[2], data[3], data[4], data[5], data[6], data[7]];
    assert(datav@ =~= data@);
    Ok(datav)
}

/// Decodes the body of a CONNECTION_CLOSE frame whose type byte is `t`.
fn decode_connection_close(t: u8, d: &mut Data) -> (r: Res<Frame>)
    requires
        old(d).wf(),
        t == FRAME_TYPE_CONNECTION_CLOSE_TRANSPORT || t == FRAME_TYPE_CONNECTION_CLOSE_APPLICATION,
    ensures
        final(d).wf(),
        final(d).bytes() == old(d).bytes(),
        spec_decode_body(t, old(d).bytes(), old(d).pos()) == (res_view(r), final(d).pos()),
{
    let close_type = CloseType::from_type_bit(t);
    let error_code = d.decode_uint(2)? as u16;
    let frame_type = d.decode_varint()?;
    let reason_phrase = d.decode_data_and_len()?;
    Ok(Frame::ConnectionClose { close_type, error_code, frame_type, reason_phrase })
}

/// Decodes one frame from `d`, starting at its cursor.
pub fn decode_frame(d: &mut Data) -> (r: Res<Frame>)
    requires
        old(d).wf(),
    ensures
        final(d).wf(),
        final(d).bytes() == old(d).bytes(),
        spec_decode_frame(old(d).bytes(), old(d).pos()) == (res_view(r), final(d).pos()),
{
    let t = d.decode_byte()?;
    match t {
        FRAME_TYPE_PADDING => Ok(Frame::Padding),
        FRAME_TYPE_PING => Ok(Frame::Ping),
        FRAME_TYPE_RST_STREAM => {
            let stream_id = d.decode_varint()?;
            let application_error_code = d.decode_uint(2)? as u16;
            let final_size = d.decode_varint()?;
            Ok(Frame::ResetStream { stream_id, application_error_code, final_size })
        },
        FRAME_TYPE_ACK | FRAME_TYPE_ACK_ECN => decode_ack(t, d),
        FRAME_TYPE_STOP_SENDING => {
            let application_error_code = d.decode_uint(2)? as u16;
            Ok(Frame::StopSending { application_error_code })
        },
        FRAME_TYPE_CRYPTO => {
            let o = d.decode_varint()?;
            let data = d.decode_data_and_len()?;
            Ok(Frame::Crypto { offset: o, data })
        },
        FRAME_TYPE_NEW_TOKEN => {
            let token = d.decode_data_and_len()?;
            Ok(Frame::NewToken { token })
        },
        FRAME_TYPE_STREAM..=FRAME_TYPE_STREAM_MAX => decode_stream(t, d),
        FRAME_TYPE_MAX_DATA => Ok(Frame::MaxData { maximum_data: d.decode_varint()? }),
        FRAME_TYPE_MAX_STREAM_DATA => {
            let stream_id = d.decode_varint()?;
            let maximum_stream_data = d.decode_varint()?;
            Ok(Frame::MaxStreamData { stream_id, maximum_stream_data })
        },
        FRAME_TYPE_MAX_STREAMS_BIDI | FRAME_TYPE_MAX_STREAMS_UNIDI => {
            let stream_type = StreamType::from_type_bit(t);
            let maximum_streams = d.decode_varint()?;
            Ok(Frame::MaxStreams { stream_type, maximum_streams })
        },
        FRAME_TYPE_DATA_BLOCKED => Ok(Frame::DataBlocked { data_limit: d.decode_varint()? }),
        FRAME_TYPE_STREAM_DATA_BLOCKED => {
            let stream_id = d.decode_varint()?;
            let stream_data_limit = d.decode_varint()?;
            Ok(Frame::StreamDataBlocked { stream_id, stream_data_limit })
        },
        FRAME_TYPE_STREAMS_BLOCKED_BIDI | FRAME_TYPE_STREAMS_BLOCKED_UNIDI => {
            let stream_type = StreamType::from_type_bit(t);
            let stream_limit = d.decode_varint()?;
            Ok(Frame::StreamsBlocked { stream_type, stream_limit })
        },
        FRAME_TYPE_NEW_CONNECTION_ID => decode_new_connection_id(d),
        FRAME_TYPE_RETIRE_CONNECTION_ID => Ok(
            Frame::RetireConnectionId { sequence_number: d.decode_varint()? },
        ),
        FRAME_TYPE_PATH_CHALLENGE => Ok(Frame::PathChallenge { data: decode_path_data(d)? }),
        FRAME_TYPE_PATH_RESPONSE => Ok(Frame::PathResponse { data: decode_path_data(d)? }),
        FRAME_TYPE_CONNECTION_CLOSE_TRANSPORT | FRAME_TYPE_CONNECTION_CLOSE_APPLICATION => {
            decode_connection_close(t, d)
        },
        _ => Err(Error::ErrUnknownFrameType),
    }
}

impl Frame {
    /// Appends the encoding of this frame to `d`.
    #[verifier::rlimit(20)]
    pub fn marshal(&self, d: &mut Data) -> (r: Res<()>)
        requires
            old(d).wf(),
            spec_encodable(self@),
        ensures
            r is Ok,
            final(d).wf(),
            final(d).pos() == old(d).pos(),
            final(d).bytes() == old(d).bytes() + spec_frame_bytes(self@),
    {
        d.encode_byte(self.get_type());
        let ghost start = d.bytes();
        match self {
            Frame::Padding => {
                assert(d.bytes() =~= start + spec_frame_body(self@));
            },
            Frame::Ping => {
                assert(d.bytes() =~= start + spec_frame_body(self@));
            },
            Frame::Ack { largest_acknowledged, ack_delay, first_ack_range, ack_ranges } => {
                d.encode_varint(*largest_acknowledged);
                d.encode_varint(*ack_delay);
                d.encode_varint(ack_ranges.len() as u64);
                d.encode_varint(*first_ack_range);
                encode_ack_ranges(d, ack_ranges);
                assert(d.bytes() =~= start + spec_frame_body(self@));
            },
            Frame::ResetStream { stream_id, application_error_code, final_size } => {
                d.encode_varint(*stream_id);
                d.encode_uint(*application_error_code as u64, 2);
                d.encode_varint(*final_size);
                assert(d.bytes() =~= start + spec_frame_body(self@));
            },
            Frame::StopSending { application_error_code } => {
                d.encode_uint(*application_error_code as u64, 2);
                assert(d.bytes() =~= start + spec_frame_body(self@));
            },
            Frame::Crypto { offset, data } => {
                d.encode_varint(*offset);
                d.encode_vec_and_len(data.as_slice());
                assert(d.bytes() =~= start + spec_frame_body(self@));
            },
            Frame::NewToken { token } => {
                d.encode_vec_and_len(token.as_slice());
                assert(d.bytes() =~= start + spec_frame_body(self@));
            },
            Frame::Stream { stream_id, offset, data, .. } => {
                d.encode_varint(*stream_id);
                if *offset > 0 {
                    d.encode_varint(*offset);
                }
                d.encode_vec_and_len(data.as_slice());
                assert(d.bytes() =~= start + spec_frame_body(self@));
            },
            Frame::MaxData { maximum_data } => {
                d.encode_varint(*maximum_data);
                assert(d.bytes() =~= start + spec_frame_body(self@));
            },
            Frame::MaxStreamData { stream_id, maximum_stream_data } => {
                d.encode_varint(*stream_id);
                d.encode_varint(*maximum_stream_data);
                assert(d.bytes() =~= start + spec_frame_body(self@));
            },
            Frame::MaxStreams { maximum_streams, .. } => {
                d.encode_varint(*maximum_streams);
                assert(d.bytes() =~= start + spec_frame_body(self@));
            },
            Frame::DataBlocked { data_limit } => {
                d.encode_varint(*data_limit);
                assert(d.bytes() =~= start + spec_frame_body(self@));
            },
            Frame::StreamDataBlocked { stream_id, stream_data_limit } => {
                d.encode_varint(*stream_id);
                d.encode_varint(*stream_data_limit);
                assert(d.bytes() =~= start + spec_frame_body(self@));
            },
            Frame::StreamsBlocked { stream_limit, .. } => {
                d.encode_varint(*stream_limit);
                assert(d.bytes() =~= start + spec_frame_body(self@));
            },
            Frame::NewConnectionId { sequence_number, connection_id, stateless_reset_token } => {
                d.encode_varint(*sequence_number);
                d.encode_uint(connection_id.len() as u64, 1);
                d.encode_vec(connection_id.as_slice());
                d.encode_vec(stateless_reset_token.as_slice());
                assert(d.bytes() =~= start + spec_frame_body(self@));
            },
            Frame::RetireConnectionId { sequence_number } => {
                d.encode_varint(*sequence_number);
                assert(d.bytes() =~= start + spec_frame_body(self@));
            },
            Frame::PathChallenge { data } => {
                d.encode_vec(data.as_slice());
                assert(d.bytes() =~= start + spec_frame_body(self@));
            },
            Frame::PathResponse { data } => {
                d.encode_vec(data.as_slice());
                assert(d.bytes() =~= start + spec_frame_body(self@));
            },
            Frame::ConnectionClose { error_code, frame_type, reason_phrase, .. } => {
                d.encode_uint(*error_code as u64, 2);
                d.encode_varint(*frame_type);
                d.encode_vec_and_len(reason_phrase.as_slice());
                assert(d.bytes() =~= start + spec_frame_body(self@));
            },
        }
        assert(d.bytes() =~= start + spec_frame_body(self@));
        assert(d.bytes() =~= old(d).bytes() + spec_frame_bytes(self@));
        Ok(())
    }
}

} // verus!
