use quarta::data::{Data, Error, VARINT_MAX};
use quarta::frame::{decode_frame, AckRange, CloseType, Frame, StreamType};

fn varint_hex(v: u64) -> Data {
    let mut d = Data::default();
    d.encode_varint(v);
    d
}

#[test]
fn varint_encodings_take_the_shortest_length() {
    assert_eq!(varint_hex(0), Data::from_hex("00"));
    assert_eq!(varint_hex(0x3f), Data::from_hex("3f"));
    assert_eq!(varint_hex(0x40), Data::from_hex("4040"));
    assert_eq!(varint_hex(0x3fff), Data::from_hex("7fff"));
    assert_eq!(varint_hex(0x4000), Data::from_hex("80004000"));
    assert_eq!(varint_hex(0x3fff_ffff), Data::from_hex("bfffffff"));
    assert_eq!(varint_hex(0x4000_0000), Data::from_hex("c000000040000000"));
    assert_eq!(varint_hex(VARINT_MAX), Data::from_hex("ffffffffffffffff"));
}

#[test]
fn varints_read_back_as_written() {
    for v in [0u64, 1, 0x3f, 0x40, 0x1234, 0x3fff, 0x4000, 0x12345678, 0x3fff_ffff, 0x4000_0000,
        0x1234_5678_9abc, VARINT_MAX]
    {
        let mut d = varint_hex(v);
        assert_eq!(d.decode_varint(), Ok(v));
        assert_eq!(d.remaining(), 0);
    }
}

#[test]
fn varint_reading_ignores_non_minimal_encodings() {
    let mut d = Data::from_hex("4005");
    assert_eq!(d.decode_varint(), Ok(5));
    let mut d = Data::from_hex("80000005ff");
    assert_eq!(d.decode_varint(), Ok(5));
    assert_eq!(d.remaining(), 1);
}

#[test]
fn truncated_varint_fails_without_moving() {
    let mut d = Data::from_hex("52");
    assert_eq!(d.decode_varint(), Err(Error::ErrNoMoreData));
    assert_eq!(d.remaining(), 1);
    let mut d = Data::default();
    assert_eq!(d.decode_varint(), Err(Error::ErrNoMoreData));
}

#[test]
fn uints_are_big_endian() {
    let mut d = Data::default();
    d.encode_uint(0x123456, 3);
    d.encode_uint(0x1ff, 1);
    assert_eq!(d, Data::from_hex("123456ff"));
    assert_eq!(d.decode_uint(3), Ok(0x123456));
    assert_eq!(d.decode_uint(2), Err(Error::ErrNoMoreData));
    assert_eq!(d.decode_uint(1), Ok(0xff));
    assert_eq!(d.decode_byte(), Err(Error::ErrNoMoreData));
}

#[test]
fn from_hex_takes_either_case() {
    assert_eq!(Data::from_hex("ABcd09"), Data::from_slice(&[0xab, 0xcd, 0x09]));
    assert_eq!(Data::from_hex(""), Data::default());
}

#[test]
fn data_reads_and_remainder() {
    let mut d = Data::from_hex("03010203ff");
    assert_eq!(d.decode_data_and_len(), Ok(vec![1, 2, 3]));
    assert_eq!(d.remaining(), 1);
    assert_eq!(d.decode_data(2), Err(Error::ErrNoMoreData));
    assert_eq!(d.decode_remainder(), Ok(vec![0xff]));
    assert_eq!(d.remaining(), 0);
    assert_eq!(d.decode_remainder(), Ok(vec![]));
}

#[test]
fn data_and_len_keeps_the_length_read_on_failure() {
    let mut d = Data::from_hex("050102");
    assert_eq!(d.decode_data_and_len(), Err(Error::ErrNoMoreData));
    assert_eq!(d.remaining(), 2);
}

#[test]
fn encode_vec_and_len_prefixes_the_length() {
    let mut d = Data::default();
    d.encode_byte(0xaa);
    d.encode_vec_and_len(&[1, 2]);
    d.encode_vec(&[3]);
    assert_eq!(d, Data::from_hex("aa02010203"));
}

#[test]
fn type_bits_read_back() {
    assert_eq!(StreamType::from_type_bit(StreamType::BiDi.frame_type_bit()), StreamType::BiDi);
    assert_eq!(StreamType::from_type_bit(StreamType::UniDi.frame_type_bit()), StreamType::UniDi);
    assert_eq!(CloseType::from_type_bit(CloseType::Transport.frame_type_bit()), CloseType::Transport);
    assert_eq!(
        CloseType::from_type_bit(CloseType::Application.frame_type_bit()),
        CloseType::Application
    );
    assert_eq!(StreamType::from_type_bit(0x13), StreamType::UniDi);
    assert_eq!(CloseType::from_type_bit(0x1c), CloseType::Transport);
}

#[test]
fn stream_type_byte() {
    let f = Frame::Stream { fin: true, stream_id: 0, offset: 0, data: vec![] };
    assert_eq!(f.get_type(), 0x0b);
    let f = Frame::Stream { fin: false, stream_id: 0, offset: 7, data: vec![] };
    assert_eq!(f.get_type(), 0x0e);
    let f = Frame::ConnectionClose {
        close_type: CloseType::Application,
        error_code: 0,
        frame_type: 0,
        reason_phrase: vec![],
    };
    assert_eq!(f.get_type(), 0x1d);
}

#[test]
fn unknown_frame_type_is_refused() {
    let mut d = Data::from_hex("1e00");
    assert_eq!(decode_frame(&mut d), Err(Error::ErrUnknownFrameType));
    assert_eq!(d.remaining(), 1);
    let mut d = Data::from_hex("ff");
    assert_eq!(decode_frame(&mut d), Err(Error::ErrUnknownFrameType));
}

#[test]
fn empty_buffer_has_no_frame() {
    let mut d = Data::default();
    assert_eq!(decode_frame(&mut d), Err(Error::ErrNoMoreData));
}

#[test]
fn failed_decode_stops_after_the_fields_read() {
    // RESET_STREAM whose error code is cut short: type and stream id are read.
    let mut d = Data::from_hex("04523400");
    assert_eq!(decode_frame(&mut d), Err(Error::ErrNoMoreData));
    assert_eq!(d.remaining(), 1);

    // CONNECTION_CLOSE whose reason claims five bytes but has three.
    let mut d = Data::from_hex("1c5678523405010203");
    assert_eq!(decode_frame(&mut d), Err(Error::ErrNoMoreData));
    assert_eq!(d.remaining(), 3);

    // ACK announcing two ranges but carrying one.
    let mut d = Data::from_hex("020101020103040540");
    assert_eq!(decode_frame(&mut d), Err(Error::ErrNoMoreData));
    assert_eq!(d.remaining(), 1);
}

#[test]
fn stream_without_length_takes_the_rest() {
    let mut d = Data::from_hex("0d05010203");
    assert_eq!(
        decode_frame(&mut d),
        Ok(Frame::Stream { fin: true, stream_id: 5, offset: 1, data: vec![2, 3] })
    );
    assert_eq!(d.remaining(), 0);
}

#[test]
fn frames_decode_one_after_another() {
    let frames = vec![
        Frame::Ping,
        Frame::Ack {
            largest_acknowledged: 0x4000_0000,
            ack_delay: 0,
            first_ack_range: 0x3fff,
            ack_ranges: vec![AckRange { gap: 0x40, range: 7 }],
        },
        Frame::NewConnectionId {
            sequence_number: 1,
            connection_id: vec![0xaa; 20],
            stateless_reset_token: [1; 16],
        },
        Frame::Stream { fin: false, stream_id: 3, offset: 0x12345, data: vec![4; 70] },
        Frame::PathResponse { data: [7; 8] },
    ];
    let mut d = Data::default();
    for f in frames.iter() {
        assert_eq!(f.marshal(&mut d), Ok(()));
    }
    for f in frames.iter() {
        assert_eq!(decode_frame(&mut d).as_ref(), Ok(f));
    }
    assert_eq!(d.remaining(), 0);
    assert_eq!(decode_frame(&mut d), Err(Error::ErrNoMoreData));
}

#[test]
fn long_connection_id_length_is_cut_to_one_byte() {
    let f = Frame::NewConnectionId {
        sequence_number: 0,
        connection_id: vec![0; 256],
        stateless_reset_token: [0; 16],
    };
    let mut d = Data::default();
    f.marshal(&mut d).unwrap();
    assert_eq!(d.remaining(), 1 + 1 + 1 + 256 + 16);
    // The length byte holds 0, so the decoded frame differs.
    assert_ne!(decode_frame(&mut d), Ok(f));
}
