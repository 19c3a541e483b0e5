use quarta::data::{Data, Error};
use quarta::frame::{decode_frame, AckRange, CloseType, Frame, StreamType};

fn enc_dec(f: &Frame, s: &str) {
    let mut d = Data::default();

    f.marshal(&mut d).unwrap();
    assert_eq!(d, Data::from_hex(s));

    let f2 = decode_frame(&mut d).unwrap();
    assert_eq!(*f, f2);
}

#[test]
fn test_padding_frame() {
    let f = Frame::Padding;
    enc_dec(&f, "00");
}

#[test]
fn test_ping_frame() {
    let f = Frame::Ping;
    enc_dec(&f, "01");
}

#[test]
fn test_ack() {
    let ar = vec![AckRange { gap: 1, range: 2 }, AckRange { gap: 3, range: 4 }];

    let f = Frame::Ack {
        largest_acknowledged: 0x1234,
        ack_delay: 0x1235,
        first_ack_range: 0x1236,
        ack_ranges: ar,
    };

    enc_dec(&f, "025234523502523601020304");

    // Try to parse ACK_ECN without ECN values
    let mut d1 = Data::from_hex("035234523502523601020304");
    assert_eq!(decode_frame(&mut d1).unwrap_err(), Error::ErrNoMoreData);

    // Try to parse ACK_ECN without ECN values
    d1 = Data::from_hex("035234523502523601020304010203");
    assert_eq!(decode_frame(&mut d1).unwrap(), f);
}

#[test]
fn test_reset_stream() {
    let f = Frame::ResetStream {
        stream_id: 0x1234,
        application_error_code: 0x77,
        final_size: 0x3456,
    };

    enc_dec(&f, "04523400777456");
}

#[test]
fn test_stop_sending() {
    let f = Frame::StopSending {
        application_error_code: 0x77,
    };

    enc_dec(&f, "050077")
}

#[test]
fn test_crypto() {
    let f = Frame::Crypto {
        offset: 1,
        data: vec![1, 2, 3],
    };

    enc_dec(&f, "060103010203");
}

#[test]
fn test_new_token() {
    let f = Frame::NewToken {
        token: vec![0x12, 0x34, 0x56],
    };

    enc_dec(&f, "0703123456");
}

#[test]
fn test_stream() {
    // First, just set the length bit.
    let mut f = Frame::Stream {
        fin: false,
        stream_id: 5,
        offset: 0,
        data: vec![1, 2, 3],
    };

    enc_dec(&f, "0a0503010203");

    // Now verify that we can parse without the length
    // bit, because we never generate this.
    let mut d1 = Data::from_hex("0805010203");
    let f2 = decode_frame(&mut d1).unwrap();
    assert_eq!(f, f2);

    // Now with offset != 0 and FIN
    f = Frame::Stream {
        fin: true,
        stream_id: 5,
        offset: 1,
        data: vec![1, 2, 3],
    };
    enc_dec(&f, "0f050103010203");
}

#[test]
fn test_max_data() {
    let f = Frame::MaxData {
        maximum_data: 0x1234,
    };

    enc_dec(&f, "105234");
}

#[test]
fn test_max_stream_data() {
    let f = Frame::MaxStreamData {
        stream_id: 5,
        maximum_stream_data: 0x1234,
    };

    enc_dec(&f, "11055234");
}

#[test]
fn test_max_streams() {
    let mut f = Frame::MaxStreams {
        stream_type: StreamType::BiDi,
        maximum_streams: 0x1234,
    };

    enc_dec(&f, "125234");

    f = Frame::MaxStreams {
        stream_type: StreamType::UniDi,
        maximum_streams: 0x1234,
    };

    enc_dec(&f, "135234");
}

#[test]
fn test_data_blocked() {
    let f = Frame::DataBlocked { data_limit: 0x1234 };

    enc_dec(&f, "145234");
}

#[test]
fn test_stream_data_blocked() {
    let f = Frame::StreamDataBlocked {
        stream_id: 5,
        stream_data_limit: 0x1234,
    };

    enc_dec(&f, "15055234");
}

#[test]
fn test_streams_blocked() {
    let mut f = Frame::StreamsBlocked {
        stream_type: StreamType::BiDi,
        stream_limit: 0x1234,
    };

    enc_dec(&f, "165234");

    f = Frame::StreamsBlocked {
        stream_type: StreamType::UniDi,
        stream_limit: 0x1234,
    };

    enc_dec(&f, "175234");
}

#[test]
fn test_new_connection_id() {
    let f = Frame::NewConnectionId {
        sequence_number: 0x1234,
        connection_id: vec![0x01, 0x02],
        stateless_reset_token: [9; 16],
    };

    enc_dec(&f, "18523402010209090909090909090909090909090909");
}

#[test]
fn test_retire_connection_id() {
    let f = Frame::RetireConnectionId {
        sequence_number: 0x1234,
    };

    enc_dec(&f, "195234");
}

#[test]
fn test_path_challenge() {
    let f = Frame::PathChallenge { data: [9; 8] };

    enc_dec(&f, "1a0909090909090909");
}

#[test]
fn test_path_response() {
    let f = Frame::PathResponse { data: [9; 8] };

    enc_dec(&f, "1b0909090909090909");
}

#[test]
fn test_connection_close() {
    let mut f = Frame::ConnectionClose {
        close_type: CloseType::Transport,
        error_code: 0x5678,
        frame_type: 0x1234,
        reason_phrase: vec![0x01, 0x02, 0x03],
    };

    enc_dec(&f, "1c5678523403010203");

    f = Frame::ConnectionClose {
        close_type: CloseType::Application,
        error_code: 0x5678,
        frame_type: 0x1234,
        reason_phrase: vec![0x01, 0x02, 0x03],
    };

    enc_dec(&f, "1d5678523403010203");
}

#[test]
fn test_compare() {
    let f1 = Frame::Padding;
    let f2 = Frame::Padding;
    let f3 = Frame::Crypto {
        offset: 0,
        data: vec![1, 2, 3],
    };
    let f4 = Frame::Crypto {
        offset: 0,
        data: vec![1, 2, 3],
    };
    let f5 = Frame::Crypto {
        offset: 1,
        data: vec![1, 2, 3],
    };
    let f6 = Frame::Crypto {
        offset: 0,
        data: vec![1, 2, 4],
    };

    assert_eq!(f1, f2);
    assert_ne!(f1, f3);
    assert_eq!(f3, f4);
    assert_ne!(f3, f5);
    assert_ne!(f3, f6);
}
