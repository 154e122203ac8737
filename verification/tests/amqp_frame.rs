//! Frames told apart on the wire.

use crucible::amqp::frame::{decode, Frame, Kind, FRAME_END};

/// A frame of `ty` on `channel` carrying `payload`.
fn frame(ty: u8, channel: u16, payload: &[u8]) -> Vec<u8> {
    let mut bytes = vec![ty];
    bytes.extend_from_slice(&channel.to_be_bytes());
    bytes.extend_from_slice(
        &u32::try_from(payload.len())
            .expect("a test payload")
            .to_be_bytes(),
    );
    bytes.extend_from_slice(payload);
    bytes.push(FRAME_END);
    bytes
}

/// The payload of a method frame naming `class` and `method`.
fn method(class: u16, method: u16) -> Vec<u8> {
    let mut payload = class.to_be_bytes().to_vec();
    payload.extend_from_slice(&method.to_be_bytes());
    payload
}

#[test]
fn a_method_frame_names_its_class_and_method() {
    let bytes = frame(1, 1, &method(60, 40));
    let decoded = decode(&bytes);
    assert_eq!(decoded.consumed, bytes.len());
    assert_eq!(
        decoded.frames,
        [Frame {
            kind: Kind::Method {
                class: 60,
                method: 40
            },
            channel: 1,
            at: 0..bytes.len(),
            body_size: None,
        }]
    );
}

#[test]
fn frame_types_are_told_apart() {
    for (ty, expected) in [
        (2u8, Kind::Header),
        (3, Kind::Body),
        (8, Kind::Heartbeat),
        (9, Kind::Other(9)),
    ] {
        let decoded = decode(&frame(ty, 0, b"x"));
        assert_eq!(decoded.frames[0].kind, expected, "frame type {ty}");
    }
}

#[test]
fn a_method_frame_too_short_to_name_one_is_carried_through() {
    for truncated in 0..4 {
        let decoded = decode(&frame(1, 1, &method(60, 40)[..truncated]));
        assert_eq!(decoded.frames[0].kind, Kind::Other(1), "{truncated} bytes");
    }
}

#[test]
fn a_content_header_states_how_much_body_follows() {
    let mut payload = vec![0, 60, 0, 0];
    payload.extend_from_slice(&4_096u64.to_be_bytes());
    payload.extend_from_slice(&[0, 0]);
    let decoded = decode(&frame(2, 1, &payload));
    assert_eq!(decoded.frames[0].body_size, Some(4_096));
}

#[test]
fn only_a_content_header_states_a_body_size() {
    let decoded = decode(&frame(1, 1, &method(60, 40)));
    assert_eq!(decoded.frames[0].body_size, None);
}

#[test]
fn several_frames_in_one_read_are_all_decoded() {
    let mut bytes = frame(1, 1, &method(60, 40));
    bytes.extend(frame(2, 1, b"header"));
    bytes.extend(frame(3, 1, b"body"));
    let decoded = decode(&bytes);
    assert_eq!(decoded.consumed, bytes.len());
    assert_eq!(decoded.frames.len(), 3);
}

/// A frame can arrive across several reads, so what is not yet whole is
/// left where it is rather than guessed at.
#[test]
fn a_frame_still_arriving_is_not_decoded() {
    let whole = frame(1, 1, &method(60, 40));
    for split in 1..whole.len() {
        let decoded = decode(&whole[..split]);
        assert_eq!(decoded.frames, [], "a frame cut at {split} is not a frame");
        assert_eq!(decoded.consumed, 0);
    }
}

#[test]
fn a_whole_frame_is_decoded_and_a_partial_one_left_behind() {
    let mut bytes = frame(1, 1, &method(60, 40));
    let whole = bytes.len();
    bytes.extend(&frame(3, 1, b"body")[..3]);
    let decoded = decode(&bytes);
    assert_eq!(decoded.frames.len(), 1);
    assert_eq!(decoded.consumed, whole, "the partial frame is left");
}

#[test]
fn the_opening_handshake_is_carried_through() {
    let bytes = b"AMQP\x00\x00\x09\x01";
    let decoded = decode(bytes);
    assert_eq!(decoded.consumed, 8);
    assert_eq!(decoded.frames.len(), 1);
}

/// A stream that is not AMQP must not be chopped up as though it were.
#[test]
fn bytes_that_are_not_a_frame_are_not_decoded() {
    let decoded = decode(b"GET / HTTP/1.1\r\nHost: x\r\n\r\n");
    assert_eq!(decoded.frames, []);
    assert_eq!(decoded.consumed, 0);
}

#[test]
fn a_frame_without_its_end_byte_is_refused() {
    let mut bytes = frame(1, 1, &method(60, 40));
    let last = bytes.len() - 1;
    bytes[last] = 0x00;
    assert_eq!(decode(&bytes).frames, []);
}
