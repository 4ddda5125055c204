use nargun::peer_message::{Message, MessageError, NoSizeBytes, Piece, Request};

fn long_buf_from_message_slice(raw_message: &[u8]) -> [u8; 1 << 6] {
    let mut buf = [0u8; 1 << 6];
    buf[..raw_message.len()].copy_from_slice(raw_message);
    buf
}

fn test_message_ser_de(raw_message: &[u8], expected_message: Message) {
    let buf = long_buf_from_message_slice(raw_message);

    let message = Message::from_buf(&buf, raw_message.len()).unwrap();

    assert_eq!(expected_message, message);

    let bytes = message.into_bytes();

    assert_eq!(&buf[..raw_message.len()], bytes.as_slice());
}

fn ser_u32_be(i: u32) -> [u8; 4] {
    i.to_be_bytes()
}

#[test]
fn keep_alive() {
    let raw_message = [0, 0, 0, 0];
    test_message_ser_de(&raw_message, Message::KeepAlive);
}

#[test]
fn choke() {
    let raw_message = [0, 0, 0, 1, 0];
    test_message_ser_de(&raw_message, Message::Choke);
}

#[test]
fn unchoke() {
    let raw_message = [0, 0, 0, 1, 1];
    test_message_ser_de(&raw_message, Message::Unchoke);
}

#[test]
fn interested() {
    let raw_message = [0, 0, 0, 1, 2];
    test_message_ser_de(&raw_message, Message::Interested);
}

#[test]
fn not_interested() {
    let raw_message = [0, 0, 0, 1, 3];
    test_message_ser_de(&raw_message, Message::NotInterested);
}

#[test]
fn have() {
    let piece_index = 726049813;
    let mut raw_message = [0, 0, 0, 5, 4, 0, 0, 0, 0];
    raw_message[5..9].copy_from_slice(&ser_u32_be(piece_index));
    test_message_ser_de(&raw_message, Message::Have(piece_index));
}

#[test]
fn bitfield() {
    let raw_message = [0, 0, 0, 8, 5, 23, 113, 254, 203, 0, 17, 224];
    let bitfield = &raw_message[5..];
    let message = Message::Bitfield(NoSizeBytes::new(bitfield.to_vec()));
    test_message_ser_de(&raw_message, message);
}

#[test]
fn request() {
    let index = 726049813;
    let begin = 3456;
    let length = 11166679;

    let mut raw_message = [0, 0, 0, 13, 6, 0, 0, 0, 0, 0, 0, 0, 0, 0, 0, 0, 0];
    raw_message[5..9].copy_from_slice(&ser_u32_be(index));
    raw_message[9..13].copy_from_slice(&ser_u32_be(begin));
    raw_message[13..17].copy_from_slice(&ser_u32_be(length));

    let message = Message::Request(Request { index, begin, length });
    test_message_ser_de(&raw_message, message);
}

#[test]
fn piece() {
    let index = 726049813;
    let begin = 3456;

    let mut raw_message = [
        0, 0, 0, 20, 7, 0, 0, 0, 0, 0, 0, 0, 0, 247, 251, 239, 152, 196, 66, 34, 33, 90, 29, 97,
    ];
    raw_message[5..9].copy_from_slice(&ser_u32_be(index));
    raw_message[9..13].copy_from_slice(&ser_u32_be(begin));

    let block = NoSizeBytes::new(raw_message[13..].to_vec());
    let message = Message::Piece(Piece { index, begin, block });
    test_message_ser_de(&raw_message, message);
}

#[test]
fn cancel() {
    let index = 726049813;
    let begin = 3456;
    let length = 11166679;

    let mut raw_message = [0, 0, 0, 13, 8, 0, 0, 0, 0, 0, 0, 0, 0, 0, 0, 0, 0];
    raw_message[5..9].copy_from_slice(&ser_u32_be(index));
    raw_message[9..13].copy_from_slice(&ser_u32_be(begin));
    raw_message[13..17].copy_from_slice(&ser_u32_be(length));

    let message = Message::Cancel(Request { index, begin, length });
    test_message_ser_de(&raw_message, message);
}

#[test]
fn port() {
    let piece_index = 45678u16;
    let left = (piece_index >> 8) as u8;
    let right = (piece_index % (1 << 8)) as u8;
    let raw_message = [0, 0, 0, 3, 9, left, right];
    test_message_ser_de(&raw_message, Message::Port(piece_index));
}

#[test]
#[should_panic]
fn incomplete_message() {
    let raw_message = [
        0, 0, 0, 20, 7, 1, 2, 3, 4, 5, 6, 7, 8, 247, 251, 239, 152, 196, 66, 34, 33, 90,
    ];
    let buf = long_buf_from_message_slice(&raw_message);
    let _ = Message::from_buf(&buf, raw_message.len()).unwrap();
}

#[test]
fn message_errors() {
    let buf = long_buf_from_message_slice(&[0, 0, 0, 1, 10]);
    assert_eq!(Message::from_buf(&buf, 5), Err(MessageError::UnsupportedId(10)));
    assert_eq!(
        Message::from_buf(&buf, 6),
        Err(MessageError::LengthMismatch { expected: 6, found: 5 })
    );
}

#[test]
fn piece_len_counts_block() {
    let p = Piece::new(1, 2, &[9, 9, 9]);
    assert_eq!(p.len(), 3);
}
