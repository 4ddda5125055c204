use nargun::handshake::{
    pstr_bytes, Handshake, HandshakeError, HANDSHAKE_LENGTH_FOR_BITTORRENT_PROTOCOL, PSTRLEN,
};
use nargun::id::ID;

const INFO_HASH: [u8; 20] = [
    1, 2, 3, 4, 5, 6, 7, 8, 9, 10, 11, 12, 13, 14, 15, 16, 17, 18, 19, 20,
];
const PEER_ID: [u8; 20] = [
    21, 22, 23, 24, 25, 26, 27, 28, 29, 30, 31, 32, 33, 34, 35, 36, 37, 38, 39, 40,
];

fn serialized_handshake() -> [u8; 68] {
    let mut rv = [0u8; 68];
    rv[0] = PSTRLEN;
    let pstr = pstr_bytes();
    for (idx, byte) in pstr.iter().enumerate() {
        rv[idx + 1] = *byte;
    }
    rv[27] = 1;
    for (idx, byte) in INFO_HASH.iter().enumerate() {
        rv[28 + idx] = *byte;
    }
    for (idx, byte) in PEER_ID.iter().enumerate() {
        rv[48 + idx] = *byte;
    }
    rv
}

#[test]
fn serialize() {
    let info_hash = ID::new(INFO_HASH);
    let peer_id = ID::new(PEER_ID);

    let raw = serialized_handshake();

    let handshake = Handshake::new(&info_hash, &peer_id);
    let serialized_handshake = handshake.as_bytes();

    assert_eq!(HANDSHAKE_LENGTH_FOR_BITTORRENT_PROTOCOL, serialized_handshake.len());
    assert_eq!(PSTRLEN, serialized_handshake[0]);
    assert_eq!(pstr_bytes()[0], serialized_handshake[1]);
    assert_eq!(0, serialized_handshake[20]);
    assert_eq!(INFO_HASH[0], serialized_handshake[28]);
    assert_eq!(PEER_ID[0], serialized_handshake[48]);

    assert_eq!(&raw[..], serialized_handshake.as_slice());
}

#[test]
fn check_validity() {
    let raw = serialized_handshake();
    assert!(Handshake::check_validity(raw.as_ref()).is_ok());
}

#[test]
#[should_panic]
fn raw_handshake_with_wrong_size() {
    let raw = serialized_handshake();
    let _ = Handshake::check_validity(&raw[0..(HANDSHAKE_LENGTH_FOR_BITTORRENT_PROTOCOL - 2)])
        .unwrap();
}

#[test]
#[should_panic]
fn raw_handshake_with_wrong_protocol() {
    let mut raw = serialized_handshake();
    raw[17] = b'X';
    let _ = Handshake::check_validity(raw.as_ref()).unwrap();
}

#[test]
fn handshake_errors_name_the_cause() {
    let mut raw = serialized_handshake();
    assert_eq!(
        Handshake::check_validity(&raw[..60]),
        Err(HandshakeError::WrongLength { expected: 68, found: 60 })
    );
    raw[0] = 18;
    assert_eq!(Handshake::check_validity(&raw), Err(HandshakeError::UnsupportedProtocol));
}

#[test]
fn handshake_roundtrip() {
    let info_hash = ID::new(INFO_HASH);
    let peer_id = ID::new(PEER_ID);
    let bytes = Handshake::new(&info_hash, &peer_id).into_bytes();
    let back = Handshake::from_bytes(&bytes).unwrap();
    assert_eq!(back.info_hash.0, INFO_HASH);
    assert_eq!(back.peer_id.0, PEER_ID);
    assert_eq!(back.reserved, [0, 0, 0, 0, 0, 0, 0, 1]);
}
