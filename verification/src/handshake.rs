use vstd::prelude::*;
use crate::id::ID;
use crate::peer_message::push_bytes;

verus! {

pub const PSTRLEN: u8 = 19;
pub const HANDSHAKE_LENGTH_FOR_BITTORRENT_PROTOCOL: usize = 68;

/// The protocol string, "BitTorrent protocol".
pub open spec fn pstr() -> Seq<u8> {
    seq![66u8, 105, 116, 84, 111, 114, 114, 101, 110, 116, 32, 112, 114, 111, 116, 111, 99, 111, 108]
}

/// The protocol string, "BitTorrent protocol".
pub fn pstr_bytes() -> (r: [u8; 19])
    ensures
        r@ == pstr(),
{
    let r = [66u8, 105, 116, 84, 111, 114, 114, 101, 110, 116, 32, 112, 114, 111, 116, 111, 99, 111, 108];
    assert(r@ =~= pstr());
    r
}

/// Reserved bytes sent by this client: only the last bit (DHT support) is set.
pub open spec fn reserved_bytes() -> Seq<u8> {
    seq![0u8, 0, 0, 0, 0, 0, 0, 1]
}

/// The wire form of a handshake.
pub open spec fn handshake_bytes(reserved: Seq<u8>, info_hash: Seq<u8>, peer_id: Seq<u8>) -> Seq<u8> {
    seq![PSTRLEN] + pstr() + reserved + info_hash + peer_id
}

/// Why received bytes are not a handshake of this protocol.
#[derive(Debug, Clone, Copy, PartialEq, Eq, Structural)]
pub enum HandshakeError {
    WrongLength { expected: usize, found: usize },
    UnsupportedProtocol,
}

/// The first message of a peer connection.
#[derive(Debug, Clone, Copy)]
pub struct Handshake {
    pub pstrlen: u8,
    pub pstr: [u8; 19],
    pub reserved: [u8; 8],
    pub info_hash: ID,
    pub peer_id: ID,
}

/// `buf` is a handshake of this protocol.
pub open spec fn valid_handshake(buf: Seq<u8>) -> bool {
    &&& buf.len() == HANDSHAKE_LENGTH_FOR_BITTORRENT_PROTOCOL
    &&& buf[0] == PSTRLEN
    &&& buf.subrange(1, 20) == pstr()
}

impl Handshake {
    pub fn new(info_hash: &ID, peer_id: &ID) -> (r: Self)
        ensures
            r.pstrlen == PSTRLEN,
            r.pstr@ == pstr(),
            r.reserved@ == reserved_bytes(),
            r.info_hash == *info_hash,
            r.peer_id == *peer_id,
    {
        let reserved = [0u8, 0, 0, 0, 0, 0, 0, 1];
        assert(reserved@ =~= reserved_bytes());
        Handshake { pstrlen: PSTRLEN, pstr: pstr_bytes(), reserved, info_hash: *info_hash, peer_id: *peer_id }
    }

    /// The 68 bytes sent on the wire.
    pub fn as_bytes(&self) -> (r: Vec<u8>)
        ensures
            r@ == seq![self.pstrlen] + self.pstr@ + self.reserved@ + self.info_hash@
                + self.peer_id@,
    {
        let mut v: Vec<u8> = Vec::with_capacity(HANDSHAKE_LENGTH_FOR_BITTORRENT_PROTOCOL);
        v.push(self.pstrlen);
        push_bytes(&mut v, self.pstr.as_slice());
        push_bytes(&mut v, self.reserved.as_slice());
        push_bytes(&mut v, self.info_hash.as_byte_ref());
        push_bytes(&mut v, self.peer_id.as_byte_ref());
        v
    }

    /// The wire form, consuming the handshake.
    pub fn into_bytes(self) -> (r: Vec<u8>)
        ensures
            r@ == seq![self.pstrlen] + self.pstr@ + self.reserved@ + self.info_hash@
                + self.peer_id@,
    {
        self.as_bytes()
    }

    /// Accepts exactly 68 bytes that start with the protocol's length and string.
    pub fn check_validity(buf: &[u8]) -> (r: Result<(), HandshakeError>)
        ensures
            buf@.len() != HANDSHAKE_LENGTH_FOR_BITTORRENT_PROTOCOL ==> r == Err::<(), HandshakeError>(
                HandshakeError::WrongLength {
                    expected: HANDSHAKE_LENGTH_FOR_BITTORRENT_PROTOCOL,
                    found: buf@.len() as usize,
                },
            ),
            buf@.len() == HANDSHAKE_LENGTH_FOR_BITTORRENT_PROTOCOL && !valid_handshake(buf@) ==> r
                == Err::<(), HandshakeError>(HandshakeError::UnsupportedProtocol),
            r is Ok <==> valid_handshake(buf@),
    {
        if buf.len() != HANDSHAKE_LENGTH_FOR_BITTORRENT_PROTOCOL {
            return Err(
                HandshakeError::WrongLength {
                    expected: HANDSHAKE_LENGTH_FOR_BITTORRENT_PROTOCOL,
                    found: buf.len(),
                },
            );
        }
        if buf[0] != PSTRLEN {
            return Err(HandshakeError::UnsupportedProtocol);
        }
        let p = pstr_bytes();
        let mut i: usize = 0;
        while i < 19
            invariant
                0 <= i <= 19,
                buf@.len() == 68,
                p@ == pstr(),
                forall|k: int| 0 <= k < i ==> buf@[1 + k] == p@[k],
            decreases 19 - i,
        {
            if buf[1 + i] != p[i] {
                assert(buf@.subrange(1, 20)[i as int] != pstr()[i as int]);
                return Err(HandshakeError::UnsupportedProtocol);
            }
            i += 1;
        }
        assert(buf@.subrange(1, 20) =~= pstr());
        Ok(())
    }

    /// Reads the fields of a handshake from at least 68 bytes; shorter input is refused.
    pub fn from_bytes(buff: &[u8]) -> (r: Result<Handshake, HandshakeError>)
        ensures
            r is Ok <==> buff@.len() >= HANDSHAKE_LENGTH_FOR_BITTORRENT_PROTOCOL,
            r matches Ok(h) ==> seq![h.pstrlen] + h.pstr@ + h.reserved@ + h.info_hash@
                + h.peer_id@ == buff@.take(68),
    {
        if buff.len() < HANDSHAKE_LENGTH_FOR_BITTORRENT_PROTOCOL {
            return Err(
                HandshakeError::WrongLength {
                    expected: HANDSHAKE_LENGTH_FOR_BITTORRENT_PROTOCOL,
                    found: buff.len(),
                },
            );
        }
        let mut pstr = [0u8; 19];
        let mut reserved = [0u8; 8];
        let mut info_hash = [0u8; 20];
        let mut peer_id = [0u8; 20];
        let mut i: usize = 0;
        while i < 19
            invariant
                0 <= i <= 19,
                buff@.len() >= 68,
                forall|k: int| 0 <= k < i ==> pstr@[k] == buff@[1 + k],
            decreases 19 - i,
        {
            pstr[i] = buff[1 + i];
            i += 1;
        }
        let mut i: usize = 0;
        while i < 8
            invariant
                0 <= i <= 8,
                buff@.len() >= 68,
                forall|k: int| 0 <= k < i ==> reserved@[k] == buff@[20 + k],
            decreases 8 - i,
        {
            reserved[i] = buff[20 + i];
            i += 1;
        }
        let mut i: usize = 0;
        while i < 20
            invariant
                0 <= i <= 20,
                buff@.len() >= 68,
                forall|k: int| 0 <= k < i ==> info_hash@[k] == buff@[28 + k],
                forall|k: int| 0 <= k < i ==> peer_id@[k] == buff@[48 + k],
            decreases 20 - i,
        {
            info_hash[i] = buff[28 + i];
            peer_id[i] = buff[48 + i];
            i += 1;
        }
        let h = Handshake {
            pstrlen: buff[0],
            pstr,
            reserved,
            info_hash: ID(info_hash),
            peer_id: ID(peer_id),
        };
        assert(seq![h.pstrlen] + h.pstr@ + h.reserved@ + h.info_hash@ + h.peer_id@ =~= buff@.take(68));
        Ok(h)
    }
}

/// A handshake this client builds passes this client's validity check.
pub proof fn lemma_new_handshake_is_valid(info_hash: Seq<u8>, peer_id: Seq<u8>)
    requires
        info_hash.len() == 20,
        peer_id.len() == 20,
    ensures
        valid_handshake(handshake_bytes(reserved_bytes(), info_hash, peer_id)),
{
    let b = handshake_bytes(reserved_bytes(), info_hash, peer_id);
    assert(b.subrange(1, 20) =~= pstr());
}

/// Reading back the bytes a handshake is written as gives the same handshake: the fields of
/// a handshake read from `h`'s 68 bytes are `h`'s fields.
pub proof fn lemma_handshake_roundtrip(h: Handshake, g: Handshake)
    requires
        seq![g.pstrlen] + g.pstr@ + g.reserved@ + g.info_hash@ + g.peer_id@ == (seq![h.pstrlen] + h.pstr@
            + h.reserved@ + h.info_hash@ + h.peer_id@).take(68),
    ensures
        g.pstrlen == h.pstrlen,
        g.pstr@ == h.pstr@,
        g.reserved@ == h.reserved@,
        g.info_hash@ == h.info_hash@,
        g.peer_id@ == h.peer_id@,
{
    let a = seq![g.pstrlen] + g.pstr@ + g.reserved@ + g.info_hash@ + g.peer_id@;
    let b = seq![h.pstrlen] + h.pstr@ + h.reserved@ + h.info_hash@ + h.peer_id@;
    assert(b.take(68) == b);
    assert(a[0] == g.pstrlen && b[0] == h.pstrlen);
    assert(g.pstr@ =~= a.subrange(1, 20) && h.pstr@ =~= b.subrange(1, 20));
    assert(g.reserved@ =~= a.subrange(20, 28) && h.reserved@ =~= b.subrange(20, 28));
    assert(g.info_hash@ =~= a.subrange(28, 48) && h.info_hash@ =~= b.subrange(28, 48));
    assert(g.peer_id@ =~= a.subrange(48, 68) && h.peer_id@ =~= b.subrange(48, 68));
}

} // verus!
