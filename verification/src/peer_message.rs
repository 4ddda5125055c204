use vstd::prelude::*;

verus! {

pub const BYTES_IN_LEN: usize = 4;
pub const BLOCK_SIZE: u32 = 16384;

pub const CHOKE_ID: u8 = 0;
pub const UNCHOKE_ID: u8 = 1;
pub const INTERESTED_ID: u8 = 2;
pub const NOT_INTERESTED_ID: u8 = 3;
pub const HAVE_ID: u8 = 4;
pub const BITFIELD_ID: u8 = 5;
pub const REQUEST_ID: u8 = 6;
pub const PIECE_ID: u8 = 7;
pub const CANCEL_ID: u8 = 8;
pub const PORT_ID: u8 = 9;

/// Big-endian value of four bytes.
pub open spec fn be32(a: u8, b: u8, c: u8, d: u8) -> u32 {
    (a as int * 0x1000000 + b as int * 0x10000 + c as int * 0x100 + d as int) as u32
}

/// Big-endian value of the four bytes of `s` starting at `off`.
pub open spec fn be32_at(s: Seq<u8>, off: int) -> u32 {
    be32(s[off], s[off + 1], s[off + 2], s[off + 3])
}

/// Big-endian bytes of a 32-bit number.
pub open spec fn u32_be(x: u32) -> Seq<u8> {
    seq![
        (x / 0x1000000) as u8,
        ((x / 0x10000) % 0x100) as u8,
        ((x / 0x100) % 0x100) as u8,
        (x % 0x100) as u8,
    ]
}

/// Big-endian bytes of a 16-bit number.
pub open spec fn u16_be(x: u16) -> Seq<u8> {
    seq![(x / 0x100) as u8, (x % 0x100) as u8]
}

/// Reads the big-endian number of four bytes at `off`.
pub fn read_u32_be(buf: &[u8], off: usize) -> (r: u32)
    requires
        off + 4 <= buf@.len(),
    ensures
        r == be32_at(buf@, off as int),
{
    let a = buf[off];
    let b = buf[off + 1];
    let c = buf[off + 2];
    let d = buf[off + 3];
    let w = ((a as u32) << 24u32) | ((b as u32) << 16u32) | ((c as u32) << 8u32) | (d as u32);
    assert(w == a * 0x1000000 + b * 0x10000 + c * 0x100 + d) by (bit_vector)
        requires
            w == ((a as u32) << 24u32) | ((b as u32) << 16u32) | ((c as u32) << 8u32) | (d as u32),
    ;
    w
}

/// Appends the big-endian bytes of `x`.
pub fn push_u32_be(v: &mut Vec<u8>, x: u32)
    ensures
        final(v)@ == old(v)@ + u32_be(x),
{
    v.push((x / 0x1000000) as u8);
    v.push(((x / 0x10000) % 0x100) as u8);
    v.push(((x / 0x100) % 0x100) as u8);
    v.push((x % 0x100) as u8);
    assert(v@ =~= old(v)@ + u32_be(x));
}

/// Appends the bytes of `data`.
pub fn push_bytes(v: &mut Vec<u8>, data: &[u8])
    ensures
        final(v)@ == old(v)@ + data@,
{
    let mut i: usize = 0;
    while i < data.len()
        invariant
            0 <= i <= data@.len(),
            v@ == old(v)@ + data@.take(i as int),
        decreases data@.len() - i,
    {
        v.push(data[i]);
        i += 1;
        assert(v@ =~= old(v)@ + data@.take(i as int));
    }
    assert(data@.take(data@.len() as int) == data@);
}

/// Reading back the bytes of a number gives the number.
pub proof fn lemma_u32_be_roundtrip(x: u32)
    ensures
        u32_be(x).len() == 4,
        be32(u32_be(x)[0], u32_be(x)[1], u32_be(x)[2], u32_be(x)[3]) == x,
{
    assert((x / 0x1000000) * 0x1000000 + ((x / 0x10000) % 0x100) * 0x10000 + ((x / 0x100)
        % 0x100) * 0x100 + x % 0x100 == x) by (nonlinear_arith);
}

pub proof fn lemma_u16_be_roundtrip(x: u16)
    ensures
        u16_be(x).len() == 2,
        (u16_be(x)[0] as int * 0x100 + u16_be(x)[1] as int) == x,
{
}

/// A request for (or cancellation of) one block of a piece.
#[derive(Debug, Clone, Copy, PartialEq, Eq, Structural)]
pub struct Request {
    pub index: u32,
    pub begin: u32,
    pub length: u32,
}

/// One block of a piece, with its data.
#[derive(Debug, Clone, PartialEq)]
pub struct Piece {
    pub index: u32,
    pub begin: u32,
    pub block: NoSizeBytes,
}

/// Bytes that serialize without a length prefix.
#[derive(Debug, Clone, PartialEq)]
pub struct NoSizeBytes(pub Vec<u8>);

impl NoSizeBytes {
    pub fn new(data: Vec<u8>) -> (r: Self)
        ensures
            r.0@ == data@,
    {
        NoSizeBytes(data)
    }

    pub fn into_bytes(self) -> (r: Vec<u8>)
        ensures
            r@ == self.0@,
    {
        self.0
    }

    pub fn as_bytes(&self) -> (r: Vec<u8>)
        ensures
            r@ == self.0@,
    {
        let mut v: Vec<u8> = Vec::new();
        push_bytes(&mut v, self.0.as_slice());
        v
    }

    pub fn as_ref(&self) -> (r: &[u8])
        ensures
            r@ == self.0@,
    {
        self.0.as_slice()
    }

    pub fn len(&self) -> (r: usize)
        ensures
            r == self.0@.len(),
    {
        self.0.len()
    }
}

/// A message of the peer wire protocol.
#[derive(Debug, Clone, PartialEq)]
pub enum Message {
    KeepAlive,
    Choke,
    Unchoke,
    Interested,
    NotInterested,
    Have(u32),
    Bitfield(NoSizeBytes),
    Request(Request),
    Piece(Piece),
    Cancel(Request),
    Port(u16),
}

/// Why a buffer does not hold a message.
#[derive(Debug, Clone, Copy, PartialEq, Eq, Structural)]
pub enum MessageError {
    /// The length prefix disagrees with the expected size.
    LengthMismatch { expected: usize, found: u64 },
    /// The message id is not one of the protocol's.
    UnsupportedId(u8),
}

/// Whether the message can be written with a 32-bit length prefix.
pub open spec fn encodable(m: Message) -> bool {
    match m {
        Message::Bitfield(b) => b.0@.len() + 1 <= u32::MAX,
        Message::Piece(p) => p.block.0@.len() + 9 <= u32::MAX,
        _ => true,
    }
}

/// The wire form of a message: big-endian length prefix, id, payload.
pub open spec fn encode(m: Message) -> Seq<u8> {
    match m {
        Message::KeepAlive => u32_be(0),
        Message::Choke => u32_be(1) + seq![CHOKE_ID],
        Message::Unchoke => u32_be(1) + seq![UNCHOKE_ID],
        Message::Interested => u32_be(1) + seq![INTERESTED_ID],
        Message::NotInterested => u32_be(1) + seq![NOT_INTERESTED_ID],
        Message::Have(i) => u32_be(5) + seq![HAVE_ID] + u32_be(i),
        Message::Bitfield(b) => u32_be((b.0@.len() + 1) as u32) + seq![BITFIELD_ID] + b.0@,
        Message::Request(r) => u32_be(13) + seq![REQUEST_ID] + u32_be(r.index) + u32_be(r.begin)
            + u32_be(r.length),
        Message::Piece(p) => u32_be((p.block.0@.len() + 9) as u32) + seq![PIECE_ID] + u32_be(
            p.index,
        ) + u32_be(p.begin) + p.block.0@,
        Message::Cancel(r) => u32_be(13) + seq![CANCEL_ID] + u32_be(r.index) + u32_be(r.begin)
            + u32_be(r.length),
        Message::Port(port) => u32_be(3) + seq![PORT_ID] + u16_be(port),
    }
}

/// Size of a message announced by its length prefix (prefix included).
pub open spec fn announced_len(buf: Seq<u8>) -> int {
    be32_at(buf, 0) + 4
}

/// Reading the message at the start of `buf` stays inside the buffer.
pub open spec fn from_buf_in_bounds(buf: Seq<u8>, expected_len: int) -> bool {
    let len = announced_len(buf);
    &&& buf.len() >= 4
    &&& (len == expected_len && len > 4) ==> {
        &&& buf.len() >= len
        &&& buf[4] == HAVE_ID ==> buf.len() >= 9
        &&& (buf[4] == REQUEST_ID || buf[4] == CANCEL_ID) ==> buf.len() >= 17
        &&& buf[4] == PIECE_ID ==> buf.len() >= 13 && len >= 13
        &&& buf[4] == PORT_ID ==> buf.len() >= 7
    }
}

/// The message ids of the protocol.
pub open spec fn known_id(id: u8) -> bool {
    id <= PORT_ID
}

/// `m` is the message of size `len` at the start of `buf`, read from its fields as the
/// protocol lays them out.
pub open spec fn decodes_to(buf: Seq<u8>, len: int, m: Message) -> bool {
    if len == 4 {
        m == Message::KeepAlive
    } else {
        let id = buf[4];
        match m {
            Message::KeepAlive => false,
            Message::Choke => id == CHOKE_ID,
            Message::Unchoke => id == UNCHOKE_ID,
            Message::Interested => id == INTERESTED_ID,
            Message::NotInterested => id == NOT_INTERESTED_ID,
            Message::Have(i) => id == HAVE_ID && i == be32_at(buf, 5),
            Message::Bitfield(b) => id == BITFIELD_ID && b.0@ == buf.subrange(5, len),
            Message::Request(r) => id == REQUEST_ID && r == (Request {
                index: be32_at(buf, 5),
                begin: be32_at(buf, 9),
                length: be32_at(buf, 13),
            }),
            Message::Piece(p) => id == PIECE_ID && p.index == be32_at(buf, 5) && p.begin
                == be32_at(buf, 9) && p.block.0@ == buf.subrange(13, len),
            Message::Cancel(r) => id == CANCEL_ID && r == (Request {
                index: be32_at(buf, 5),
                begin: be32_at(buf, 9),
                length: be32_at(buf, 13),
            }),
            Message::Port(port) => id == PORT_ID && port == (buf[5] as int * 0x100 + buf[6] as int),
        }
    }
}

impl Piece {
    pub fn new(index: u32, begin: u32, block: &[u8]) -> (r: Piece)
        ensures
            r.index == index,
            r.begin == begin,
            r.block.0@ == block@,
    {
        let mut v: Vec<u8> = Vec::new();
        push_bytes(&mut v, block);
        Piece { index, begin, block: NoSizeBytes(v) }
    }

    pub fn len(&self) -> (r: usize)
        ensures
            r == self.block.0@.len(),
    {
        self.block.0.len()
    }
}

impl Message {
    /// Reads the message at the start of `buf`, whose length prefix must announce
    /// `expected_len` bytes (prefix included).
    pub fn from_buf(buf: &[u8], expected_len: usize) -> (r: Result<Message, MessageError>)
        requires
            from_buf_in_bounds(buf@, expected_len as int),
        ensures
            announced_len(buf@) != expected_len ==> r == Err::<Message, MessageError>(
                MessageError::LengthMismatch { expected: expected_len, found: announced_len(buf@) as u64 },
            ),
            announced_len(buf@) == expected_len && expected_len > 4 && !known_id(buf@[4]) ==> r
                == Err::<Message, MessageError>(MessageError::UnsupportedId(buf@[4])),
            r is Ok <==> announced_len(buf@) == expected_len && (expected_len == 4 || known_id(
                buf@[4],
            )),
            r matches Ok(m) ==> decodes_to(buf@, expected_len as int, m),
    {
        let prefix = read_u32_be(buf, 0);
        let len: u64 = prefix as u64 + 4;
        if len != expected_len as u64 {
            return Err(MessageError::LengthMismatch { expected: expected_len, found: len });
        }
        if expected_len == BYTES_IN_LEN {
            return Ok(Message::KeepAlive);
        }
        let id = buf[4];
        if id == CHOKE_ID {
            Ok(Message::Choke)
        } else if id == UNCHOKE_ID {
            Ok(Message::Unchoke)
        } else if id == INTERESTED_ID {
            Ok(Message::Interested)
        } else if id == NOT_INTERESTED_ID {
            Ok(Message::NotInterested)
        } else if id == HAVE_ID {
            Ok(Message::Have(read_u32_be(buf, 5)))
        } else if id == BITFIELD_ID {
            let mut v: Vec<u8> = Vec::new();
            let mut i: usize = 5;
            while i < expected_len
                invariant
                    5 <= i <= expected_len <= buf@.len(),
                    v@ == buf@.subrange(5, i as int),
                decreases expected_len - i,
            {
                v.push(buf[i]);
                i += 1;
                assert(v@ =~= buf@.subrange(5, i as int));
            }
            Ok(Message::Bitfield(NoSizeBytes(v)))
        } else if id == REQUEST_ID {
            Ok(
                Message::Request(
                    Request {
                        index: read_u32_be(buf, 5),
                        begin: read_u32_be(buf, 9),
                        length: read_u32_be(buf, 13),
                    },
                ),
            )
        } else if id == PIECE_ID {
            let index = read_u32_be(buf, 5);
            let begin = read_u32_be(buf, 9);
            let mut v: Vec<u8> = Vec::new();
            let mut i: usize = 13;
            while i < expected_len
                invariant
                    13 <= i <= expected_len <= buf@.len(),
                    v@ == buf@.subrange(13, i as int),
                decreases expected_len - i,
            {
                v.push(buf[i]);
                i += 1;
                assert(v@ =~= buf@.subrange(13, i as int));
            }
            Ok(Message::Piece(Piece { index, begin, block: NoSizeBytes(v) }))
        } else if id == CANCEL_ID {
            Ok(
                Message::Cancel(
                    Request {
                        index: read_u32_be(buf, 5),
                        begin: read_u32_be(buf, 9),
                        length: read_u32_be(buf, 13),
                    },
                ),
            )
        } else if id == PORT_ID {
            let hi = buf[5];
            let lo = buf[6];
            assert(((hi as u16) << 8u16) + (lo as u16) == hi as int * 0x100 + lo as int) by (bit_vector);
            Ok(Message::Port(((hi as u16) << 8u16) + (lo as u16)))
        } else {
            Err(MessageError::UnsupportedId(id))
        }
    }

    /// The wire form of the message.
    pub fn into_bytes(self) -> (r: Vec<u8>)
        requires
            encodable(self),
        ensures
            r@ == encode(self),
    {
        let mut v: Vec<u8> = Vec::new();
        match self {
            Message::KeepAlive => {
                push_u32_be(&mut v, 0);
            },
            Message::Choke => {
                push_u32_be(&mut v, 1);
                v.push(CHOKE_ID);
            },
            Message::Unchoke => {
                push_u32_be(&mut v, 1);
                v.push(UNCHOKE_ID);
            },
            Message::Interested => {
                push_u32_be(&mut v, 1);
                v.push(INTERESTED_ID);
            },
            Message::NotInterested => {
                push_u32_be(&mut v, 1);
                v.push(NOT_INTERESTED_ID);
            },
            Message::Have(piece_index) => {
                push_u32_be(&mut v, 5);
                v.push(HAVE_ID);
                push_u32_be(&mut v, piece_index);
            },
            Message::Bitfield(bitfield) => {
                push_u32_be(&mut v, (bitfield.0.len() + 1) as u32);
                v.push(BITFIELD_ID);
                push_bytes(&mut v, bitfield.0.as_slice());
            },
            Message::Request(request) => {
                push_u32_be(&mut v, 13);
                v.push(REQUEST_ID);
                push_u32_be(&mut v, request.index);
                push_u32_be(&mut v, request.begin);
                push_u32_be(&mut v, request.length);
            },
            Message::Piece(piece) => {
                push_u32_be(&mut v, (piece.block.0.len() + 9) as u32);
                v.push(PIECE_ID);
                push_u32_be(&mut v, piece.index);
                push_u32_be(&mut v, piece.begin);
                push_bytes(&mut v, piece.block.0.as_slice());
            },
            Message::Cancel(request) => {
                push_u32_be(&mut v, 13);
                v.push(CANCEL_ID);
                push_u32_be(&mut v, request.index);
                push_u32_be(&mut v, request.begin);
                push_u32_be(&mut v, request.length);
            },
            Message::Port(listen_port) => {
                push_u32_be(&mut v, 3);
                v.push(PORT_ID);
                v.push((listen_port / 0x100) as u8);
                v.push((listen_port % 0x100) as u8);
            },
        }
        assert(v@ =~= encode(self));
        v
    }
}

/// Reading the wire form of a message, followed by anything, gives the message back: the
/// length prefix announces exactly the encoded size and the fields read are the message's.
pub proof fn lemma_decode_encode(m: Message, rest: Seq<u8>)
    requires
        encodable(m),
    ensures
        announced_len(encode(m) + rest) == encode(m).len(),
        encode(m).len() == 4 || known_id((encode(m) + rest)[4]),
        decodes_to(encode(m) + rest, encode(m).len() as int, m),
        from_buf_in_bounds(encode(m) + rest, encode(m).len() as int),
{
    let e = encode(m);
    let buf = e + rest;
    match m {
        Message::KeepAlive => {
            lemma_u32_be_roundtrip(0);
        },
        Message::Choke | Message::Unchoke | Message::Interested | Message::NotInterested => {
            lemma_u32_be_roundtrip(1);
        },
        Message::Have(i) => {
            lemma_u32_be_roundtrip(5);
            lemma_u32_be_roundtrip(i);
        },
        Message::Bitfield(b) => {
            lemma_u32_be_roundtrip((b.0@.len() + 1) as u32);
            assert(buf.subrange(5, e.len() as int) =~= b.0@);
        },
        Message::Request(r) | Message::Cancel(r) => {
            lemma_u32_be_roundtrip(13);
            lemma_u32_be_roundtrip(r.index);
            lemma_u32_be_roundtrip(r.begin);
            lemma_u32_be_roundtrip(r.length);
            assert(be32_at(buf, 5) == r.index);
            assert(be32_at(buf, 9) == r.begin);
            assert(be32_at(buf, 13) == r.length);
        },
        Message::Piece(p) => {
            lemma_u32_be_roundtrip((p.block.0@.len() + 9) as u32);
            lemma_u32_be_roundtrip(p.index);
            lemma_u32_be_roundtrip(p.begin);
            assert(be32_at(buf, 5) == p.index);
            assert(be32_at(buf, 9) == p.begin);
            assert(buf.subrange(13, e.len() as int) =~= p.block.0@);
        },
        Message::Port(port) => {
            lemma_u32_be_roundtrip(3);
        },
    }
}

} // verus!
