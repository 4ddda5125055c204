//! KRPC, the DHT's messages: queries, responses and errors as bencoded dictionaries.
use vstd::prelude::*;
use vstd::utf8::encode_utf8;
use vstd::string::StrSliceExecFns;
use crate::id::{ID, random_byte};
use crate::peer::{Peer, compact_of};
use crate::peer_message::{NoSizeBytes, push_bytes};
use crate::routing_table::{Node, Nodes};

verus! {

/// Length of the transaction ids this node makes.
pub const MY_TID_LEN: usize = 5;

/// The `y` field: `q`, `r` or `e`.
#[derive(Debug, Clone, Copy, PartialEq, Eq, Structural)]
pub struct MessageType(pub u8);

/// An error a node answers with: a code or a description.
#[derive(Debug, Clone)]
pub enum Error {
    Code(u32),
    Desc(String),
}

/// The arguments of a query.
#[derive(Debug, Clone)]
pub enum Arguments {
    AnnouncePeer { id: ID, info_hash: ID, port: u16, token: NoSizeBytes },
    FindNode { id: ID, target: ID },
    GetPeers { id: ID, info_hash: ID },
    Ping { id: ID },
}

/// Peers, or the nodes closest to the info hash when none are known.
#[derive(Debug, Clone)]
pub enum ValuesOrNodes {
    Values { values: Vec<Peer> },
    Nodes { nodes: Nodes },
}

/// The body of a response.
#[derive(Debug, Clone)]
pub enum Response {
    GetPeers { id: ID, token: NoSizeBytes, values_or_nodes: ValuesOrNodes },
    FindNode { id: ID, nodes: Nodes },
    Ping { id: ID },
    AnnouncePeer { id: ID },
}

/// A KRPC message.
#[derive(Debug, Clone)]
pub enum Message {
    Query { transaction_id: NoSizeBytes, msg_type: MessageType, method_name: String, arguments: Arguments },
    Response { transaction_id: NoSizeBytes, msg_type: MessageType, response: Response },
    Error { transaction_id: NoSizeBytes, msg_type: MessageType, error: Vec<Error> },
}

/// A fresh random transaction id.
pub fn rand_tid() -> (r: NoSizeBytes)
    ensures
        r.0@.len() == MY_TID_LEN,
{
    let mut v: Vec<u8> = Vec::new();
    let mut i: usize = 0;
    while i < MY_TID_LEN
        invariant
            0 <= i <= 5,
            v@.len() == i,
        decreases 5 - i,
    {
        v.push(random_byte());
        i += 1;
    }
    NoSizeBytes::new(v)
}

impl Message {
    /// The transaction id.
    pub fn tid(&self) -> (r: &NoSizeBytes)
        ensures
            *r == match *self {
                Message::Query { transaction_id, .. } => transaction_id,
                Message::Response { transaction_id, .. } => transaction_id,
                Message::Error { transaction_id, .. } => transaction_id,
            },
    {
        match self {
            Message::Query { transaction_id, .. } => transaction_id,
            Message::Response { transaction_id, .. } => transaction_id,
            Message::Error { transaction_id, .. } => transaction_id,
        }
    }

    pub fn ping_query(id: &ID, transaction_id: NoSizeBytes) -> (r: Message)
        ensures
            r matches Message::Query { transaction_id: t, msg_type, method_name, arguments }
                && t == transaction_id && msg_type == MessageType(113) && method_name@ == "ping"@
                && arguments == (Arguments::Ping { id: *id }),
    {
        Message::Query {
            transaction_id,
            msg_type: MessageType(113),
            method_name: String::from_str("ping"),
            arguments: Arguments::Ping { id: *id },
        }
    }

    pub fn ping_resp(id: &ID, transaction_id: NoSizeBytes) -> (r: Message)
        ensures
            r == (Message::Response {
                transaction_id,
                msg_type: MessageType(114),
                response: Response::Ping { id: *id },
            }),
    {
        Message::Response { transaction_id, msg_type: MessageType(114), response: Response::Ping { id: *id } }
    }

    pub fn find_nodes_query(id: &ID, target: &ID, transaction_id: NoSizeBytes) -> (r: Message)
        ensures
            r matches Message::Query { transaction_id: t, msg_type, method_name, arguments }
                && t == transaction_id && msg_type == MessageType(113) && method_name@
                == "find_node"@ && arguments == (Arguments::FindNode { id: *id, target: *target }),
    {
        Message::Query {
            transaction_id,
            msg_type: MessageType(113),
            method_name: String::from_str("find_node"),
            arguments: Arguments::FindNode { id: *id, target: *target },
        }
    }

    pub fn find_nodes_resp(id: &ID, nodes: Nodes, transaction_id: NoSizeBytes) -> (r: Message)
        ensures
            r == (Message::Response {
                transaction_id,
                msg_type: MessageType(114),
                response: Response::FindNode { id: *id, nodes },
            }),
    {
        Message::Response {
            transaction_id,
            msg_type: MessageType(114),
            response: Response::FindNode { id: *id, nodes },
        }
    }

    pub fn get_peers_query(id: &ID, info_hash: &ID, transaction_id: NoSizeBytes) -> (r: Message)
        ensures
            r matches Message::Query { transaction_id: t, msg_type, method_name, arguments }
                && t == transaction_id && msg_type == MessageType(113) && method_name@
                == "get_peers"@ && arguments == (Arguments::GetPeers { id: *id, info_hash: *info_hash }),
    {
        Message::Query {
            transaction_id,
            msg_type: MessageType(113),
            method_name: String::from_str("get_peers"),
            arguments: Arguments::GetPeers { id: *id, info_hash: *info_hash },
        }
    }

    pub fn get_peers_resp(
        id: &ID,
        token: NoSizeBytes,
        values_or_nodes: ValuesOrNodes,
        transaction_id: NoSizeBytes,
    ) -> (r: Message)
        ensures
            r == (Message::Response {
                transaction_id,
                msg_type: MessageType(114),
                response: Response::GetPeers { id: *id, token, values_or_nodes },
            }),
    {
        Message::Response {
            transaction_id,
            msg_type: MessageType(114),
            response: Response::GetPeers { id: *id, token, values_or_nodes },
        }
    }

    pub fn announce_peer_query(
        id: &ID,
        info_hash: &ID,
        port: u16,
        token: NoSizeBytes,
        transaction_id: NoSizeBytes,
    ) -> (r: Message)
        ensures
            r matches Message::Query { transaction_id: t, msg_type, method_name, arguments }
                && t == transaction_id && msg_type == MessageType(113) && method_name@
                == "announce_peer"@ && arguments == (Arguments::AnnouncePeer {
                id: *id,
                info_hash: *info_hash,
                port,
                token,
            }),
    {
        Message::Query {
            transaction_id,
            msg_type: MessageType(113),
            method_name: String::from_str("announce_peer"),
            arguments: Arguments::AnnouncePeer { id: *id, info_hash: *info_hash, port, token },
        }
    }

    pub fn announce_peer_resp(id: &ID, transaction_id: NoSizeBytes) -> (r: Message)
        ensures
            r == (Message::Response {
                transaction_id,
                msg_type: MessageType(114),
                response: Response::AnnouncePeer { id: *id },
            }),
    {
        Message::Response {
            transaction_id,
            msg_type: MessageType(114),
            response: Response::AnnouncePeer { id: *id },
        }
    }

    pub fn _error_resp(error: Vec<Error>, transaction_id: NoSizeBytes) -> (r: Message)
        ensures
            r == (Message::Error { transaction_id, msg_type: MessageType(101), error }),
    {
        Message::Error { transaction_id, msg_type: MessageType(101), error }
    }
}
pub open spec fn k_id() -> Seq<u8> {
    seq![105u8, 100]
}

pub open spec fn k_target() -> Seq<u8> {
    seq![116u8, 97, 114, 103, 101, 116]
}

pub open spec fn k_info_hash() -> Seq<u8> {
    seq![105u8, 110, 102, 111, 95, 104, 97, 115, 104]
}

pub open spec fn k_port() -> Seq<u8> {
    seq![112u8, 111, 114, 116]
}

pub open spec fn k_token() -> Seq<u8> {
    seq![116u8, 111, 107, 101, 110]
}

pub open spec fn k_nodes() -> Seq<u8> {
    seq![110u8, 111, 100, 101, 115]
}

pub open spec fn k_values() -> Seq<u8> {
    seq![118u8, 97, 108, 117, 101, 115]
}

pub open spec fn k_a() -> Seq<u8> {
    seq![97u8]
}

pub open spec fn k_q() -> Seq<u8> {
    seq![113u8]
}

pub open spec fn k_t() -> Seq<u8> {
    seq![116u8]
}

pub open spec fn k_y() -> Seq<u8> {
    seq![121u8]
}

pub open spec fn k_r() -> Seq<u8> {
    seq![114u8]
}

pub open spec fn k_e() -> Seq<u8> {
    seq![101u8]
}


/// Decimal notation of `n`, in ASCII digits.
pub open spec fn decimal_bytes(n: nat) -> Seq<u8>
    decreases n,
{
    if n < 10 {
        seq![(48 + n) as u8]
    } else {
        decimal_bytes(n / 10).push((48 + n % 10) as u8)
    }
}

/// A bencoded byte string.
pub open spec fn bstr(b: Seq<u8>) -> Seq<u8> {
    decimal_bytes(b.len()) + seq![58u8] + b
}

/// A bencoded non-negative integer.
pub open spec fn bint(n: nat) -> Seq<u8> {
    seq![105u8] + decimal_bytes(n) + seq![101u8]
}

/// The compact form of a node: its identifier, then its address.
pub open spec fn node_compact(n: Node) -> Seq<u8> {
    n.id@ + compact_of(n.addr.ip, n.addr.port)
}

/// The compact forms of the nodes, one after the other.
pub open spec fn nodes_compact(ns: Seq<Node>) -> Seq<u8>
    decreases ns.len(),
{
    if ns.len() == 0 {
        Seq::empty()
    } else {
        nodes_compact(ns.drop_last()) + node_compact(ns.last())
    }
}

/// The bytes a `Nodes` value is sent as.
pub open spec fn encode_nodes(n: Nodes) -> Seq<u8> {
    match n {
        Nodes::Exact(x) => node_compact(x),
        Nodes::Closest(v) => nodes_compact(v@),
    }
}

/// The peers, each as a byte string of its compact form.
pub open spec fn encode_peers(ps: Seq<Peer>) -> Seq<u8>
    decreases ps.len(),
{
    if ps.len() == 0 {
        Seq::empty()
    } else {
        encode_peers(ps.drop_last()) + bstr(compact_of(ps.last().ip, ps.last().port))
    }
}

/// The arguments dictionary of a query, keys in order.
pub open spec fn encode_arguments(a: Arguments) -> Seq<u8> {
    seq![100u8] + match a {
        Arguments::Ping { id } => bstr(k_id()) + bstr(id@),
        Arguments::FindNode { id, target } => bstr(k_id()) + bstr(id@) + bstr(k_target()) + bstr(
            target@,
        ),
        Arguments::GetPeers { id, info_hash } => bstr(k_id()) + bstr(id@) + bstr(k_info_hash())
            + bstr(info_hash@),
        Arguments::AnnouncePeer { id, info_hash, port, token } => bstr(k_id()) + bstr(id@) + bstr(
            k_info_hash(),
        ) + bstr(info_hash@) + bstr(k_port()) + bint(port as nat) + bstr(k_token()) + bstr(
            token.0@,
        ),
    } + seq![101u8]
}

/// The response dictionary, keys in order.
pub open spec fn encode_response(r: Response) -> Seq<u8> {
    seq![100u8] + match r {
        Response::Ping { id } => bstr(k_id()) + bstr(id@),
        Response::AnnouncePeer { id } => bstr(k_id()) + bstr(id@),
        Response::FindNode { id, nodes } => bstr(k_id()) + bstr(id@) + bstr(k_nodes()) + bstr(
            encode_nodes(nodes),
        ),
        Response::GetPeers { id, token, values_or_nodes } => match values_or_nodes {
            ValuesOrNodes::Values { values } => bstr(k_id()) + bstr(id@) + bstr(k_token()) + bstr(
                token.0@,
            ) + bstr(k_values()) + seq![108u8] + encode_peers(values@) + seq![101u8],
            ValuesOrNodes::Nodes { nodes } => bstr(k_id()) + bstr(id@) + bstr(k_nodes()) + bstr(
                encode_nodes(nodes),
            ) + bstr(k_token()) + bstr(token.0@),
        },
    } + seq![101u8]
}

/// The errors, each an integer code or a UTF-8 description.
pub open spec fn encode_errors(es: Seq<Error>) -> Seq<u8>
    decreases es.len(),
{
    if es.len() == 0 {
        Seq::empty()
    } else {
        encode_errors(es.drop_last()) + match es.last() {
            Error::Code(c) => bint(c as nat),
            Error::Desc(d) => bstr(encode_utf8(d@)),
        }
    }
}

/// The `y` letter sent for a message type: `q`, `r`, or `e` for anything else.
pub open spec fn type_letter(y: MessageType) -> u8 {
    if y.0 == 113 {
        113
    } else if y.0 == 114 {
        114
    } else {
        101
    }
}

/// A message as a bencoded dictionary, keys in order.
pub open spec fn encode_message(m: Message) -> Seq<u8> {
    seq![100u8] + match m {
        Message::Query { transaction_id, msg_type, method_name, arguments } => bstr(k_a())
            + encode_arguments(arguments) + bstr(k_q()) + bstr(encode_utf8(method_name@)) + bstr(
            k_t(),
        ) + bstr(transaction_id.0@) + bstr(k_y()) + bstr(seq![type_letter(msg_type)]),
        Message::Response { transaction_id, msg_type, response } => bstr(k_r()) + encode_response(
            response,
        ) + bstr(k_t()) + bstr(transaction_id.0@) + bstr(k_y()) + bstr(seq![type_letter(msg_type)]),
        Message::Error { transaction_id, msg_type, error } => bstr(k_e()) + seq![108u8]
            + encode_errors(error@) + seq![101u8] + bstr(k_t()) + bstr(transaction_id.0@) + bstr(
            k_y(),
        ) + bstr(seq![type_letter(msg_type)]),
    } + seq![101u8]
}

/// Appends the decimal notation of `n`.
fn push_decimal(out: &mut Vec<u8>, n: u64)
    ensures
        final(out)@ == old(out)@ + decimal_bytes(n as nat),
    decreases n,
{
    if n >= 10 {
        push_decimal(out, n / 10);
    }
    let d = (n % 10) as u8;
    out.push(48 + d);
    proof {
        if n >= 10 {
            assert(decimal_bytes(n as nat) == decimal_bytes((n / 10) as nat).push((48 + n % 10) as u8));
        }
    }
}

/// Appends `b` as a byte string.
fn push_bstr(out: &mut Vec<u8>, b: &[u8])
    ensures
        final(out)@ == old(out)@ + bstr(b@),
{
    push_decimal(out, b.len() as u64);
    out.push(58);
    push_bytes(out, b);
}

/// Appends `n` as an integer.
fn push_int(out: &mut Vec<u8>, n: u64)
    ensures
        final(out)@ == old(out)@ + bint(n as nat),
{
    out.push(105);
    push_decimal(out, n);
    out.push(101);
}

/// Appends the compact form of `n`.
fn push_node(out: &mut Vec<u8>, n: &Node)
    ensures
        final(out)@ == old(out)@ + node_compact(*n),
{
    push_bytes(out, n.id.as_byte_ref());
    let addr = n.addr.to_compact_bytes();
    push_bytes(out, addr.as_slice());
}

/// The compact forms of the nodes.
fn nodes_bytes(n: &Nodes) -> (r: Vec<u8>)
    ensures
        r@ == encode_nodes(*n),
{
    let mut out: Vec<u8> = Vec::new();
    match n {
        Nodes::Exact(x) => {
            push_node(&mut out, x);
        },
        Nodes::Closest(v) => {
            let mut i: usize = 0;
            assert(v@.take(0) == Seq::<Node>::empty());
            while i < v.len()
                invariant
                    0 <= i <= v@.len(),
                    out@ == nodes_compact(v@.take(i as int)),
                decreases v@.len() - i,
            {
                assert(v@.take(i + 1).drop_last() == v@.take(i as int));
                push_node(&mut out, &v[i]);
                i += 1;
            }
            assert(v@.take(v@.len() as int) == v@);
        },
    }
    out
}

/// Appends the peers as byte strings.
fn push_peers(out: &mut Vec<u8>, ps: &Vec<Peer>)
    ensures
        final(out)@ == old(out)@ + encode_peers(ps@),
{
    let ghost start = out@;
    let mut i: usize = 0;
    assert(ps@.take(0) == Seq::<Peer>::empty());
    while i < ps.len()
        invariant
            0 <= i <= ps@.len(),
            out@ == start + encode_peers(ps@.take(i as int)),
        decreases ps@.len() - i,
    {
        assert(ps@.take(i + 1).drop_last() == ps@.take(i as int));
        let c = ps[i].to_compact_bytes();
        push_bstr(out, c.as_slice());
        i += 1;
    }
    assert(ps@.take(ps@.len() as int) == ps@);
}

/// Appends the arguments dictionary.
fn push_arguments(out: &mut Vec<u8>, a: &Arguments)
    ensures
        final(out)@ == old(out)@ + encode_arguments(*a),
{
    let ghost start = out@;
    out.push(100);
    push_bstr(out, &[105u8, 100]);
    match a {
        Arguments::Ping { id } => {
            push_bstr(out, id.as_byte_ref());
        },
        Arguments::FindNode { id, target } => {
            push_bstr(out, id.as_byte_ref());
            push_bstr(out, &[116u8, 97, 114, 103, 101, 116]);
            push_bstr(out, target.as_byte_ref());
        },
        Arguments::GetPeers { id, info_hash } => {
            push_bstr(out, id.as_byte_ref());
            push_bstr(out, &[105u8, 110, 102, 111, 95, 104, 97, 115, 104]);
            push_bstr(out, info_hash.as_byte_ref());
        },
        Arguments::AnnouncePeer { id, info_hash, port, token } => {
            push_bstr(out, id.as_byte_ref());
            push_bstr(out, &[105u8, 110, 102, 111, 95, 104, 97, 115, 104]);
            push_bstr(out, info_hash.as_byte_ref());
            push_bstr(out, &[112u8, 111, 114, 116]);
            push_int(out, *port as u64);
            push_bstr(out, &[116u8, 111, 107, 101, 110]);
            push_bstr(out, token.as_ref());
        },
    }
    out.push(101);
}

/// Appends the response dictionary.
fn push_response(out: &mut Vec<u8>, r: &Response)
    ensures
        final(out)@ == old(out)@ + encode_response(*r),
{
    out.push(100);
    push_bstr(out, &[105u8, 100]);
    match r {
        Response::Ping { id } => {
            push_bstr(out, id.as_byte_ref());
        },
        Response::AnnouncePeer { id } => {
            push_bstr(out, id.as_byte_ref());
        },
        Response::FindNode { id, nodes } => {
            push_bstr(out, id.as_byte_ref());
            push_bstr(out, &[110u8, 111, 100, 101, 115]);
            let nb = nodes_bytes(nodes);
            push_bstr(out, nb.as_slice());
        },
        Response::GetPeers { id, token, values_or_nodes } => {
            push_bstr(out, id.as_byte_ref());
            match values_or_nodes {
                ValuesOrNodes::Values { values } => {
                    push_bstr(out, &[116u8, 111, 107, 101, 110]);
                    push_bstr(out, token.as_ref());
                    push_bstr(out, &[118u8, 97, 108, 117, 101, 115]);
                    out.push(108);
                    push_peers(out, values);
                    out.push(101);
                },
                ValuesOrNodes::Nodes { nodes } => {
                    push_bstr(out, &[110u8, 111, 100, 101, 115]);
                    let nb = nodes_bytes(nodes);
                    push_bstr(out, nb.as_slice());
                    push_bstr(out, &[116u8, 111, 107, 101, 110]);
                    push_bstr(out, token.as_ref());
                },
            }
        },
    }
    out.push(101);
}

/// Appends the errors.
fn push_errors(out: &mut Vec<u8>, es: &Vec<Error>)
    ensures
        final(out)@ == old(out)@ + encode_errors(es@),
{
    let ghost start = out@;
    let mut i: usize = 0;
    assert(es@.take(0) == Seq::<Error>::empty());
    while i < es.len()
        invariant
            0 <= i <= es@.len(),
            out@ == start + encode_errors(es@.take(i as int)),
        decreases es@.len() - i,
    {
        assert(es@.take(i + 1).drop_last() == es@.take(i as int));
        match &es[i] {
            Error::Code(c) => push_int(out, *c as u64),
            Error::Desc(d) => {
                let b = d.as_str().as_bytes_vec();
                push_bstr(out, b.as_slice());
            },
        }
        i += 1;
    }
    assert(es@.take(es@.len() as int) == es@);
}

/// The letter sent for a message type.
fn type_letter_of(y: MessageType) -> (r: u8)
    ensures
        r == type_letter(y),
{
    if y.0 == 113 {
        113
    } else if y.0 == 114 {
        114
    } else {
        101
    }
}

/// Could not encode or decode a message.
#[derive(Debug, Clone, Copy, PartialEq, Eq, Structural)]
pub struct KrpcError;

impl Message {
    /// The message as a bencoded dictionary.
    pub fn into_bytes(self) -> (r: Result<Vec<u8>, KrpcError>)
        ensures
            r matches Ok(v) && v@ == encode_message(self),
    {
        let mut out: Vec<u8> = Vec::new();
        out.push(100);
        match &self {
            Message::Query { transaction_id, msg_type, method_name, arguments } => {
                push_bstr(&mut out, &[97u8]);
                push_arguments(&mut out, arguments);
                push_bstr(&mut out, &[113u8]);
                let mb = method_name.as_str().as_bytes_vec();
                push_bstr(&mut out, mb.as_slice());
                push_bstr(&mut out, &[116u8]);
                push_bstr(&mut out, transaction_id.as_ref());
                push_bstr(&mut out, &[121u8]);
                let y = [type_letter_of(*msg_type)];
                push_bstr(&mut out, &y);
            },
            Message::Response { transaction_id, msg_type, response } => {
                push_bstr(&mut out, &[114u8]);
                push_response(&mut out, response);
                push_bstr(&mut out, &[116u8]);
                push_bstr(&mut out, transaction_id.as_ref());
                push_bstr(&mut out, &[121u8]);
                let y = [type_letter_of(*msg_type)];
                push_bstr(&mut out, &y);
            },
            Message::Error { transaction_id, msg_type, error } => {
                push_bstr(&mut out, &[101u8]);
                out.push(108);
                push_errors(&mut out, error);
                out.push(101);
                push_bstr(&mut out, &[116u8]);
                push_bstr(&mut out, transaction_id.as_ref());
                push_bstr(&mut out, &[121u8]);
                let y = [type_letter_of(*msg_type)];
                push_bstr(&mut out, &y);
            },
        }
        out.push(101);
        Ok(out)
    }
}

/// What a request asked for.
#[derive(Debug, Clone, Copy, PartialEq, Eq, Structural)]
pub enum RequestType {
    Ping,
    FindNode,
    GetPeers,
    AnnouncePeer,
}

/// The kind of a query's arguments.
pub open spec fn arguments_kind(a: Arguments) -> RequestType {
    match a {
        Arguments::Ping { .. } => RequestType::Ping,
        Arguments::FindNode { .. } => RequestType::FindNode,
        Arguments::GetPeers { .. } => RequestType::GetPeers,
        Arguments::AnnouncePeer { .. } => RequestType::AnnouncePeer,
    }
}

/// The kind of a response.
pub open spec fn response_kind(r: Response) -> RequestType {
    match r {
        Response::Ping { .. } => RequestType::Ping,
        Response::FindNode { .. } => RequestType::FindNode,
        Response::GetPeers { .. } => RequestType::GetPeers,
        Response::AnnouncePeer { .. } => RequestType::AnnouncePeer,
    }
}

impl RequestType {
    /// The kind of a query.
    pub fn from_message(item: &Message) -> (r: RequestType)
        requires
            item is Query,
        ensures
            r == arguments_kind(item->arguments),
    {
        match item {
            Message::Query { arguments, .. } => match arguments {
                Arguments::Ping { .. } => RequestType::Ping,
                Arguments::FindNode { .. } => RequestType::FindNode,
                Arguments::GetPeers { .. } => RequestType::GetPeers,
                Arguments::AnnouncePeer { .. } => RequestType::AnnouncePeer,
            },
            _ => RequestType::Ping,
        }
    }

    /// The kind of a response.
    pub fn from_response(response: &Response) -> (r: RequestType)
        ensures
            r == response_kind(*response),
    {
        match response {
            Response::Ping { .. } => RequestType::Ping,
            Response::FindNode { .. } => RequestType::FindNode,
            Response::GetPeers { .. } => RequestType::GetPeers,
            Response::AnnouncePeer { .. } => RequestType::AnnouncePeer,
        }
    }
}

/// A query to send, before it has an id and a transaction id.
#[derive(Debug, Clone)]
pub enum ToConQuery {
    Ping,
    FindNode { target: ID },
    GetPeers { info_hash: ID },
    AnnouncePeer { info_hash: ID, port: u16, token: NoSizeBytes },
}

/// A response to send, before it has an id and a transaction id.
#[derive(Debug, Clone)]
pub enum ToConResp {
    Ping,
    FindNode { nodes: Nodes },
    GetPeers { values_or_nodes: ValuesOrNodes },
    AnnouncePeer,
}

/// The arguments a query carries from `own_node_id`.
pub open spec fn query_arguments(q: ToConQuery, own_node_id: ID) -> Arguments {
    match q {
        ToConQuery::Ping => Arguments::Ping { id: own_node_id },
        ToConQuery::FindNode { target } => Arguments::FindNode { id: own_node_id, target },
        ToConQuery::GetPeers { info_hash } => Arguments::GetPeers { id: own_node_id, info_hash },
        ToConQuery::AnnouncePeer { info_hash, port, token } => Arguments::AnnouncePeer {
            id: own_node_id,
            info_hash,
            port,
            token,
        },
    }
}

/// The method name of a query.
pub open spec fn query_method(q: ToConQuery) -> Seq<char> {
    match q {
        ToConQuery::Ping => "ping"@,
        ToConQuery::FindNode { .. } => "find_node"@,
        ToConQuery::GetPeers { .. } => "get_peers"@,
        ToConQuery::AnnouncePeer { .. } => "announce_peer"@,
    }
}

impl ToConQuery {
    /// The query message from `own_node_id`, with a fresh transaction id.
    pub fn into_message(self, own_node_id: &ID) -> (r: Message)
        ensures
            r matches Message::Query { transaction_id, msg_type, method_name, arguments }
                && transaction_id.0@.len() == MY_TID_LEN && msg_type == MessageType(113)
                && method_name@ == query_method(self) && arguments == query_arguments(
                self,
                *own_node_id,
            ),
    {
        let transaction_id = rand_tid();
        match self {
            ToConQuery::Ping => Message::ping_query(own_node_id, transaction_id),
            ToConQuery::FindNode { target } => Message::find_nodes_query(own_node_id, &target, transaction_id),
            ToConQuery::GetPeers { info_hash } => Message::get_peers_query(own_node_id, &info_hash, transaction_id),
            ToConQuery::AnnouncePeer { info_hash, port, token } => Message::announce_peer_query(
                own_node_id,
                &info_hash,
                port,
                token,
                transaction_id,
            ),
        }
    }
}

/// The response a node gives, from `own_node_id`.
pub open spec fn response_of_command(r: ToConResp, own_node_id: ID, token: NoSizeBytes) -> Response {
    match r {
        ToConResp::Ping => Response::Ping { id: own_node_id },
        ToConResp::FindNode { nodes } => Response::FindNode { id: own_node_id, nodes },
        ToConResp::GetPeers { values_or_nodes } => Response::GetPeers {
            id: own_node_id,
            token,
            values_or_nodes,
        },
        ToConResp::AnnouncePeer => Response::AnnouncePeer { id: own_node_id },
    }
}

impl ToConResp {
    /// The response message from `own_node_id` for the query `transaction_id`; `token` is
    /// handed out with peers.
    pub fn into_message(self, own_node_id: &ID, transaction_id: NoSizeBytes, token: NoSizeBytes) -> (r: Message)
        ensures
            r == (Message::Response {
                transaction_id,
                msg_type: MessageType(114),
                response: response_of_command(self, *own_node_id, token),
            }),
    {
        match self {
            ToConResp::Ping => Message::ping_resp(own_node_id, transaction_id),
            ToConResp::FindNode { nodes } => Message::find_nodes_resp(own_node_id, nodes, transaction_id),
            ToConResp::GetPeers { values_or_nodes } => Message::get_peers_resp(
                own_node_id,
                token,
                values_or_nodes,
                transaction_id,
            ),
            ToConResp::AnnouncePeer => Message::announce_peer_resp(own_node_id, transaction_id),
        }
    }
}

/// Requests sent and not yet answered, by transaction id, each with what it asked for and
/// who waits for the answer.
#[derive(Debug, Clone)]
pub struct PendingRequests<R> {
    data: Vec<(Vec<u8>, RequestType, R)>,
}

impl<R> PendingRequests<R> {
    /// The requests, oldest first.
    pub closed spec fn entries(self) -> Seq<(Seq<u8>, RequestType, R)> {
        self.data@.map_values(|e: (Vec<u8>, RequestType, R)| (e.0@, e.1, e.2))
    }

    /// No transaction id occurs twice.
    pub open spec fn wf(self) -> bool {
        forall|i: int, j: int|
            0 <= i < j < self.entries().len() ==> #[trigger] self.entries()[i].0
                != #[trigger] self.entries()[j].0
    }

    pub fn new() -> (r: Self)
        ensures
            r.wf(),
            r.entries().len() == 0,
    {
        let r = PendingRequests { data: Vec::new() };
        assert(r.entries() =~= Seq::<(Seq<u8>, RequestType, R)>::empty());
        r
    }

    fn position(&self, tid: &[u8]) -> (r: Option<usize>)
        requires
            self.wf(),
        ensures
            r matches Some(i) ==> i < self.entries().len() && self.entries()[i as int].0 == tid@,
            r is None ==> forall|i: int| 0 <= i < self.entries().len() ==> #[trigger] self.entries()[i].0 != tid@,
    {
        let mut i: usize = 0;
        while i < self.data.len()
            invariant
                0 <= i <= self.data@.len(),
                forall|k: int| 0 <= k < i ==> #[trigger] self.entries()[k].0 != tid@,
            decreases self.data@.len() - i,
        {
            if bytes_eq(self.data[i].0.as_slice(), tid) {
                return Some(i);
            }
            i += 1;
        }
        None
    }

    /// Takes the waiter of request `tid` if it asked for `response_type`; a request of another
    /// kind stays.
    pub fn get(&mut self, tid: &[u8], response_type: RequestType) -> (r: Option<R>)
        requires
            old(self).wf(),
        ensures
            final(self).wf(),
            match pending_index(old(self).entries(), tid@) {
                Some(i) => if old(self).entries()[i].1 == response_type {
                    r == Some(old(self).entries()[i].2) && final(self).entries() == old(self).entries().remove(i)
                } else {
                    r is None && final(self).entries() == old(self).entries()
                },
                None => r is None && final(self).entries() == old(self).entries(),
            },
    {
        match self.position(tid) {
            Some(i) => {
                proof {
                    assert(pending_index(self.entries(), tid@) == Some(i as int)) by {
                        lemma_pending_index(self.entries(), tid@, i as int);
                    }
                }
                if self.data[i].1 == response_type {
                    let ghost before = self.data@;
                    let e = self.data.remove(i);
                    proof {
                        assert(self.entries() =~= old(self).entries().remove(i as int));
                        assert forall|a: int, b: int| 0 <= a < b < self.entries().len() implies #[trigger] self.entries()[a].0
                            != #[trigger] self.entries()[b].0 by {
                            let a2 = if a < i { a } else { a + 1 };
                            let b2 = if b < i { b } else { b + 1 };
                            assert(old(self).entries()[a2].0 != old(self).entries()[b2].0);
                        }
                    }
                    Some(e.2)
                } else {
                    None
                }
            },
            None => {
                proof {
                    assert(pending_index(self.entries(), tid@) is None);
                }
                None
            },
        }
    }

    /// Records the request `tid`, replacing an earlier one with the same transaction id.
    pub fn insert(&mut self, tid: Vec<u8>, req_type: RequestType, requester: R)
        requires
            old(self).wf(),
        ensures
            final(self).wf(),
            final(self).entries() == match pending_index(old(self).entries(), tid@) {
                Some(i) => old(self).entries().remove(i),
                None => old(self).entries(),
            }.push((tid@, req_type, requester)),
    {
        let ghost tv = tid@;
        let ghost e0 = self.entries();
        match self.position(tid.as_slice()) {
            Some(i) => {
                proof {
                    lemma_pending_index(e0, tv, i as int);
                }
                let _ = self.data.remove(i);
                proof {
                    assert(self.entries() =~= e0.remove(i as int));
                }
            },
            None => {
                proof {
                    assert(pending_index(e0, tv) is None);
                }
            },
        }
        let ghost mid = self.entries();
        proof {
            assert forall|a: int| 0 <= a < mid.len() implies #[trigger] mid[a].0 != tv by {
                if let Some(i) = pending_index(e0, tv) {
                    let a2 = if a < i { a } else { a + 1 };
                    assert(mid[a] == e0[a2]);
                    if a2 < i {
                        assert(e0[a2].0 != e0[i].0);
                    } else {
                        assert(e0[i].0 != e0[a2].0);
                    }
                }
            }
            assert forall|a: int, b: int| 0 <= a < b < mid.len() implies #[trigger] mid[a].0 != #[trigger] mid[b].0 by {
                if let Some(i) = pending_index(e0, tv) {
                    let a2 = if a < i { a } else { a + 1 };
                    let b2 = if b < i { b } else { b + 1 };
                    assert(e0[a2].0 != e0[b2].0);
                }
            }
        }
        self.data.push((tid, req_type, requester));
        proof {
            assert(self.entries() =~= mid.push((tv, req_type, requester)));
        }
    }
}

/// Position of the request `tid`, if any.
pub open spec fn pending_index<R>(e: Seq<(Seq<u8>, RequestType, R)>, tid: Seq<u8>) -> Option<int> {
    if exists|i: int| 0 <= i < e.len() && e[i].0 == tid {
        Some(choose|i: int| 0 <= i < e.len() && e[i].0 == tid)
    } else {
        None
    }
}

/// What `PendingRequests::insert` makes of the entries.
pub open spec fn entries_after_insert<R>(e: Seq<(Seq<u8>, RequestType, R)>, tid: Seq<u8>, kind: RequestType, requester: R) -> Seq<(Seq<u8>, RequestType, R)> {
    match pending_index(e, tid) {
        Some(i) => e.remove(i),
        None => e,
    }.push((tid, kind, requester))
}

/// An answer is handed to the requester last recorded under its transaction id, whatever
/// was pending before: after `insert`, `get` under that id finds that requester and its
/// kind, and once it has handed it out nothing waits under that id.
pub proof fn lemma_insert_then_get<R>(e: Seq<(Seq<u8>, RequestType, R)>, tid: Seq<u8>, kind: RequestType, requester: R)
    requires
        forall|a: int, b: int| 0 <= a < b < e.len() ==> #[trigger] e[a].0 != #[trigger] e[b].0,
    ensures
        ({
            let e1 = entries_after_insert(e, tid, kind, requester);
            &&& pending_index(e1, tid) == Some(e1.len() - 1)
            &&& e1[e1.len() - 1].1 == kind
            &&& e1[e1.len() - 1].2 == requester
            &&& pending_index(e1.remove(e1.len() - 1), tid) is None
        }),
{
    let e0 = match pending_index(e, tid) {
        Some(i) => e.remove(i),
        None => e,
    };
    let e1 = e0.push((tid, kind, requester));
    assert forall|a: int| 0 <= a < e0.len() implies e0[a].0 != tid by {
        match pending_index(e, tid) {
            Some(i) => {
                let j = if a < i { a } else { a + 1 };
                assert(e0[a] == e[j]);
                if j < i {
                    assert(e[j].0 != e[i].0);
                } else {
                    assert(e[i].0 != e[j].0);
                }
            },
            None => {},
        }
    }
    assert forall|a: int, b: int| 0 <= a < b < e1.len() implies #[trigger] e1[a].0 != #[trigger] e1[b].0 by {
        if b == e0.len() {
            assert(e0[a].0 != tid);
        } else {
            match pending_index(e, tid) {
                Some(i) => {
                    let x = if a < i { a } else { a + 1 };
                    let y = if b < i { b } else { b + 1 };
                    assert(e[x].0 != e[y].0);
                },
                None => {},
            }
        }
    }
    lemma_pending_index(e1, tid, e1.len() - 1);
    assert(e1.remove(e1.len() - 1) =~= e0);
}

proof fn lemma_pending_index<R>(e: Seq<(Seq<u8>, RequestType, R)>, tid: Seq<u8>, i: int)
    requires
        0 <= i < e.len(),
        e[i].0 == tid,
        forall|a: int, b: int| 0 <= a < b < e.len() ==> #[trigger] e[a].0 != #[trigger] e[b].0,
    ensures
        pending_index(e, tid) == Some(i),
{
    let j = choose|j: int| 0 <= j < e.len() && e[j].0 == tid;
    if j < i {
        assert(e[j].0 != e[i].0);
    } else if j > i {
        assert(e[i].0 != e[j].0);
    }
}

/// `a` and `b` hold the same bytes.
pub(crate) fn bytes_eq(a: &[u8], b: &[u8]) -> (r: bool)
    ensures
        r == (a@ == b@),
{
    if a.len() != b.len() {
        return false;
    }
    let mut i: usize = 0;
    while i < a.len()
        invariant
            a@.len() == b@.len(),
            0 <= i <= a@.len(),
            forall|k: int| 0 <= k < i ==> a@[k] == b@[k],
        decreases a@.len() - i,
    {
        if a[i] != b[i] {
            return false;
        }
        i += 1;
    }
    assert(a@ =~= b@);
    true
}

} // verus!
