//! Reading KRPC messages from their bencoded form.
//!
//! A message is a dictionary. Its variant is the first of query, response and error whose
//! fields are all present and well formed: a query has `t`, `y`, `q` and `a`; a response
//! `t`, `y` and `r`; an error `t`, `y` and `e`. Arguments and responses take likewise the
//! first of their variants whose fields are there; other keys are skipped.
use vstd::prelude::*;
use crate::bencode::{
    bytes_at, uint_at, text_at, dict_fold, list_fold, prev_key, next_entry, key_is, read_text,
    read_uint, read_bytes, scan_value,
};
use crate::id::ID;
use crate::krpc::{Arguments, Error, Message, MessageType, Response, ValuesOrNodes};
use crate::peer::{Peer, ipv4_of, port_of, socketaddr_from_compact_bytes};
use crate::peer_message::NoSizeBytes;
use crate::routing_table::{Node, Nodes};

verus! {

/// How deep containers may nest in a message.
pub const KRPC_DEPTH: usize = 2047;

/// A node as read: identifier, address, and when it was last heard from.
pub struct NodeV {
    pub id: Seq<u8>,
    pub addr: Peer,
    pub last_seen: Option<u64>,
}

pub enum NodesV {
    Exact(NodeV),
    Closest(Seq<NodeV>),
}

pub enum ValuesOrNodesV {
    Values(Seq<Peer>),
    Nodes(NodesV),
}

pub enum ArgumentsV {
    AnnouncePeer { id: Seq<u8>, info_hash: Seq<u8>, port: u16, token: Seq<u8> },
    FindNode { id: Seq<u8>, target: Seq<u8> },
    GetPeers { id: Seq<u8>, info_hash: Seq<u8> },
    Ping { id: Seq<u8> },
}

pub enum ResponseV {
    GetPeers { id: Seq<u8>, token: Seq<u8>, values_or_nodes: ValuesOrNodesV },
    FindNode { id: Seq<u8>, nodes: NodesV },
    Ping { id: Seq<u8> },
    AnnouncePeer { id: Seq<u8> },
}

pub enum ErrorV {
    Code(u32),
    Desc(Seq<char>),
}

pub enum MessageV {
    Query { tid: Seq<u8>, y: u8, method: Seq<char>, arguments: ArgumentsV },
    Response { tid: Seq<u8>, y: u8, response: ResponseV },
    Error { tid: Seq<u8>, y: u8, errors: Seq<ErrorV> },
}

pub open spec fn node_v(n: Node) -> NodeV {
    NodeV { id: n.id@, addr: n.addr, last_seen: n.last_seen }
}

pub open spec fn nodes_v(n: Nodes) -> NodesV {
    match n {
        Nodes::Exact(x) => NodesV::Exact(node_v(x)),
        Nodes::Closest(v) => NodesV::Closest(v@.map_values(|x: Node| node_v(x))),
    }
}

pub open spec fn von_v(v: ValuesOrNodes) -> ValuesOrNodesV {
    match v {
        ValuesOrNodes::Values { values } => ValuesOrNodesV::Values(values@),
        ValuesOrNodes::Nodes { nodes } => ValuesOrNodesV::Nodes(nodes_v(nodes)),
    }
}

pub open spec fn arguments_v(a: Arguments) -> ArgumentsV {
    match a {
        Arguments::AnnouncePeer { id, info_hash, port, token } => ArgumentsV::AnnouncePeer {
            id: id@,
            info_hash: info_hash@,
            port,
            token: token.0@,
        },
        Arguments::FindNode { id, target } => ArgumentsV::FindNode { id: id@, target: target@ },
        Arguments::GetPeers { id, info_hash } => ArgumentsV::GetPeers { id: id@, info_hash: info_hash@ },
        Arguments::Ping { id } => ArgumentsV::Ping { id: id@ },
    }
}

pub open spec fn response_v(r: Response) -> ResponseV {
    match r {
        Response::GetPeers { id, token, values_or_nodes } => ResponseV::GetPeers {
            id: id@,
            token: token.0@,
            values_or_nodes: von_v(values_or_nodes),
        },
        Response::FindNode { id, nodes } => ResponseV::FindNode { id: id@, nodes: nodes_v(nodes) },
        Response::Ping { id } => ResponseV::Ping { id: id@ },
        Response::AnnouncePeer { id } => ResponseV::AnnouncePeer { id: id@ },
    }
}

pub open spec fn error_v(e: Error) -> ErrorV {
    match e {
        Error::Code(c) => ErrorV::Code(c),
        Error::Desc(d) => ErrorV::Desc(d@),
    }
}

pub open spec fn message_v(m: Message) -> MessageV {
    match m {
        Message::Query { transaction_id, msg_type, method_name, arguments } => MessageV::Query {
            tid: transaction_id.0@,
            y: msg_type.0,
            method: method_name@,
            arguments: arguments_v(arguments),
        },
        Message::Response { transaction_id, msg_type, response } => MessageV::Response {
            tid: transaction_id.0@,
            y: msg_type.0,
            response: response_v(response),
        },
        Message::Error { transaction_id, msg_type, error } => MessageV::Error {
            tid: transaction_id.0@,
            y: msg_type.0,
            errors: errors_v(error@),
        },
    }
}

/// A twenty-byte identifier at `p`.
pub open spec fn id_at(s: Seq<u8>, p: int) -> Option<Seq<u8>> {
    match bytes_at(s, p) {
        Some(b) => if b.len() == 20 {
            Some(b)
        } else {
            None
        },
        None => None,
    }
}

/// A port number at `p`.
pub open spec fn port_at(s: Seq<u8>, p: int) -> Option<u16> {
    match uint_at(s, p) {
        Some(n) => if n <= 0xffff {
            Some(n as u16)
        } else {
            None
        },
        None => None,
    }
}

/// The message type at `p`: one of the letters `q`, `r`, `e`.
pub open spec fn type_at(s: Seq<u8>, p: int) -> Option<u8> {
    match bytes_at(s, p) {
        Some(b) => if b.len() == 1 && (b[0] == 113 || b[0] == 114 || b[0] == 101) {
            Some(b[0])
        } else {
            None
        },
        None => None,
    }
}

/// A peer from its six compact bytes.
pub open spec fn peer_of(b: Seq<u8>) -> Peer {
    Peer { ip: ipv4_of(b[0], b[1], b[2], b[3]), port: port_of(b[4], b[5]) }
}

/// A node from its twenty-six compact bytes.
pub open spec fn node_of(b: Seq<u8>) -> NodeV {
    NodeV { id: b.subrange(0, 20), addr: peer_of(b.subrange(20, 26)), last_seen: None }
}

/// Nodes from their compact bytes: one node is exact, any other count (none included) is a
/// list of the closest; a length that is not a multiple of twenty-six is refused.
pub open spec fn nodes_of(b: Seq<u8>) -> Option<NodesV> {
    if b.len() % 26 != 0 {
        None
    } else if b.len() / 26 == 1 {
        Some(NodesV::Exact(node_of(b)))
    } else {
        Some(NodesV::Closest(Seq::new(b.len() / 26, |i: int| node_of(b.subrange(26 * i, 26 * i + 26)))))
    }
}

pub open spec fn nodes_at(s: Seq<u8>, p: int) -> Option<NodesV> {
    match bytes_at(s, p) {
        Some(b) => nodes_of(b),
        None => None,
    }
}

pub open spec fn peers_handler(s: Seq<u8>) -> spec_fn(int, Seq<Peer>) -> Option<Seq<Peer>> {
    |p: int, acc: Seq<Peer>|
        match bytes_at(s, p) {
            Some(b) => if b.len() == 6 {
                Some(acc.push(peer_of(b)))
            } else {
                None
            },
            None => None,
        }
}

/// A list of compact peers at `p`.
pub open spec fn peers_at(s: Seq<u8>, p: int, d: nat) -> Option<Seq<Peer>> {
    if 0 <= p < s.len() && s[p] == 108 && d >= 1 {
        list_fold(s, p + 1, (d - 1) as nat, Seq::empty(), peers_handler(s))
    } else {
        None
    }
}

/// An error item: a code that fits 32 bits, else a text.
pub open spec fn error_item_at(s: Seq<u8>, p: int) -> Option<ErrorV> {
    match uint_at(s, p) {
        Some(n) => if n <= u32::MAX {
            Some(ErrorV::Code(n as u32))
        } else {
            None
        },
        None => match text_at(s, p) {
            Some(t) => Some(ErrorV::Desc(t)),
            None => None,
        },
    }
}

pub open spec fn errors_handler(s: Seq<u8>) -> spec_fn(int, Seq<ErrorV>) -> Option<Seq<ErrorV>> {
    |p: int, acc: Seq<ErrorV>|
        match error_item_at(s, p) {
            Some(e) => Some(acc.push(e)),
            None => None,
        }
}

/// A list of error items at `p`.
pub open spec fn errors_at(s: Seq<u8>, p: int, d: nat) -> Option<Seq<ErrorV>> {
    if 0 <= p < s.len() && s[p] == 108 && d >= 1 {
        list_fold(s, p + 1, (d - 1) as nat, Seq::empty(), errors_handler(s))
    } else {
        None
    }
}

/// Each field of an argument dictionary: absent, or present with its value if well formed.
pub struct ArgsAcc {
    pub id: Option<Option<Seq<u8>>>,
    pub info_hash: Option<Option<Seq<u8>>>,
    pub port: Option<Option<u16>>,
    pub target: Option<Option<Seq<u8>>>,
    pub token: Option<Option<Seq<u8>>>,
}

pub open spec fn empty_args() -> ArgsAcc {
    ArgsAcc { id: None, info_hash: None, port: None, target: None, token: None }
}

pub open spec fn key_id() -> Seq<u8> {
    seq![105u8, 100]
}

pub open spec fn key_info_hash() -> Seq<u8> {
    seq![105u8, 110, 102, 111, 95, 104, 97, 115, 104]
}

pub open spec fn key_port() -> Seq<u8> {
    seq![112u8, 111, 114, 116]
}

pub open spec fn key_target() -> Seq<u8> {
    seq![116u8, 97, 114, 103, 101, 116]
}

pub open spec fn key_token() -> Seq<u8> {
    seq![116u8, 111, 107, 101, 110]
}

pub open spec fn key_nodes() -> Seq<u8> {
    seq![110u8, 111, 100, 101, 115]
}

pub open spec fn key_values() -> Seq<u8> {
    seq![118u8, 97, 108, 117, 101, 115]
}

pub open spec fn args_field(s: Seq<u8>, key: Seq<u8>, v: int, acc: ArgsAcc) -> Option<ArgsAcc> {
    if key == key_id() {
        Some(ArgsAcc { id: Some(id_at(s, v)), ..acc })
    } else if key == key_info_hash() {
        Some(ArgsAcc { info_hash: Some(id_at(s, v)), ..acc })
    } else if key == key_port() {
        Some(ArgsAcc { port: Some(port_at(s, v)), ..acc })
    } else if key == key_target() {
        Some(ArgsAcc { target: Some(id_at(s, v)), ..acc })
    } else if key == key_token() {
        Some(ArgsAcc { token: Some(bytes_at(s, v)), ..acc })
    } else {
        Some(acc)
    }
}

pub open spec fn args_handler(s: Seq<u8>) -> spec_fn(Seq<u8>, int, ArgsAcc) -> Option<ArgsAcc> {
    |key: Seq<u8>, v: int, acc: ArgsAcc| args_field(s, key, v, acc)
}

/// The fields of the argument dictionary at `p`.
pub open spec fn args_at(s: Seq<u8>, p: int, d: nat) -> Option<ArgsAcc> {
    if 0 <= p < s.len() && s[p] == 100 && d >= 1 {
        dict_fold(s, p + 1, (d - 1) as nat, None, empty_args(), args_handler(s))
    } else {
        None
    }
}

/// A field that is present and well formed.
pub open spec fn good<T>(f: Option<Option<T>>) -> bool {
    f matches Some(Some(_))
}

pub open spec fn val<T>(f: Option<Option<T>>) -> T {
    f->0->0
}

/// The arguments: an announce when it has an identifier, an info hash, a port and a token;
/// else a node lookup when it has an identifier and a target; else a peer lookup when it has
/// an identifier and an info hash; else a ping when it has an identifier.
pub open spec fn args_variant(a: ArgsAcc) -> Option<ArgumentsV> {
    if good(a.id) && good(a.info_hash) && good(a.port) && good(a.token) {
        Some(ArgumentsV::AnnouncePeer { id: val(a.id), info_hash: val(a.info_hash), port: val(a.port), token: val(a.token) })
    } else if good(a.id) && good(a.target) {
        Some(ArgumentsV::FindNode { id: val(a.id), target: val(a.target) })
    } else if good(a.id) && good(a.info_hash) {
        Some(ArgumentsV::GetPeers { id: val(a.id), info_hash: val(a.info_hash) })
    } else if good(a.id) {
        Some(ArgumentsV::Ping { id: val(a.id) })
    } else {
        None
    }
}

/// Each field of a response dictionary: absent, or present with its value if well formed.
pub struct RespAcc {
    pub id: Option<Option<Seq<u8>>>,
    pub nodes: Option<Option<NodesV>>,
    pub token: Option<Option<Seq<u8>>>,
    pub values: Option<Option<Seq<Peer>>>,
}

pub open spec fn empty_resp() -> RespAcc {
    RespAcc { id: None, nodes: None, token: None, values: None }
}

pub open spec fn resp_field(s: Seq<u8>, d: nat, key: Seq<u8>, v: int, acc: RespAcc) -> Option<RespAcc> {
    if key == key_id() {
        Some(RespAcc { id: Some(id_at(s, v)), ..acc })
    } else if key == key_nodes() {
        Some(RespAcc { nodes: Some(nodes_at(s, v)), ..acc })
    } else if key == key_token() {
        Some(RespAcc { token: Some(bytes_at(s, v)), ..acc })
    } else if key == key_values() {
        Some(RespAcc { values: Some(peers_at(s, v, d)), ..acc })
    } else {
        Some(acc)
    }
}

pub open spec fn resp_handler(s: Seq<u8>, d: nat) -> spec_fn(Seq<u8>, int, RespAcc) -> Option<RespAcc> {
    |key: Seq<u8>, v: int, acc: RespAcc| resp_field(s, d, key, v, acc)
}

/// The fields of the response dictionary at `p`.
pub open spec fn resp_at(s: Seq<u8>, p: int, d: nat) -> Option<RespAcc> {
    if 0 <= p < s.len() && s[p] == 100 && d >= 1 {
        dict_fold(s, p + 1, (d - 1) as nat, None, empty_resp(), resp_handler(s, (d - 1) as nat))
    } else {
        None
    }
}

/// The response: peers or nodes for a peer lookup when it has an identifier, a token and
/// values or nodes (values first); else nodes for a node lookup when it has an identifier and
/// nodes; else a ping answer when it has an identifier. (An announce answer reads as a ping
/// answer: the two have the same fields.)
pub open spec fn resp_variant(a: RespAcc) -> Option<ResponseV> {
    if good(a.id) && good(a.token) && (good(a.values) || good(a.nodes)) {
        Some(
            ResponseV::GetPeers {
                id: val(a.id),
                token: val(a.token),
                values_or_nodes: if good(a.values) {
                    ValuesOrNodesV::Values(val(a.values))
                } else {
                    ValuesOrNodesV::Nodes(val(a.nodes))
                },
            },
        )
    } else if good(a.id) && good(a.nodes) {
        Some(ResponseV::FindNode { id: val(a.id), nodes: val(a.nodes) })
    } else if good(a.id) {
        Some(ResponseV::Ping { id: val(a.id) })
    } else {
        None
    }
}

/// Each field of a message dictionary: absent, or present with its value if well formed.
pub struct MsgAcc {
    pub a: Option<Option<ArgumentsV>>,
    pub e: Option<Option<Seq<ErrorV>>>,
    pub q: Option<Option<Seq<char>>>,
    pub r: Option<Option<ResponseV>>,
    pub t: Option<Option<Seq<u8>>>,
    pub y: Option<Option<u8>>,
}

pub open spec fn empty_msg() -> MsgAcc {
    MsgAcc { a: None, e: None, q: None, r: None, t: None, y: None }
}

#[verifier::opaque]
pub open spec fn msg_field(s: Seq<u8>, d: nat, key: Seq<u8>, v: int, acc: MsgAcc) -> Option<MsgAcc> {
    if key == seq![97u8] {
        Some(MsgAcc {
            a: Some(
                match args_at(s, v, d) {
                    Some(x) => args_variant(x),
                    None => None,
                },
            ),
            ..acc
        })
    } else if key == seq![101u8] {
        Some(MsgAcc { e: Some(errors_at(s, v, d)), ..acc })
    } else if key == seq![113u8] {
        Some(MsgAcc { q: Some(text_at(s, v)), ..acc })
    } else if key == seq![114u8] {
        Some(MsgAcc {
            r: Some(
                match resp_at(s, v, d) {
                    Some(x) => resp_variant(x),
                    None => None,
                },
            ),
            ..acc
        })
    } else if key == seq![116u8] {
        Some(MsgAcc { t: Some(bytes_at(s, v)), ..acc })
    } else if key == seq![121u8] {
        Some(MsgAcc { y: Some(type_at(s, v)), ..acc })
    } else {
        Some(acc)
    }
}

pub open spec fn msg_handler(s: Seq<u8>, d: nat) -> spec_fn(Seq<u8>, int, MsgAcc) -> Option<MsgAcc> {
    |key: Seq<u8>, v: int, acc: MsgAcc| msg_field(s, d, key, v, acc)
}

/// The message the fields make: a query, else a response, else an error.
pub open spec fn msg_variant(m: MsgAcc) -> Option<MessageV> {
    if !(good(m.t) && good(m.y)) {
        None
    } else if good(m.q) && good(m.a) {
        Some(MessageV::Query { tid: val(m.t), y: val(m.y), method: val(m.q), arguments: val(m.a) })
    } else if good(m.r) {
        Some(MessageV::Response { tid: val(m.t), y: val(m.y), response: val(m.r) })
    } else if good(m.e) {
        Some(MessageV::Error { tid: val(m.t), y: val(m.y), errors: val(m.e) })
    } else {
        None
    }
}

/// The message that the bytes `s` start with, if they start with one.
pub open spec fn message_of(s: Seq<u8>) -> Option<MessageV> {
    if s.len() > 0 && s[0] == 100 {
        match dict_fold(s, 1, KRPC_DEPTH as nat, None, empty_msg(), msg_handler(s, KRPC_DEPTH as nat)) {
            Some(m) => msg_variant(m),
            None => None,
        }
    } else {
        None
    }
}

/// The view of an exec field accumulator.
pub open spec fn oo_id(o: Option<Option<ID>>) -> Option<Option<Seq<u8>>> {
    match o {
        Some(Some(x)) => Some(Some(x@)),
        Some(None) => Some(None),
        None => None,
    }
}

pub open spec fn oo_bytes(o: Option<Option<Vec<u8>>>) -> Option<Option<Seq<u8>>> {
    match o {
        Some(Some(x)) => Some(Some(x@)),
        Some(None) => Some(None),
        None => None,
    }
}

pub open spec fn oo_nodes(o: Option<Option<Nodes>>) -> Option<Option<NodesV>> {
    match o {
        Some(Some(x)) => Some(Some(nodes_v(x))),
        Some(None) => Some(None),
        None => None,
    }
}

pub open spec fn oo_peers(o: Option<Option<Vec<Peer>>>) -> Option<Option<Seq<Peer>>> {
    match o {
        Some(Some(x)) => Some(Some(x@)),
        Some(None) => Some(None),
        None => None,
    }
}

pub open spec fn oo_args(o: Option<Option<Arguments>>) -> Option<Option<ArgumentsV>> {
    match o {
        Some(Some(x)) => Some(Some(arguments_v(x))),
        Some(None) => Some(None),
        None => None,
    }
}

pub open spec fn oo_resp(o: Option<Option<Response>>) -> Option<Option<ResponseV>> {
    match o {
        Some(Some(x)) => Some(Some(response_v(x))),
        Some(None) => Some(None),
        None => None,
    }
}

/// The views of a list of errors.
pub open spec fn errors_v(v: Seq<Error>) -> Seq<ErrorV> {
    v.map_values(|e: Error| error_v(e))
}

pub open spec fn oo_errors(o: Option<Option<Vec<Error>>>) -> Option<Option<Seq<ErrorV>>> {
    match o {
        Some(Some(x)) => Some(Some(errors_v(x@))),
        Some(None) => Some(None),
        None => None,
    }
}

pub open spec fn oo_text(o: Option<Option<String>>) -> Option<Option<Seq<char>>> {
    match o {
        Some(Some(x)) => Some(Some(x@)),
        Some(None) => Some(None),
        None => None,
    }
}

fn read_id(s: &[u8], p: usize) -> (r: Option<ID>)
    requires
        p <= s@.len(),
    ensures
        match id_at(s@, p as int) {
            Some(b) => r matches Some(x) && x@ == b,
            None => r is None,
        },
{
    match read_bytes(s, p) {
        Some(b) => if b.len() == 20 {
            Some(ID::from_vec(b))
        } else {
            None
        },
        None => None,
    }
}

fn read_port(s: &[u8], p: usize) -> (r: Option<u16>)
    ensures
        r == port_at(s@, p as int),
{
    match read_uint(s, p) {
        Some(n) => if n <= 0xffff {
            Some(n as u16)
        } else {
            None
        },
        None => None,
    }
}

fn read_type(s: &[u8], p: usize) -> (r: Option<u8>)
    requires
        p <= s@.len(),
    ensures
        r == type_at(s@, p as int),
{
    match read_bytes(s, p) {
        Some(b) => if b.len() == 1 && (b[0] == 113 || b[0] == 114 || b[0] == 101) {
            Some(b[0])
        } else {
            None
        },
        None => None,
    }
}

fn read_nodes(s: &[u8], p: usize) -> (r: Option<Nodes>)
    requires
        p <= s@.len(),
    ensures
        match nodes_at(s@, p as int) {
            Some(n) => r matches Some(x) && nodes_v(x) == n,
            None => r is None,
        },
{
    let b = match read_bytes(s, p) {
        Some(b) => b,
        None => {
            return None;
        },
    };
    if b.len() % 26 != 0 {
        return None;
    }
    let count = b.len() / 26;
    if count == 1 {
        return match Node::from_compact_bytes(b.as_slice()) {
            Ok(n) => {
                proof {
                    assert(b@.subrange(20, 26)[0] == b@[20]);
                    assert(node_v(n) == node_of(b@));
                }
                Some(Nodes::Exact(n))
            },
            Err(_) => None,
        };
    }
    let ghost want = Seq::new(b@.len() / 26, |i: int| node_of(b@.subrange(26 * i, 26 * i + 26)));
    let mut nodes: Vec<Node> = Vec::new();
    let mut i: usize = 0;
    while i < count
        invariant
            count == b@.len() / 26,
            b@.len() % 26 == 0,
            want == Seq::new(b@.len() / 26, |i: int| node_of(b@.subrange(26 * i, 26 * i + 26))),
            0 <= i <= count,
            nodes@.map_values(|x: Node| node_v(x)) == want.take(i as int),
        decreases count - i,
    {
        assert(26 * i + 26 <= b@.len()) by (nonlinear_arith)
            requires
                i < count,
                count == b@.len() / 26,
                b@.len() % 26 == 0,
        ;
        assert(b@.len() == b.len());
        let start: usize = 26 * i;
        let end: usize = start + 26;
        let chunk = &b.as_slice()[start..end];
        match Node::from_compact_bytes(chunk) {
            Ok(n) => {
                proof {
                    let c = b@.subrange(26 * i, 26 * i + 26);
                    assert(chunk@ == c);
                    assert(c.subrange(20, 26)[0] == c[20]);
                    assert(node_v(n) == node_of(c));
                }
                let ghost before = nodes@;
                nodes.push(n);
                proof {
                    assert(want[i as int] == node_of(b@.subrange(26 * i, 26 * i + 26)));
                    assert(nodes@.map_values(|x: Node| node_v(x)) =~= before.map_values(|x: Node| node_v(x)).push(node_v(n)));
                    assert(want.take(i + 1) =~= want.take(i as int).push(want[i as int]));
                }
            },
            Err(_) => {
                return None;
            },
        }
        i += 1;
    }
    assert(want.take(count as int) =~= want);
    Some(Nodes::Closest(nodes))
}

fn read_peers(s: &[u8], p: usize, d: usize) -> (r: Option<Vec<Peer>>)
    requires
        p <= s@.len(),
    ensures
        match peers_at(s@, p as int, d as nat) {
            Some(v) => r matches Some(x) && x@ == v,
            None => r is None,
        },
{
    if !(p < s.len() && s[p] == 108 && d >= 1) {
        return None;
    }
    let dd = d - 1;
    let ghost f = peers_handler(s@);
    let mut out: Vec<Peer> = Vec::new();
    let mut q = p + 1;
    loop
        invariant
            p < q <= s@.len(),
            s@[p as int] == 108,
            d >= 1,
            dd == d - 1,
            f == peers_handler(s@),
            list_fold(s@, q as int, dd as nat, out@, f) == list_fold(s@, p + 1, dd as nat, Seq::empty(), f),
        decreases s@.len() - q,
    {
        if q >= s.len() {
            return None;
        }
        if s[q] == 101 {
            return Some(out);
        }
        let e = match scan_value(s, q, dd) {
            Some(e) => e,
            None => {
                return None;
            },
        };
        if !(q < e && e <= s.len()) {
            return None;
        }
        let b = match read_bytes(s, q) {
            Some(b) => b,
            None => {
                return None;
            },
        };
        if b.len() != 6 {
            return None;
        }
        let peer = match socketaddr_from_compact_bytes(b.as_slice()) {
            Ok(x) => x,
            Err(_) => {
                return None;
            },
        };
        assert(peer == peer_of(b@));
        out.push(peer);
        q = e;
    }
}

fn read_errors(s: &[u8], p: usize, d: usize) -> (r: Option<Vec<Error>>)
    requires
        p <= s@.len(),
    ensures
        match errors_at(s@, p as int, d as nat) {
            Some(v) => r matches Some(x) && errors_v(x@) == v,
            None => r is None,
        },
{
    if !(p < s.len() && s[p] == 108 && d >= 1) {
        return None;
    }
    let dd = d - 1;
    let ghost f = errors_handler(s@);
    let mut out: Vec<Error> = Vec::new();
    let mut q = p + 1;
    assert(errors_v(out@) =~= Seq::<ErrorV>::empty());
    loop
        invariant
            p < q <= s@.len(),
            s@[p as int] == 108,
            d >= 1,
            dd == d - 1,
            f == errors_handler(s@),
            list_fold(s@, q as int, dd as nat, errors_v(out@), f) == list_fold(
                s@,
                p + 1,
                dd as nat,
                Seq::empty(),
                f,
            ),
        decreases s@.len() - q,
    {
        if q >= s.len() {
            return None;
        }
        if s[q] == 101 {
            return Some(out);
        }
        let e = match scan_value(s, q, dd) {
            Some(e) => e,
            None => {
                return None;
            },
        };
        if !(q < e && e <= s.len()) {
            return None;
        }
        let item = match read_uint(s, q) {
            Some(n) => if n <= 0xffff_ffff {
                Error::Code(n as u32)
            } else {
                return None;
            },
            None => match read_text(s, q) {
                Some(t) => Error::Desc(t),
                None => {
                    return None;
                },
            },
        };
        let ghost before = out@;
        out.push(item);
        proof {
            assert(errors_v(out@) =~= errors_v(before).push(error_v(item)));
        }
        q = e;
    }
}

fn read_args(s: &[u8], p: usize, d: usize) -> (r: Option<Arguments>)
    requires
        p <= s@.len(),
    ensures
        match args_at(s@, p as int, d as nat) {
            Some(a) => match args_variant(a) {
                Some(v) => r matches Some(x) && arguments_v(x) == v,
                None => r is None,
            },
            None => r is None,
        },
{
    if !(p < s.len() && s[p] == 100 && d >= 1) {
        return None;
    }
    let dd = d - 1;
    let ghost f = args_handler(s@);
    let mut id: Option<Option<ID>> = None;
    let mut info_hash: Option<Option<ID>> = None;
    let mut port: Option<Option<u16>> = None;
    let mut target: Option<Option<ID>> = None;
    let mut token: Option<Option<Vec<u8>>> = None;
    let mut q = p + 1;
    let mut prev: Option<(usize, usize)> = None;
    loop
        invariant
            p < q <= s@.len(),
            s@[p as int] == 100,
            d >= 1,
            dd == d - 1,
            f == args_handler(s@),
            prev matches Some(k) ==> k.0 <= k.1 <= s@.len(),
            dict_fold(
                s@,
                q as int,
                dd as nat,
                prev_key(s@, prev),
                ArgsAcc { id: oo_id(id), info_hash: oo_id(info_hash), port, target: oo_id(target), token: oo_bytes(token) },
                f,
            ) == dict_fold(s@, p + 1, dd as nat, None, empty_args(), f),
        decreases s@.len() - q,
    {
        if q >= s.len() {
            return None;
        }
        if s[q] == 101 {
            return match (id, info_hash, port, token) {
                (Some(Some(id)), Some(Some(info_hash)), Some(Some(port)), Some(Some(token))) => Some(
                    Arguments::AnnouncePeer { id, info_hash, port, token: NoSizeBytes::new(token) },
                ),
                (Some(Some(id)), _, _, _) => match target {
                    Some(Some(target)) => Some(Arguments::FindNode { id, target }),
                    _ => match info_hash {
                        Some(Some(info_hash)) => Some(Arguments::GetPeers { id, info_hash }),
                        _ => Some(Arguments::Ping { id }),
                    },
                },
                _ => None,
            };
        }
        let e = match next_entry(s, q, dd, prev) {
            Some(e) => e,
            None => {
                return None;
            },
        };
        if !(q < e.2 && e.2 <= s.len()) {
            return None;
        }
        if key_is(s, e.0, e.1, &[105u8, 100]) {
            id = Some(read_id(s, e.1));
        } else if key_is(s, e.0, e.1, &[105u8, 110, 102, 111, 95, 104, 97, 115, 104]) {
            info_hash = Some(read_id(s, e.1));
        } else if key_is(s, e.0, e.1, &[112u8, 111, 114, 116]) {
            port = Some(read_port(s, e.1));
        } else if key_is(s, e.0, e.1, &[116u8, 97, 114, 103, 101, 116]) {
            target = Some(read_id(s, e.1));
        } else if key_is(s, e.0, e.1, &[116u8, 111, 107, 101, 110]) {
            token = Some(read_bytes(s, e.1));
        }
        q = e.2;
        prev = Some((e.0, e.1));
    }
}

fn read_resp(s: &[u8], p: usize, d: usize) -> (r: Option<Response>)
    requires
        p <= s@.len(),
    ensures
        match resp_at(s@, p as int, d as nat) {
            Some(a) => match resp_variant(a) {
                Some(v) => r matches Some(x) && response_v(x) == v,
                None => r is None,
            },
            None => r is None,
        },
{
    if !(p < s.len() && s[p] == 100 && d >= 1) {
        return None;
    }
    let dd = d - 1;
    let ghost f = resp_handler(s@, dd as nat);
    let mut id: Option<Option<ID>> = None;
    let mut nodes: Option<Option<Nodes>> = None;
    let mut token: Option<Option<Vec<u8>>> = None;
    let mut values: Option<Option<Vec<Peer>>> = None;
    let mut q = p + 1;
    let mut prev: Option<(usize, usize)> = None;
    loop
        invariant
            p < q <= s@.len(),
            s@[p as int] == 100,
            d >= 1,
            dd == d - 1,
            f == resp_handler(s@, dd as nat),
            prev matches Some(k) ==> k.0 <= k.1 <= s@.len(),
            dict_fold(
                s@,
                q as int,
                dd as nat,
                prev_key(s@, prev),
                RespAcc { id: oo_id(id), nodes: oo_nodes(nodes), token: oo_bytes(token), values: oo_peers(values) },
                f,
            ) == dict_fold(s@, p + 1, dd as nat, None, empty_resp(), f),
        decreases s@.len() - q,
    {
        if q >= s.len() {
            return None;
        }
        if s[q] == 101 {
            return match (id, token) {
                (Some(Some(id)), Some(Some(token))) => match values {
                    Some(Some(values)) => Some(
                        Response::GetPeers {
                            id,
                            token: NoSizeBytes::new(token),
                            values_or_nodes: ValuesOrNodes::Values { values },
                        },
                    ),
                    _ => match nodes {
                        Some(Some(nodes)) => Some(
                            Response::GetPeers {
                                id,
                                token: NoSizeBytes::new(token),
                                values_or_nodes: ValuesOrNodes::Nodes { nodes },
                            },
                        ),
                        _ => Some(Response::Ping { id }),
                    },
                },
                (Some(Some(id)), _) => match nodes {
                    Some(Some(nodes)) => Some(Response::FindNode { id, nodes }),
                    _ => Some(Response::Ping { id }),
                },
                _ => None,
            };
        }
        let e = match next_entry(s, q, dd, prev) {
            Some(e) => e,
            None => {
                return None;
            },
        };
        if !(q < e.2 && e.2 <= s.len()) {
            return None;
        }
        if key_is(s, e.0, e.1, &[105u8, 100]) {
            id = Some(read_id(s, e.1));
        } else if key_is(s, e.0, e.1, &[110u8, 111, 100, 101, 115]) {
            nodes = Some(read_nodes(s, e.1));
        } else if key_is(s, e.0, e.1, &[116u8, 111, 107, 101, 110]) {
            token = Some(read_bytes(s, e.1));
        } else if key_is(s, e.0, e.1, &[118u8, 97, 108, 117, 101, 115]) {
            values = Some(read_peers(s, e.1, dd));
        }
        q = e.2;
        prev = Some((e.0, e.1));
    }
}

/// The top-level fields of a message read so far, each `None` until its key is met.
struct MsgFields {
    a: Option<Option<Arguments>>,
    e: Option<Option<Vec<Error>>>,
    q: Option<Option<String>>,
    r: Option<Option<Response>>,
    t: Option<Option<Vec<u8>>>,
    y: Option<Option<u8>>,
}

impl MsgFields {
    spec fn acc(&self) -> MsgAcc {
        MsgAcc { a: oo_args(self.a), e: oo_errors(self.e), q: oo_text(self.q), r: oo_resp(self.r), t: oo_bytes(self.t), y: self.y }
    }

    /// Reads the value at `k1`, the key being the bytes from `k0` to `k1`.
    #[verifier::spinoff_prover]
    fn take(&mut self, s: &[u8], k0: usize, k1: usize, d: usize)
        requires
            k0 <= k1 <= s@.len(),
        ensures
            msg_field(s@, d as nat, s@.subrange(k0 as int, k1 as int), k1 as int, old(self).acc()) == Some(final(self).acc()),
    {
        reveal(msg_field);
        let ghost key = s@.subrange(k0 as int, k1 as int);
        assert(seq![97u8].len() == 1 && seq![97u8][0] == 97);
        assert(seq![101u8].len() == 1 && seq![101u8][0] == 101);
        assert(seq![113u8].len() == 1 && seq![113u8][0] == 113);
        assert(seq![114u8].len() == 1 && seq![114u8][0] == 114);
        assert(seq![116u8].len() == 1 && seq![116u8][0] == 116);
        assert(seq![121u8].len() == 1 && seq![121u8][0] == 121);
        if k1 - k0 != 1 {
            return;
        }
        let c = s[k0];
        assert(key =~= seq![c]);
        assert(seq![c][0] == c);
        if c == 97 {
            self.a = Some(read_args(s, k1, d));
        } else if c == 101 {
            self.e = Some(read_errors(s, k1, d));
        } else if c == 113 {
            self.q = Some(read_text(s, k1));
        } else if c == 114 {
            self.r = Some(read_resp(s, k1, d));
        } else if c == 116 {
            self.t = Some(read_bytes(s, k1));
        } else if c == 121 {
            self.y = Some(read_type(s, k1));
        }
    }
}

/// The message the read fields make.
fn build_message(
    a: Option<Option<Arguments>>,
    e_list: Option<Option<Vec<Error>>>,
    method: Option<Option<String>>,
    resp: Option<Option<Response>>,
    t: Option<Option<Vec<u8>>>,
    y: Option<Option<u8>>,
) -> (r: Result<Message, crate::krpc::KrpcError>)
    ensures
        match msg_variant(MsgAcc { a: oo_args(a), e: oo_errors(e_list), q: oo_text(method), r: oo_resp(resp), t: oo_bytes(t), y }) {
            Some(m) => r matches Ok(x) && message_v(x) == m,
            None => r is Err,
        },
{
    let (tid, ty) = match (t, y) {
        (Some(Some(tid)), Some(Some(ty))) => (tid, ty),
        _ => {
            return Err(crate::krpc::KrpcError);
        },
    };
    match (method, a) {
        (Some(Some(method_name)), Some(Some(arguments))) => {
            return Ok(
                Message::Query {
                    transaction_id: NoSizeBytes::new(tid),
                    msg_type: MessageType(ty),
                    method_name,
                    arguments,
                },
            );
        },
        _ => {},
    }
    match resp {
        Some(Some(response)) => {
            return Ok(
                Message::Response {
                    transaction_id: NoSizeBytes::new(tid),
                    msg_type: MessageType(ty),
                    response,
                },
            );
        },
        _ => {},
    }
    match e_list {
        Some(Some(error)) => Ok(
            Message::Error { transaction_id: NoSizeBytes::new(tid), msg_type: MessageType(ty), error },
        ),
        _ => Err(crate::krpc::KrpcError),
    }
}

impl Message {
    /// Reads a message from its bencoded form; an error when the bytes do not start with one.
    pub fn from_bytes(buf: &[u8]) -> (r: Result<Message, crate::krpc::KrpcError>)
        ensures
            match message_of(buf@) {
                Some(m) => r matches Ok(x) && message_v(x) == m,
                None => r is Err,
            },
    {
        let s = buf;
        if !(s.len() > 0 && s[0] == 100) {
            return Err(crate::krpc::KrpcError);
        }
        let dd: usize = KRPC_DEPTH;
        let ghost f = msg_handler(s@, dd as nat);
        let mut fields = MsgFields { a: None, e: None, q: None, r: None, t: None, y: None };
        let mut q: usize = 1;
        let mut prev: Option<(usize, usize)> = None;
        loop
            invariant
                s@ == buf@,
                0 < q <= s@.len(),
                s@[0] == 100,
                dd == KRPC_DEPTH,
                f == msg_handler(s@, dd as nat),
                prev matches Some(k) ==> k.0 <= k.1 <= s@.len(),
                dict_fold(s@, q as int, dd as nat, prev_key(s@, prev), fields.acc(), f)
                    == dict_fold(s@, 1, dd as nat, None, empty_msg(), f),
            decreases s@.len() - q,
        {
            if q >= s.len() {
                return Err(crate::krpc::KrpcError);
            }
            if s[q] == 101 {
                return build_message(fields.a, fields.e, fields.q, fields.r, fields.t, fields.y);
            }
            let e = match next_entry(s, q, dd, prev) {
                Some(e) => e,
                None => {
                    return Err(crate::krpc::KrpcError);
                },
            };
            if !(q < e.2 && e.2 <= s.len()) {
                return Err(crate::krpc::KrpcError);
            }
            let ghost before = fields.acc();
            fields.take(s, e.0, e.1, dd);
            proof {
                assert(f(s@.subrange(e.0 as int, e.1 as int), e.1 as int, before) == Some(fields.acc()));
            }
            q = e.2;
            prev = Some((e.0, e.1));
        }
    }
}

} // verus!
