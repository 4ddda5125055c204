//! The decisions of a DHT node's connection: what to send for a command, how to answer a
//! query, and whom a response is for.
use vstd::prelude::*;
use crate::id::{ID, spec_sha1};
use crate::krpc::{
    Arguments, KrpcError, Message, MessageType, PendingRequests, RequestType, Response, ToConQuery,
    ToConResp, ValuesOrNodes, arguments_kind, encode_message, pending_index, query_arguments,
    query_method, response_kind, response_of_command, MY_TID_LEN,
};
use crate::peer::{Peer, compact_of};
use crate::peer_message::NoSizeBytes;
use crate::krpc_decode::{message_of, message_v};
use crate::routing_table::Nodes;

verus! {

/// Who asked a query, and under which transaction id.
#[derive(Debug, Clone)]
pub struct QueryId {
    pub target: Peer,
    pub transaction_id: NoSizeBytes,
}

/// A query handed on to the node's logic.
#[derive(Debug)]
pub enum FromConQuery {
    FindNode { target: ID, query_id: QueryId },
    GetPeers { info_hash: ID, query_id: QueryId },
    NewPeer { new_peer: Peer, info_hash: ID },
}

/// A response handed back to the task that sent the query.
#[derive(Debug)]
pub enum FromConResp {
    Touch { id: ID, from: Peer },
    NewNodes { nodes: Nodes, from: Peer, id: ID },
    GetPeers { from: Peer, token: NoSizeBytes, v_or_n: ValuesOrNodes },
}

/// A command to the connection: send a query on behalf of `resp_returner`, or answer one.
#[derive(Debug)]
pub enum ToCon<R> {
    Query { resp_returner: R, target: Peer, variant: ToConQuery },
    Resp { query_id: QueryId, variant: ToConResp },
}

/// What to do with a received query.
#[derive(Debug)]
pub enum QueryOutcome {
    /// Send these bytes to the peer.
    Reply(Vec<u8>, Peer),
    /// Hand the query on.
    Forward(FromConQuery),
    /// Hand the query on, and send these bytes to the peer.
    ForwardAndReply(FromConQuery, Vec<u8>, Peer),
    /// Drop the query.
    Ignore,
}

/// What a received datagram comes to.
#[derive(Debug)]
pub enum Received<R> {
    /// A query, and what to do with it.
    Query(QueryOutcome),
    /// A response, handed to the task waiting on it if there is one.
    Response(Option<(R, FromConResp)>),
    /// Not a message, or an error message: dropped.
    Dropped,
}

/// The four octets of a peer's address.
pub open spec fn octets_of(p: Peer) -> Seq<u8> {
    compact_of(p.ip, p.port).take(4)
}

/// The token handed to `p` by a node with secret `secret`.
pub open spec fn token_for_spec(secret: ID, p: Peer) -> Seq<u8> {
    spec_sha1(secret@ + octets_of(p))
}

/// The kind of request a query command makes.
pub open spec fn query_kind(q: ToConQuery) -> RequestType {
    match q {
        ToConQuery::Ping => RequestType::Ping,
        ToConQuery::FindNode { .. } => RequestType::FindNode,
        ToConQuery::GetPeers { .. } => RequestType::GetPeers,
        ToConQuery::AnnouncePeer { .. } => RequestType::AnnouncePeer,
    }
}

/// `m` is the query message a node with identifier `own` sends for `variant`, under a fresh
/// transaction id.
pub open spec fn query_message(m: Message, variant: ToConQuery, own: ID) -> bool {
    m matches Message::Query { transaction_id, msg_type, method_name, arguments }
        && transaction_id.0@.len() == MY_TID_LEN && msg_type == MessageType(113)
        && method_name@ == query_method(variant) && arguments == query_arguments(variant, own)
}

/// The pending requests after recording one under `tid`: an earlier one with the same
/// transaction id is replaced.
pub open spec fn pending_after_insert<R>(
    e: Seq<(Seq<u8>, RequestType, R)>,
    tid: Seq<u8>,
    kind: RequestType,
    who: R,
) -> Seq<(Seq<u8>, RequestType, R)> {
    match pending_index(e, tid) {
        Some(i) => e.remove(i),
        None => e,
    }.push((tid, kind, who))
}

/// `bytes` encode the response `variant` to the query `query_id`, from a node with
/// identifier `own` and secret `secret`.
pub open spec fn response_bytes(bytes: Seq<u8>, query_id: QueryId, variant: ToConResp, own: ID, secret: ID) -> bool {
    exists|token: NoSizeBytes|
        token.0@ == token_for_spec(secret, query_id.target) && bytes == encode_message(
            Message::Response {
                transaction_id: query_id.transaction_id,
                msg_type: MessageType(114),
                response: #[trigger] response_of_command(variant, own, token),
            },
        )
}

/// `bytes` encode some query message for `variant` whose transaction id is now pending with
/// `who` in `after`, as recorded into `before`.
pub open spec fn query_sent<R>(
    bytes: Seq<u8>,
    variant: ToConQuery,
    own: ID,
    who: R,
    before: Seq<(Seq<u8>, RequestType, R)>,
    after: Seq<(Seq<u8>, RequestType, R)>,
) -> bool {
    exists|m: Message|
        #[trigger] query_message(m, variant, own) && bytes == encode_message(m) && after
            == pending_after_insert(before, m->Query_transaction_id.0@, query_kind(variant), who)
}

/// What a response to a pending request hands back to the task that made it.
pub open spec fn resp_for(response: Response, from: Peer) -> FromConResp {
    match response {
        Response::Ping { id } => FromConResp::Touch { id, from },
        Response::FindNode { nodes, id } => FromConResp::NewNodes { nodes, from, id },
        Response::GetPeers { values_or_nodes, token, .. } => FromConResp::GetPeers {
            from,
            token,
            v_or_n: values_or_nodes,
        },
        Response::AnnouncePeer { id } => FromConResp::Touch { id, from },
    }
}

/// What answering the query `arguments` under `transaction_id` from `from` comes to, for a
/// node with identifier `own` and secret `secret`.
pub open spec fn query_outcome(own: ID, secret: ID, transaction_id: NoSizeBytes, arguments: Arguments, from: Peer, r: QueryOutcome) -> bool {
    match arguments {
        Arguments::Ping { .. } => r matches QueryOutcome::Reply(bytes, to) && to == from
            && response_bytes(
            bytes@,
            QueryId { target: from, transaction_id },
            ToConResp::Ping,
            own,
            secret,
        ),
        Arguments::FindNode { target, .. } => r == QueryOutcome::Forward(
            FromConQuery::FindNode { target, query_id: QueryId { target: from, transaction_id } },
        ),
        Arguments::GetPeers { info_hash, .. } => r == QueryOutcome::Forward(
            FromConQuery::GetPeers { info_hash, query_id: QueryId { target: from, transaction_id } },
        ),
        Arguments::AnnouncePeer { info_hash, port, token, .. } => if token.0@ == token_for_spec(
            secret,
            from,
        ) {
            r matches QueryOutcome::ForwardAndReply(q, bytes, to) && to == from && q
                == (FromConQuery::NewPeer { new_peer: Peer { ip: from.ip, port }, info_hash })
                && response_bytes(
                bytes@,
                QueryId { target: from, transaction_id },
                ToConResp::AnnouncePeer,
                own,
                secret,
            )
        } else {
            r == QueryOutcome::Ignore
        },
    }
}

/// What taking the response `response` under `transaction_id` from `from` comes to, the
/// pending requests going from `before` to `after`.
pub open spec fn resp_outcome<R>(
    before: Seq<(Seq<u8>, RequestType, R)>,
    after: Seq<(Seq<u8>, RequestType, R)>,
    transaction_id: NoSizeBytes,
    response: Response,
    from: Peer,
    r: Option<(R, FromConResp)>,
) -> bool {
    ({
        let e = before;
        match pending_index(e, transaction_id.0@) {
            Some(i) => if e[i].1 == response_kind(response) {
                r == Some((e[i].2, resp_for(response, from)))
                    && after == e.remove(i)
            } else {
                r is None && after == e
            },
            None => r is None && after == e,
        }
    })
}

/// The connection of a DHT node: its identifier, the secret its tokens derive from, and the
/// requests it waits answers for.
pub struct ConnectionManager<R> {
    own_id: ID,
    secret: ID,
    pending: PendingRequests<R>,
}

impl<R> ConnectionManager<R> {
    pub closed spec fn spec_own_id(self) -> ID {
        self.own_id
    }

    pub closed spec fn spec_secret(self) -> ID {
        self.secret
    }

    pub closed spec fn spec_pending(self) -> PendingRequests<R> {
        self.pending
    }

    pub open spec fn wf(self) -> bool {
        self.spec_pending().wf()
    }

    /// A connection for the node `own_id`, with a random secret and nothing pending.
    pub fn new(own_id: ID) -> (r: Self)
        ensures
            r.wf(),
            r.spec_own_id() == own_id,
            r.spec_pending().entries().len() == 0,
    {
        ConnectionManager { own_id, secret: ID::random(), pending: PendingRequests::new() }
    }

    /// The token handed to `source`.
    pub fn token_for(&self, source: &Peer) -> (r: Vec<u8>)
        ensures
            r@ == token_for_spec(self.spec_secret(), *source),
    {
        let octets = source.octets();
        self.secret.hash_as_bytes(&octets)
    }

    /// A token is valid when it is the one handed to its sender.
    pub fn token_is_valid(&self, token: &[u8], source_addr: &Peer) -> (r: bool)
        ensures
            r == (token@ == token_for_spec(self.spec_secret(), *source_addr)),
    {
        let expected = self.token_for(source_addr);
        crate::krpc::bytes_eq(token, expected.as_slice())
    }

    /// The bytes to send, and to whom, for a command: a query is recorded as pending for its
    /// sender, an answer carries the token of the peer it goes to.
    pub fn send(&mut self, command: ToCon<R>) -> (r: Result<(Vec<u8>, Peer), KrpcError>)
        requires
            old(self).wf(),
        ensures
            final(self).wf(),
            final(self).spec_own_id() == old(self).spec_own_id(),
            final(self).spec_secret() == old(self).spec_secret(),
            match command {
                ToCon::Query { resp_returner, target, variant } => r matches Ok((bytes, t)) && t
                    == target && query_sent(
                    bytes@,
                    variant,
                    old(self).spec_own_id(),
                    resp_returner,
                    old(self).spec_pending().entries(),
                    final(self).spec_pending().entries(),
                ),
                ToCon::Resp { query_id, variant } => r matches Ok((bytes, t)) && t
                    == query_id.target && response_bytes(
                    bytes@,
                    query_id,
                    variant,
                    old(self).spec_own_id(),
                    old(self).spec_secret(),
                ) && final(self).spec_pending() == old(self).spec_pending(),
            },
    {
        match command {
            ToCon::Query { resp_returner, target, variant } => {
                let ghost v = variant;
                let message = variant.into_message(&self.own_id);
                let tid = message.tid().as_bytes();
                let kind = RequestType::from_message(&message);
                self.pending.insert(tid, kind, resp_returner);
                let bytes = message.into_bytes();
                match bytes {
                    Ok(b) => {
                        proof {
                            assert(query_message(message, v, self.own_id));
                        }
                        Ok((b, target))
                    },
                    Err(e) => Err(e),
                }
            },
            ToCon::Resp { query_id, variant } => {
                let target = query_id.target;
                let t = self.token_for(&target);
                let token = NoSizeBytes::new(t);
                let ghost resp = response_of_command(variant, self.own_id, token);
                let message = variant.into_message(&self.own_id, query_id.transaction_id, token);
                match message.into_bytes() {
                    Ok(b) => Ok((b, target)),
                    Err(e) => Err(e),
                }
            },
        }
    }

    /// Answers a query: a ping is answered at once; node and peer lookups are handed on; an
    /// announce with the right token hands on the new peer (at the announced port) and is
    /// answered, one with a wrong token is dropped.
    pub fn handle_query(&mut self, transaction_id: NoSizeBytes, arguments: Arguments, from: Peer) -> (r: QueryOutcome)
        requires
            old(self).wf(),
        ensures
            final(self).wf(),
            final(self).spec_own_id() == old(self).spec_own_id(),
            final(self).spec_secret() == old(self).spec_secret(),
            final(self).spec_pending() == old(self).spec_pending(),
            query_outcome(old(self).spec_own_id(), old(self).spec_secret(), transaction_id, arguments, from, r),
    {
        match arguments {
            Arguments::Ping { .. } => {
                let pong = ToCon::Resp {
                    query_id: QueryId { target: from, transaction_id },
                    variant: ToConResp::Ping,
                };
                match self.send(pong) {
                    Ok((bytes, to)) => QueryOutcome::Reply(bytes, to),
                    Err(_) => QueryOutcome::Ignore,
                }
            },
            Arguments::FindNode { target, .. } => QueryOutcome::Forward(
                FromConQuery::FindNode { target, query_id: QueryId { target: from, transaction_id } },
            ),
            Arguments::GetPeers { info_hash, .. } => QueryOutcome::Forward(
                FromConQuery::GetPeers { info_hash, query_id: QueryId { target: from, transaction_id } },
            ),
            Arguments::AnnouncePeer { info_hash, port, token, .. } => {
                if self.token_is_valid(token.as_ref(), &from) {
                    let peer_addr = Peer { ip: from.ip, port };
                    let new_peer = FromConQuery::NewPeer { new_peer: peer_addr, info_hash };
                    let resp = ToCon::Resp {
                        query_id: QueryId { target: from, transaction_id },
                        variant: ToConResp::AnnouncePeer,
                    };
                    match self.send(resp) {
                        Ok((bytes, to)) => QueryOutcome::ForwardAndReply(new_peer, bytes, to),
                        Err(_) => QueryOutcome::Ignore,
                    }
                } else {
                    QueryOutcome::Ignore
                }
            },
        }
    }

    /// Whom a response is for: the task waiting on its transaction id, if the request was of
    /// the same kind, with what it learns; that request is no longer pending.
    pub fn handle_resp(&mut self, transaction_id: NoSizeBytes, response: Response, from: Peer) -> (r: Option<(R, FromConResp)>)
        requires
            old(self).wf(),
        ensures
            final(self).wf(),
            final(self).spec_own_id() == old(self).spec_own_id(),
            final(self).spec_secret() == old(self).spec_secret(),
            resp_outcome(old(self).spec_pending().entries(), final(self).spec_pending().entries(), transaction_id, response, from, r),
    {
        let kind = RequestType::from_response(&response);
        let querying_task_channel = match self.pending.get(transaction_id.as_ref(), kind) {
            Some(ch) => ch,
            None => {
                return None;
            },
        };
        let resp = match response {
            Response::Ping { id } => FromConResp::Touch { id, from },
            Response::FindNode { nodes, id } => FromConResp::NewNodes { nodes, from, id },
            Response::GetPeers { values_or_nodes, token, .. } => FromConResp::GetPeers {
                from,
                token,
                v_or_n: values_or_nodes,
            },
            Response::AnnouncePeer { id } => FromConResp::Touch { id, from },
        };
        Some((querying_task_channel, resp))
    }

    /// Takes a datagram from `from`: a query is answered or handed on as `handle_query`
    /// says, a response goes where `handle_resp` says, anything else is dropped.
    pub fn handle_received_message(&mut self, from: Peer, buf: &[u8]) -> (r: Received<R>)
        requires
            old(self).wf(),
        ensures
            final(self).wf(),
            final(self).spec_own_id() == old(self).spec_own_id(),
            final(self).spec_secret() == old(self).spec_secret(),
            match message_of(buf@) {
                None => r is Dropped && final(self).spec_pending() == old(self).spec_pending(),
                Some(mv) => exists|x: Message|
                    #[trigger] message_v(x) == mv && match x {
                        Message::Query { transaction_id, arguments, .. } => r matches Received::Query(o)
                            && final(self).spec_pending() == old(self).spec_pending() && query_outcome(
                            old(self).spec_own_id(),
                            old(self).spec_secret(),
                            transaction_id,
                            arguments,
                            from,
                            o,
                        ),
                        Message::Response { transaction_id, response, .. } => r matches Received::Response(o)
                            && resp_outcome(
                            old(self).spec_pending().entries(),
                            final(self).spec_pending().entries(),
                            transaction_id,
                            response,
                            from,
                            o,
                        ),
                        Message::Error { .. } => r is Dropped && final(self).spec_pending() == old(self).spec_pending(),
                    },
            },
    {
        let message = match Message::from_bytes(buf) {
            Ok(m) => m,
            Err(_) => {
                return Received::Dropped;
            },
        };
        let ghost x = message;
        match message {
            Message::Query { transaction_id, arguments, .. } => {
                let o = self.handle_query(transaction_id, arguments, from);
                proof {
                    assert(message_v(x) == message_of(buf@)->0);
                }
                Received::Query(o)
            },
            Message::Response { transaction_id, response, .. } => {
                let o = self.handle_resp(transaction_id, response, from);
                proof {
                    assert(message_v(x) == message_of(buf@)->0);
                }
                Received::Response(o)
            },
            Message::Error { .. } => {
                proof {
                    assert(message_v(x) == message_of(buf@)->0);
                }
                Received::Dropped
            },
        }
    }
}

} // verus!
