use nargun::dht_connection::{ConnectionManager, FromConQuery, FromConResp, QueryId, QueryOutcome, Received, ToCon};
use nargun::id::ID;
use nargun::krpc::{Arguments, Message, Response, ToConQuery, ToConResp, ValuesOrNodes};
use nargun::peer::Peer;
use nargun::peer_message::NoSizeBytes;

fn own_id() -> ID {
    ID::new(b"abcdefghij0123456789".to_owned())
}

fn asker() -> Peer {
    Peer::new([127, 0, 0, 1], 6969)
}

fn tid(bytes: &[u8]) -> NoSizeBytes {
    NoSizeBytes::new(bytes.to_vec())
}

#[test]
fn sent_query_is_answered_once() {
    let mut con: ConnectionManager<u32> = ConnectionManager::new(own_id());
    let info_hash = ID::new(b"mnopqrstuvwxyz123456".to_owned());
    let (bytes, to) = con
        .send(ToCon::Query { resp_returner: 7, target: asker(), variant: ToConQuery::GetPeers { info_hash } })
        .unwrap();
    assert_eq!(to, asker());
    let Message::Query { transaction_id, method_name, arguments, .. } = Message::from_bytes(&bytes).unwrap() else {
        panic!("expected a query");
    };
    assert_eq!(method_name, "get_peers");
    let Arguments::GetPeers { id, info_hash: asked } = arguments else {
        panic!("expected get_peers arguments");
    };
    assert_eq!(id, own_id());
    assert_eq!(asked, info_hash);

    // An answer of another kind is not for the waiting task.
    let wrong = con.handle_resp(transaction_id.clone(), Response::Ping { id: info_hash }, asker());
    assert!(wrong.is_none());

    let answer = Response::GetPeers {
        id: info_hash,
        token: tid(b"tok"),
        values_or_nodes: ValuesOrNodes::Values { values: vec![Peer::new([1, 2, 3, 4], 5)] },
    };
    let (returner, resp) = con.handle_resp(transaction_id.clone(), answer.clone(), asker()).unwrap();
    assert_eq!(returner, 7);
    let FromConResp::GetPeers { from, token, v_or_n } = resp else {
        panic!("expected peers");
    };
    assert_eq!(from, asker());
    assert_eq!(token.as_bytes(), b"tok".to_vec());
    let ValuesOrNodes::Values { values } = v_or_n else {
        panic!("expected values");
    };
    assert_eq!(values, vec![Peer::new([1, 2, 3, 4], 5)]);

    // The request is no longer pending.
    assert!(con.handle_resp(transaction_id, answer, asker()).is_none());
}

#[test]
fn unknown_transaction_is_dropped() {
    let mut con: ConnectionManager<u32> = ConnectionManager::new(own_id());
    assert!(con.handle_resp(tid(b"zz"), Response::Ping { id: own_id() }, asker()).is_none());
}

#[test]
fn ping_is_answered_with_own_id() {
    let mut con: ConnectionManager<u32> = ConnectionManager::new(own_id());
    let outcome = con.handle_query(tid(b"aa"), Arguments::Ping { id: ID::new([3; 20]) }, asker());
    let QueryOutcome::Reply(bytes, to) = outcome else {
        panic!("expected a reply");
    };
    assert_eq!(to, asker());
    assert_eq!(bytes, b"d1:rd2:id20:abcdefghij0123456789e1:t2:aa1:y1:re".to_vec());
}

#[test]
fn lookups_are_handed_on() {
    let mut con: ConnectionManager<u32> = ConnectionManager::new(own_id());
    let target = ID::new([9; 20]);
    match con.handle_query(tid(b"ab"), Arguments::FindNode { id: ID::new([3; 20]), target }, asker()) {
        QueryOutcome::Forward(FromConQuery::FindNode { target: t, query_id }) => {
            assert_eq!(t, target);
            assert_eq!(query_id.target, asker());
            assert_eq!(query_id.transaction_id.as_bytes(), b"ab".to_vec());
        },
        other => panic!("unexpected {:?}", other),
    }
    match con.handle_query(tid(b"cd"), Arguments::GetPeers { id: ID::new([3; 20]), info_hash: target }, asker()) {
        QueryOutcome::Forward(FromConQuery::GetPeers { info_hash, .. }) => assert_eq!(info_hash, target),
        other => panic!("unexpected {:?}", other),
    }
}

#[test]
fn announce_needs_the_token_handed_out() {
    let mut con: ConnectionManager<u32> = ConnectionManager::new(own_id());
    let info_hash = ID::new([5; 20]);
    let token = con.token_for(&asker());
    assert_eq!(token.len(), 20);
    assert!(con.token_is_valid(&token, &asker()));
    assert!(!con.token_is_valid(b"forged", &asker()));

    let good = Arguments::AnnouncePeer { id: ID::new([3; 20]), info_hash, port: 51413, token: NoSizeBytes::new(token) };
    match con.handle_query(tid(b"aa"), good, asker()) {
        QueryOutcome::ForwardAndReply(FromConQuery::NewPeer { new_peer, info_hash: h }, bytes, to) => {
            assert_eq!(new_peer, Peer::new([127, 0, 0, 1], 51413));
            assert_eq!(h, info_hash);
            assert_eq!(to, asker());
            assert_eq!(bytes, b"d1:rd2:id20:abcdefghij0123456789e1:t2:aa1:y1:re".to_vec());
        },
        other => panic!("unexpected {:?}", other),
    }

    let bad = Arguments::AnnouncePeer { id: ID::new([3; 20]), info_hash, port: 51413, token: tid(b"forged") };
    assert!(matches!(con.handle_query(tid(b"aa"), bad, asker()), QueryOutcome::Ignore));
}

#[test]
fn answer_carries_token_of_its_target() {
    let mut con: ConnectionManager<u32> = ConnectionManager::new(own_id());
    let query_id = QueryId { target: asker(), transaction_id: tid(b"xy") };
    let (bytes, to) = con
        .send(ToCon::Resp {
            query_id,
            variant: ToConResp::GetPeers { values_or_nodes: ValuesOrNodes::Values { values: vec![] } },
        })
        .unwrap();
    assert_eq!(to, asker());
    let Message::Response { transaction_id, response, .. } = Message::from_bytes(&bytes).unwrap() else {
        panic!("expected a response");
    };
    assert_eq!(transaction_id.as_bytes(), b"xy".to_vec());
    let Response::GetPeers { id, token, .. } = response else {
        panic!("expected get_peers response");
    };
    assert_eq!(id, own_id());
    assert_eq!(token.as_bytes(), con.token_for(&asker()));
}

#[test]
fn datagrams_are_dispatched() {
    let mut con: ConnectionManager<u32> = ConnectionManager::new(own_id());
    match con.handle_received_message(asker(), b"d1:ad2:id20:mnopqrstuvwxyz123456e1:q4:ping1:t2:aa1:y1:qe") {
        Received::Query(QueryOutcome::Reply(bytes, to)) => {
            assert_eq!(to, asker());
            assert_eq!(bytes, b"d1:rd2:id20:abcdefghij0123456789e1:t2:aa1:y1:re".to_vec());
        },
        other => panic!("unexpected {:?}", other),
    }
    assert!(matches!(con.handle_received_message(asker(), b"not bencode"), Received::Dropped));
    assert!(matches!(
        con.handle_received_message(asker(), b"d1:eli201e23:A Generic Error Ocurrede1:t2:aa1:y1:ee"),
        Received::Dropped
    ));
    // An answer nobody waits for.
    assert!(matches!(
        con.handle_received_message(asker(), b"d1:rd2:id20:mnopqrstuvwxyz123456e1:t2:zz1:y1:re"),
        Received::Response(None)
    ));

    let (bytes, _) = con.send(ToCon::Query { resp_returner: 5, target: asker(), variant: ToConQuery::Ping }).unwrap();
    let Message::Query { transaction_id, .. } = Message::from_bytes(&bytes).unwrap() else {
        panic!("expected a query");
    };
    let mut answer = b"d1:rd2:id20:mnopqrstuvwxyz123456e1:t5:".to_vec();
    answer.extend_from_slice(&transaction_id.as_bytes());
    answer.extend_from_slice(b"1:y1:re");
    match con.handle_received_message(asker(), &answer) {
        Received::Response(Some((5, FromConResp::Touch { id, from }))) => {
            assert_eq!(id, ID::new(b"mnopqrstuvwxyz123456".to_owned()));
            assert_eq!(from, asker());
        },
        other => panic!("unexpected {:?}", other),
    }
}
