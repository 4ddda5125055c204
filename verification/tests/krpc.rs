use nargun::id::{ID, ID_LEN};
use nargun::krpc::{
    rand_tid, Arguments, Error, Message, PendingRequests, RequestType, Response, ToConQuery,
    ToConResp, ValuesOrNodes,
};
use nargun::peer::Peer;
use nargun::peer_message::NoSizeBytes;
use nargun::routing_table::{Node, Nodes};

fn encoded_with_custom_tid(start: &str, tid: &[u8]) -> Vec<u8> {
    let mut encoded = start.as_bytes().to_vec();
    encoded.push(0x30 + tid.len() as u8);
    encoded.push(b':');
    encoded.extend_from_slice(tid);
    encoded.extend_from_slice(b"1:y1:qe");
    encoded
}

fn tid_aa() -> NoSizeBytes {
    NoSizeBytes::new(b"aa".to_vec())
}

fn node_addr_string(n: &Node) -> String {
    let (o, port) = n.addr.addr();
    format!("{}.{}.{}.{}:{}", o[0], o[1], o[2], o[3], port)
}

fn decoded_query(raw: &[u8]) -> (Vec<u8>, u8, String, Arguments) {
    let Message::Query { transaction_id: t, msg_type: y, method_name: q, arguments: a } =
        Message::from_bytes(raw).unwrap()
    else {
        panic!("message should be Message::Query");
    };
    (t.as_bytes(), y.0, q, a)
}

fn decoded_response(raw: &[u8]) -> (Vec<u8>, u8, Response) {
    let Message::Response { transaction_id: t, msg_type: y, response: r } =
        Message::from_bytes(raw).unwrap()
    else {
        panic!("message should be Message::Response");
    };
    (t.as_bytes(), y.0, r)
}

fn query_tid(message: &Message) -> Vec<u8> {
    match message {
        Message::Query { transaction_id, .. } => transaction_id.as_bytes(),
        _ => panic!("expected Message::Query"),
    }
}

#[test]
fn node_from_compact() {
    let data = b"qwertyuiopasdfghjklzyhf5aa";
    let result = Node::from_compact_bytes(data).unwrap();

    assert_eq!(node_addr_string(&result), "121.104.102.53:24929");
    assert_eq!(result.id, ID::new(b"qwertyuiopasdfghjklz".to_owned()));

    let long_data = b"qwertyuiopasdfghjklzyhf5aayhf5aa++";
    assert!(Node::from_compact_bytes(long_data).is_err());

    let short_data = b"yhf";
    assert!(Node::from_compact_bytes(short_data).is_err());
}

#[test]
fn krpc_message_ping_query() {
    let message = Message::ping_query(&ID::new(b"abcdefghij0123456789".to_owned()), rand_tid());
    let tid = query_tid(&message);
    assert_eq!(
        message.into_bytes().unwrap(),
        encoded_with_custom_tid("d1:ad2:id20:abcdefghij0123456789e1:q4:ping1:t", &tid)
    );

    let (t, y, q, a) = decoded_query(b"d1:ad2:id20:abcdefghij0123456789e1:q4:ping1:t2:aa1:y1:qe");
    assert_eq!(t, b"aa".to_vec());
    assert_eq!(y, b'q');
    assert_eq!(q, "ping");
    let Arguments::Ping { id } = a else {
        panic!("arguments should be Arguments::Ping");
    };
    assert_eq!(ID::new(b"abcdefghij0123456789".to_owned()), id);
}

#[test]
fn krpc_message_ping_resp() {
    let message = Message::ping_resp(&ID::new(b"mnopqrstuvwxyz123456".to_owned()), tid_aa());
    assert_eq!(
        message.into_bytes().unwrap(),
        b"d1:rd2:id20:mnopqrstuvwxyz123456e1:t2:aa1:y1:re".to_vec()
    );

    let (t, y, r) = decoded_response(b"d1:rd2:id20:mnopqrstuvwxyz123456e1:t2:aa1:y1:re");
    assert_eq!(t, b"aa".to_vec());
    assert_eq!(y, b'r');
    let Response::Ping { id } = r else {
        panic!("arguments should be Response::Ping");
    };
    assert_eq!(ID::new(b"mnopqrstuvwxyz123456".to_owned()), id);
}

#[test]
fn krpc_message_find_nodes_query() {
    let message = Message::find_nodes_query(
        &ID::new(b"abcdefghij0123456789".to_owned()),
        &ID::new(b"mnopqrstuvwxyz123456".to_owned()),
        rand_tid(),
    );
    let tid = query_tid(&message);
    assert_eq!(
        message.into_bytes().unwrap(),
        encoded_with_custom_tid(
            "d1:ad2:id20:abcdefghij01234567896:target20:mnopqrstuvwxyz123456e1:q9:find_node1:t",
            &tid
        )
    );

    let (t, y, q, a) = decoded_query(
        b"d1:ad2:id20:abcdefghij01234567896:target20:mnopqrstuvwxyz123456e1:q9:find_node1:t2:aa1:y1:qe",
    );
    assert_eq!(t, b"aa".to_vec());
    assert_eq!(y, b'q');
    assert_eq!(q, "find_node");
    let Arguments::FindNode { id, target } = a else {
        panic!("arguments should be Arguments::FindNode");
    };
    assert_eq!(ID::new(b"mnopqrstuvwxyz123456".to_owned()), target);
    assert_eq!(ID::new(b"abcdefghij0123456789".to_owned()), id);
}

#[test]
fn krpc_message_find_nodes_resp_closest() {
    let message = Message::find_nodes_resp(
        &ID::new(b"0123456789abcdefghij".to_owned()),
        Nodes::Closest(vec![
            Node::from_compact_bytes(b"rdYAxWC9Zi!A97zKJUbH9HVcgP").unwrap(),
            Node::from_compact_bytes(b"7Z5cQScmZcC4M2hYKy!JrcYPtT").unwrap(),
            Node::from_compact_bytes(b"9^jy^pm8sZQy3dukB$CF9^o@of").unwrap(),
        ]),
        tid_aa(),
    );
    assert_eq!(
        message.into_bytes().unwrap(),
        b"d1:rd2:id20:0123456789abcdefghij5:nodes78:rdYAxWC9Zi!A97zKJUbH9HVcgP7Z5cQScmZcC4M2hYKy!JrcYPtT9^jy^pm8sZQy3dukB$CF9^o@ofe1:t2:aa1:y1:re".to_vec()
    );

    let (t, y, r) = decoded_response(
        b"d1:rd2:id20:0123456789abcdefghij5:nodes78:rdYAxWC9Zi!A97zKJUbH9HVcgP7Z5cQScmZcC4M2hYKy!JrcYPtT9^jy^pm8sZQy3dukB$CF9^o@ofe1:t2:aa1:y1:re",
    );
    assert_eq!(t, b"aa".to_vec());
    assert_eq!(y, b'r');
    let Response::FindNode { id, nodes } = r else {
        panic!("response should be Response::FindNode");
    };
    assert_eq!(ID::new(b"0123456789abcdefghij".to_owned()), id);
    let Nodes::Closest(node_list) = nodes else {
        panic!("expected Nodes::Closest");
    };
    assert_eq!(node_list.len(), 3);
    assert_eq!(node_list[1].id, ID::new(b"7Z5cQScmZcC4M2hYKy!J".to_owned()));
    assert_eq!(node_addr_string(&node_list[2]), "57.94.111.64:28518");
}

#[test]
fn krpc_message_find_nodes_resp_exact() {
    let message = Message::find_nodes_resp(
        &ID::new(b"0123456789abcdefghij".to_owned()),
        Nodes::Exact(Node::from_compact_bytes(b"rdYAxWC9Zi!A97zKJUbH9HVcgP").unwrap()),
        tid_aa(),
    );
    assert_eq!(
        message.into_bytes().unwrap(),
        b"d1:rd2:id20:0123456789abcdefghij5:nodes26:rdYAxWC9Zi!A97zKJUbH9HVcgPe1:t2:aa1:y1:re".to_vec()
    );

    let (t, y, r) = decoded_response(
        b"d1:rd2:id20:0123456789abcdefghij5:nodes26:rdYAxWC9Zi!A97zKJUbH9HVcgPe1:t2:aa1:y1:re",
    );
    assert_eq!(t, b"aa".to_vec());
    assert_eq!(y, b'r');
    let Response::FindNode { id, nodes } = r else {
        panic!("response should be Response::FindNode");
    };
    assert_eq!(ID::new(b"0123456789abcdefghij".to_owned()), id);
    let Nodes::Exact(node) = nodes else {
        panic!("expected Nodes::Exact");
    };
    assert_eq!(node.id, ID::new(b"rdYAxWC9Zi!A97zKJUbH".to_owned()));
    assert_eq!(node_addr_string(&node), "57.72.86.99:26448");
}

#[test]
fn krpc_message_get_peers_query() {
    let message = Message::get_peers_query(
        &ID::new(b"abcdefghij0123456789".to_owned()),
        &ID::new(b"mnopqrstuvwxyz123456".to_owned()),
        rand_tid(),
    );
    let tid = query_tid(&message);
    assert_eq!(
        message.into_bytes().unwrap(),
        encoded_with_custom_tid(
            "d1:ad2:id20:abcdefghij01234567899:info_hash20:mnopqrstuvwxyz123456e1:q9:get_peers1:t",
            &tid
        )
    );

    let (t, y, q, a) = decoded_query(
        b"d1:ad2:id20:abcdefghij01234567899:info_hash20:mnopqrstuvwxyz123456e1:q9:get_peers1:t2:aa1:y1:qe",
    );
    assert_eq!(t, b"aa".to_vec());
    assert_eq!(y, b'q');
    assert_eq!(q, "get_peers");
    let Arguments::GetPeers { id, info_hash } = a else {
        panic!("arguments should be Arguments::GetPeers");
    };
    assert_eq!(ID::new(b"abcdefghij0123456789".to_owned()), id);
    assert_eq!(ID::new(b"mnopqrstuvwxyz123456".to_owned()), info_hash);
}

#[test]
fn krpc_message_get_peers_resp_vals() {
    let message = Message::get_peers_resp(
        &ID::new(b"abcdefghij0123456789".to_owned()),
        NoSizeBytes::new(b"aoeusnth".to_vec()),
        ValuesOrNodes::Values {
            values: vec![
                Peer::new([b'a', b'x', b'j', b'e'], 11893),
                Peer::new([b'i', b'd', b'h', b't'], 28269),
            ],
        },
        tid_aa(),
    );
    assert_eq!(
        message.into_bytes().unwrap(),
        b"d1:rd2:id20:abcdefghij01234567895:token8:aoeusnth6:valuesl6:axje.u6:idhtnmee1:t2:aa1:y1:re".to_vec()
    );

    let (t, y, r) = decoded_response(
        b"d1:rd2:id20:abcdefghij01234567895:token8:aoeusnth6:valuesl6:axje.u6:idhtnmee1:t2:aa1:y1:re",
    );
    assert_eq!(t, b"aa".to_vec());
    assert_eq!(y, b'r');
    let Response::GetPeers { id, token, values_or_nodes } = r else {
        panic!("response should be Response::GetPeers");
    };
    assert_eq!(ID::new(b"abcdefghij0123456789".to_owned()), id);
    assert_eq!(token.as_bytes(), b"aoeusnth".to_vec());
    let ValuesOrNodes::Values { values } = values_or_nodes else {
        panic!("expected values (peers)");
    };
    assert_eq!(values.len(), 2);
    assert_eq!(values[0], Peer::new([b'a', b'x', b'j', b'e'], 11893));
    assert_eq!(values[1], Peer::new([b'i', b'd', b'h', b't'], 28269));
}

#[test]
fn krpc_message_get_peers_resp_nodes() {
    let message = Message::get_peers_resp(
        &ID::new(b"abcdefghij0123456789".to_owned()),
        NoSizeBytes::new(b"aoeusnth".to_vec()),
        ValuesOrNodes::Nodes {
            nodes: Nodes::Closest(vec![
                Node::from_compact_bytes(b"rdYAxWC9Zi!A97zKJUbH9HVcgP").unwrap(),
                Node::from_compact_bytes(b"7Z5cQScmZcC4M2hYKy!JrcYPtT").unwrap(),
                Node::from_compact_bytes(b"9^jy^pm8sZQy3dukB$CF9^o@of").unwrap(),
            ]),
        },
        tid_aa(),
    );
    assert_eq!(
        message.into_bytes().unwrap(),
        b"d1:rd2:id20:abcdefghij01234567895:nodes78:rdYAxWC9Zi!A97zKJUbH9HVcgP7Z5cQScmZcC4M2hYKy!JrcYPtT9^jy^pm8sZQy3dukB$CF9^o@of5:token8:aoeusnthe1:t2:aa1:y1:re".to_vec()
    );

    let (t, y, r) = decoded_response(
        b"d1:rd2:id20:abcdefghij01234567895:nodes78:rdYAxWC9Zi!A97zKJUbH9HVcgP7Z5cQScmZcC4M2hYKy!JrcYPtT9^jy^pm8sZQy3dukB$CF9^o@of5:token8:aoeusnthe1:t2:aa1:y1:re",
    );
    assert_eq!(t, b"aa".to_vec());
    assert_eq!(y, b'r');
    let Response::GetPeers { id, token, values_or_nodes } = r else {
        panic!("response should be Response::GetPeers");
    };
    assert_eq!(ID::new(b"abcdefghij0123456789".to_owned()), id);
    assert_eq!(token.as_bytes(), b"aoeusnth".to_vec());
    let ValuesOrNodes::Nodes { nodes } = values_or_nodes else {
        panic!("expected nodes");
    };
    let Nodes::Closest(node_list) = nodes else {
        panic!("expected list of nodes");
    };
    assert_eq!(node_list.len(), 3);
    assert_eq!(node_list[1].id, ID::new(b"7Z5cQScmZcC4M2hYKy!J".to_owned()));
    assert_eq!(node_addr_string(&node_list[2]), "57.94.111.64:28518");
}

#[test]
fn krpc_message_announce_peer_query() {
    let message = Message::announce_peer_query(
        &ID::new(b"abcdefghij0123456789".to_owned()),
        &ID::new(b"mnopqrstuvwxyz123456".to_owned()),
        6881,
        NoSizeBytes::new(b"aoeusnth".to_vec()),
        rand_tid(),
    );
    let tid = query_tid(&message);
    assert_eq!(
        message.into_bytes().unwrap(),
        encoded_with_custom_tid(
            "d1:ad2:id20:abcdefghij01234567899:info_hash20:mnopqrstuvwxyz1234564:porti6881e5:token8:aoeusnthe1:q13:announce_peer1:t",
            &tid
        )
    );

    let (t, y, q, a) = decoded_query(
        b"d1:ad2:id20:abcdefghij012345678912:implied_porti1e9:info_hash20:mnopqrstuvwxyz1234564:porti6881e5:token8:aoeusnthe1:q13:announce_peer1:t2:aa1:y1:qe",
    );
    assert_eq!(t, b"aa".to_vec());
    assert_eq!(y, b'q');
    assert_eq!(q, "announce_peer");
    let Arguments::AnnouncePeer { id, info_hash, port, token } = a else {
        panic!("arguments should be Arguments::Ping");
    };
    assert_eq!(ID::new(b"abcdefghij0123456789".to_owned()), id);
    assert_eq!(ID::new(b"mnopqrstuvwxyz123456".to_owned()), info_hash);
    assert_eq!(b"aoeusnth".to_vec(), token.as_bytes());
    assert_eq!(6881, port);
}

#[test]
fn krpc_message_announce_peer_resp() {
    let message =
        Message::announce_peer_resp(&ID::new(b"mnopqrstuvwxyz123456".to_owned()), tid_aa());
    assert_eq!(
        message.into_bytes().unwrap(),
        b"d1:rd2:id20:mnopqrstuvwxyz123456e1:t2:aa1:y1:re".to_vec()
    );
}

#[test]
fn krpc_message_error() {
    let message = Message::_error_resp(
        vec![Error::Code(201), Error::Desc("A Generic Error Ocurred".to_string())],
        tid_aa(),
    );
    assert_eq!(
        message.into_bytes().unwrap(),
        b"d1:eli201e23:A Generic Error Ocurrede1:t2:aa1:y1:ee".to_vec()
    );

    let Message::Error { transaction_id: t, msg_type: y, error: e } =
        Message::from_bytes(b"d1:eli201e23:A Generic Error Ocurrede1:t2:aa1:y1:ee").unwrap()
    else {
        panic!("message should be Message::Error");
    };
    assert_eq!(t.as_bytes(), b"aa".to_vec());
    assert_eq!(y.0, b'e');
    match e[0] {
        Error::Code(code) => assert_eq!(code, 201),
        _ => panic!("first element in error message list should be error code"),
    }
    match &e[1] {
        Error::Desc(desc) => assert_eq!(desc, "A Generic Error Ocurred"),
        _ => panic!("second element in error message list should be error message"),
    }
}

#[test]
fn from_message() {
    let dec_digits_twice = ID::new([0, 1, 2, 3, 4, 5, 6, 7, 8, 9, 0, 1, 2, 3, 4, 5, 6, 7, 8, 9]);
    let message = Message::get_peers_query(&ID::new([0; ID_LEN]), &dec_digits_twice, rand_tid());
    let request_type = RequestType::from_message(&message);
    assert_eq!(request_type, RequestType::GetPeers);
}

#[test]
fn from_response() {
    let response = match Message::announce_peer_resp(
        &ID::new([0; ID_LEN]),
        NoSizeBytes::new(b"bytes".to_vec()),
    ) {
        Message::Response { response, .. } => response,
        _ => panic!("message should be a response"),
    };
    let request_type = RequestType::from_response(&response);
    assert_eq!(request_type, RequestType::AnnouncePeer);
}

#[test]
fn to_connection_query_into_message() {
    let info_hash = ID::new(rand::random());
    let own_node_id = ID::new(rand::random());

    let query_command = ToConQuery::GetPeers { info_hash };
    let message = query_command.into_message(&own_node_id);
    let exp_message = Message::get_peers_query(&own_node_id, &info_hash, rand_tid());

    assert_eq!(
        exp_message.into_bytes().unwrap()[..70],
        message.into_bytes().unwrap()[..70]
    );
}

#[test]
fn to_connection_resp_into_message() {
    let own_node_id = ID::new(rand::random());
    let secret = ID::new(rand::random());

    let tid = NoSizeBytes::new(b"bytes".to_vec());
    let nodes =
        Nodes::Exact(Node::from_compact_bytes("rdYAxWC9Zi!A97zKJUbH9HVcgP".as_bytes()).unwrap());

    let resp_command = ToConResp::FindNode { nodes: nodes.clone() };
    let token = NoSizeBytes::new(secret.hash_as_bytes(&[127, 0, 0, 1]));

    let message = resp_command.into_message(&own_node_id, tid.clone(), token);
    let exp_message = Message::find_nodes_resp(&own_node_id, nodes, tid);

    assert_eq!(exp_message.into_bytes().unwrap(), message.into_bytes().unwrap());
}

#[test]
fn tid_is_five_bytes() {
    let m = Message::ping_query(&ID::new([1; ID_LEN]), rand_tid());
    assert_eq!(m.tid().len(), 5);
}

#[test]
fn pending_requests_match_kind_and_tid() {
    let mut pending: PendingRequests<u32> = PendingRequests::new();
    pending.insert(b"ab".to_vec(), RequestType::Ping, 1);
    pending.insert(b"cd".to_vec(), RequestType::FindNode, 2);
    assert_eq!(pending.get(b"ab", RequestType::FindNode), None);
    assert_eq!(pending.get(b"ab", RequestType::Ping), Some(1));
    assert_eq!(pending.get(b"ab", RequestType::Ping), None);
    pending.insert(b"cd".to_vec(), RequestType::GetPeers, 3);
    assert_eq!(pending.get(b"cd", RequestType::GetPeers), Some(3));
    assert_eq!(pending.get(b"cd", RequestType::FindNode), None);
}

#[test]
fn decode_refuses_what_is_not_a_message() {
    assert!(Message::from_bytes(b"").is_err());
    assert!(Message::from_bytes(b"le").is_err());
    assert!(Message::from_bytes(b"d1:t2:aa1:y1:qe").is_err());
    assert!(Message::from_bytes(b"d1:ad2:id20:abcdefghij0123456789e1:q4:ping1:t2:aae").is_err());
    assert!(Message::from_bytes(b"d1:ad2:id3:abce1:q4:ping1:t2:aa1:y1:qe").is_err());
    assert!(Message::from_bytes(b"d1:ad2:id20:abcdefghij0123456789e1:q4:ping1:t2:aa1:y1:q").is_err());
}

#[test]
fn decode_gives_back_what_was_encoded() {
    let message = Message::announce_peer_query(
        &ID::new(b"abcdefghij0123456789".to_owned()),
        &ID::new(b"mnopqrstuvwxyz123456".to_owned()),
        6881,
        NoSizeBytes::new(b"aoeusnth".to_vec()),
        tid_aa(),
    );
    let bytes = message.into_bytes().unwrap();
    let again = Message::from_bytes(&bytes).unwrap();
    assert_eq!(again.into_bytes().unwrap(), bytes);
}
