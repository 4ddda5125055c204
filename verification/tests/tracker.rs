use nargun::tracker::{on_fetch, ContactStep, ANNOUNCE_RETRY};
use nargun::id::ID;
use nargun::metainfo::Torrent;
use nargun::peer::{Peer, Peers};
use nargun::tracker::{
    initial_announce, owned_id_or_none, peers_from_compact, reannounce_after_interval, update_tracker_list, Announce,
    AnnounceEvent, HttpTrackerSession, TrackerResponse, TrackerStep, TrackerWake, DEFAULT_ANNOUNCE_PORT,
    TRACKER_RETRY_INTERVAL,
};

fn announce() -> Announce {
    let mut info_hash = [0u8; 20];
    info_hash[0] = b'a';
    info_hash[1] = 0xff;
    info_hash[2] = b'~';
    Announce {
        info_hash,
        peer_id: *b"-NA0001-abcdefghijkl",
        port: 6881,
        uploaded: 0,
        downloaded: 123,
        left: 4567,
        compact: true,
        no_peer_id: false,
        event: Some(AnnounceEvent::Started),
        tracker_id: None,
    }
}

#[test]
fn announce_url_compact() {
    let url = announce().as_url("http://t.example/announce");
    let hash = "a%FF~%00%00%00%00%00%00%00%00%00%00%00%00%00%00%00%00%00";
    assert_eq!(
        url,
        format!(
            "http://t.example/announce?info_hash={}&peer_id=-NA0001-abcdefghijkl&port=6881&uploaded=0&downloaded=123&left=4567&compact=1&event=started",
            hash
        )
    );
}

#[test]
fn announce_url_not_compact_with_tracker_id() {
    let mut a = announce();
    a.compact = false;
    a.no_peer_id = true;
    a.event = None;
    a.tracker_id = Some("xyz".to_string());
    let url = a.as_url("udp://u");
    assert!(url.ends_with("&compact=0&no_peer_id=1&trackerid=xyz"));
}

#[test]
fn response_decodes_compact_peers() {
    let mut body = b"d8:completei5e10:incompletei3e8:intervali1800e5:peers12:".to_vec();
    body.extend_from_slice(&[127, 0, 0, 1, 0x1a, 0xe1, 10, 1, 2, 3, 0, 80]);
    body.push(b'e');
    let r = TrackerResponse::from_bencode(&body).unwrap();
    assert_eq!(r.complete, 5);
    assert_eq!(r.incomplete, 3);
    assert_eq!(r.interval, 1800);
    assert_eq!(r.min_interval, None);
    assert_eq!(r.tracker_id, None);
    assert_eq!(r.peers, vec![Peer::new([127, 0, 0, 1], 6881), Peer::new([10, 1, 2, 3], 80)]);
}

#[test]
fn response_with_optional_fields_and_refusals() {
    let body = b"d8:completei1e10:incompletei0e8:intervali60e12:min intervali30e5:peers0:10:tracker id3:abc15:warning message2:hie".to_vec();
    let r = TrackerResponse::from_bencode(&body).unwrap();
    assert_eq!(r.min_interval, Some(30));
    assert_eq!(r.tracker_id.as_deref(), Some("abc"));
    assert_eq!(r.warning_message.as_deref(), Some("hi"));
    assert!(r.peers.is_empty());

    let missing_interval = b"d8:completei1e10:incompletei0e5:peers0:e".to_vec();
    assert!(TrackerResponse::from_bencode(&missing_interval).is_none());
    assert!(TrackerResponse::from_bencode(b"le").is_none());
}

#[test]
fn response_nesting_is_limited() {
    // a list of plain values under an unknown key is skipped
    let flat = b"d8:completei1e10:incompletei0e8:intervali60e5:otherl1:ae5:peers0:e".to_vec();
    assert!(TrackerResponse::from_bencode(&flat).is_some());
    // a list inside a list is one level too deep
    let deep = b"d8:completei1e10:incompletei0e8:intervali60e5:otherllee5:peers0:e".to_vec();
    assert!(TrackerResponse::from_bencode(&deep).is_none());
}

#[test]
fn compact_peers_ignore_short_tail() {
    let peers = peers_from_compact(&[1, 2, 3, 4, 0, 1, 9, 9]);
    assert_eq!(peers, vec![Peer::new([1, 2, 3, 4], 1)]);
}

#[test]
fn retry_dummy_waits() {
    let r = TrackerResponse::retry_dummy();
    assert_eq!(r.interval, TRACKER_RETRY_INTERVAL);
    assert!(r.peers.is_empty());
}

fn response(interval: u64, tracker_id: Option<&str>, peers: Vec<Peer>) -> TrackerResponse {
    TrackerResponse {
        warning_message: None,
        interval,
        min_interval: None,
        tracker_id: tracker_id.map(|t| t.to_string()),
        complete: 0,
        incomplete: 0,
        peers,
    }
}

fn single_file_torrent() -> Torrent {
    let mut info = b"d6:lengthi30e4:name10:ubuntu.iso12:piece lengthi16e6:pieces40:".to_vec();
    info.extend_from_slice(&[0x56u8; 40]);
    info.push(b'e');
    let mut bytes = b"d8:announce35:https://torrent.ubuntu.com/announce4:info".to_vec();
    bytes.extend_from_slice(&info);
    bytes.push(b'e');
    Torrent::from_bencode(&bytes).unwrap()
}

#[test]
fn tracker_list_keeps_an_earlier_id_only_when_none_is_new() {
    let mut trackers = vec![None, Some(response(10, Some("first"), vec![]))];
    update_tracker_list(&mut trackers, response(20, None, vec![]), 1);
    assert_eq!(trackers[1].as_ref().unwrap().tracker_id, Some("first".to_string()));
    assert_eq!(trackers[1].as_ref().unwrap().interval, 20);

    update_tracker_list(&mut trackers, response(30, Some("second"), vec![]), 1);
    assert_eq!(trackers[1].as_ref().unwrap().tracker_id, None);

    update_tracker_list(&mut trackers, response(40, None, vec![]), 0);
    assert_eq!(trackers[0].as_ref().unwrap().tracker_id, None);
    assert_eq!(trackers[0].as_ref().unwrap().interval, 40);
    assert_eq!(trackers[1].as_ref().unwrap().interval, 30);
}

#[test]
fn owned_id_is_a_copy() {
    assert_eq!(owned_id_or_none(&response(1, Some("abc"), vec![])), Some("abc".to_string()));
    assert_eq!(owned_id_or_none(&response(1, None, vec![])), None);
}

#[test]
fn first_and_later_announces() {
    let torrent = single_file_torrent();
    let peer_id = *b"-NA0001-abcdefghijkl";
    let first = initial_announce(&torrent, &peer_id);
    assert_eq!(first.info_hash, torrent.info_hash.0);
    assert_eq!(first.port, DEFAULT_ANNOUNCE_PORT);
    assert_eq!(first.left, 30);
    assert_eq!(first.event, Some(AnnounceEvent::Started));
    assert!(first.compact && first.no_peer_id);

    let (again, wait) = reannounce_after_interval(&torrent, &peer_id, &response(1800, Some("tid"), vec![]));
    assert_eq!(wait, 1_800_000);
    assert_eq!(again.event, None);
    assert_eq!(again.tracker_id, Some("tid".to_string()));
    assert_eq!(again.left, 30);
}

#[test]
fn session_announces_through_its_life() {
    let info_hash = ID::new([b'a'; 20]);
    let peer_id = ID::new([b'b'; 20]);
    let mut session =
        HttpTrackerSession::new("http://t.example/announce".to_string(), &info_hash, &peer_id, 10, 100, 4, 6881);
    let hash = "aaaaaaaaaaaaaaaaaaaa";
    let ids = "bbbbbbbbbbbbbbbbbbbb";
    assert_eq!(
        session.url(),
        format!(
            "http://t.example/announce?info_hash={}&peer_id={}&port=6881&uploaded=0&downloaded=0&left=600&compact=1&event=started",
            hash, ids
        )
    );

    let mut peers = Peers::new(&info_hash);
    let wait = session.on_response(&response(900, Some("tid"), vec![Peer::new([1, 2, 3, 4], 5)]), &mut peers);
    assert_eq!(wait, 900);
    assert_eq!(peers.peer_addresses(), vec![Peer::new([1, 2, 3, 4], 5)]);
    // A later identifier does not replace the first one.
    session.on_response(&response(900, Some("other"), vec![]), &mut peers);

    match session.on_wake(TrackerWake::IntervalElapsed, 6) {
        TrackerStep::Announce(url) => {
            assert!(url.contains("&left=400&"));
            assert!(url.ends_with("&compact=1&trackerid=tid"));
        },
        other => panic!("unexpected {:?}", other),
    }
    match session.on_wake(TrackerWake::DownloadCompleted, 10) {
        TrackerStep::Announce(url) => assert!(url.ends_with("&left=0&compact=1&event=completed&trackerid=tid")),
        other => panic!("unexpected {:?}", other),
    }
    match session.on_wake(TrackerWake::Shutdown, 10) {
        TrackerStep::FinalAnnounce(url) => assert!(url.contains("&event=stopped&")),
        other => panic!("unexpected {:?}", other),
    }
    assert!(matches!(session.on_wake(TrackerWake::CompletionChannelClosed, 0), TrackerStep::Stop));
}

#[test]
fn failed_fetches_are_retried_three_times() {
    assert_eq!(ANNOUNCE_RETRY, 3);
    for attempt in 0..3u32 {
        assert!(matches!(on_fetch(attempt, None), ContactStep::Retry));
    }
    match on_fetch(3, None) {
        ContactStep::Done(d) => {
            assert_eq!(d.interval, 300);
            assert!(d.peers.is_empty());
        }
        ContactStep::Retry => panic!("gave up too late"),
    }
    let body = b"d8:completei1e10:incompletei0e8:intervali60e5:peers0:e".to_vec();
    let answer = TrackerResponse::from_bencode(&body).unwrap();
    match on_fetch(5, Some(answer)) {
        ContactStep::Done(d) => assert_eq!(d.interval, 60),
        ContactStep::Retry => panic!("an answer is kept"),
    }
}
