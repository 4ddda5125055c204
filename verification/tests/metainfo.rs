use nargun::id::ID;
use nargun::metainfo::{from_buffer, Torrent, TrackerAddr};

fn bstr(s: &[u8]) -> Vec<u8> {
    let mut v = format!("{}:", s.len()).into_bytes();
    v.extend_from_slice(s);
    v
}

fn bint(n: u64) -> Vec<u8> {
    format!("i{}e", n).into_bytes()
}

fn dict(entries: &[(&[u8], Vec<u8>)]) -> Vec<u8> {
    let mut v = vec![b'd'];
    for (k, val) in entries {
        v.extend(bstr(k));
        v.extend_from_slice(val);
    }
    v.push(b'e');
    v
}

fn list(items: &[Vec<u8>]) -> Vec<u8> {
    let mut v = vec![b'l'];
    for i in items {
        v.extend_from_slice(i);
    }
    v.push(b'e');
    v
}

fn multi_info() -> Vec<u8> {
    let files = list(&[
        dict(&[(b"length", bint(100)), (b"path", list(&[bstr(b"dir"), bstr(b"one.mp3")]))]),
        dict(&[(b"length", bint(50)), (b"path", list(&[bstr(b"two.mp3")]))]),
    ]);
    let pieces: Vec<u8> = (0..200u32).map(|i| (i % 256) as u8).map(|b| b ^ 0xa8).collect();
    dict(&[
        (b"files", files),
        (b"name", bstr(b"WarBreaker")),
        (b"piece length", bint(16)),
        (b"pieces", bstr(&pieces)),
    ])
}

fn multi_torrent() -> Vec<u8> {
    let announce_list = list(&[
        list(&[bstr(b"http://tracker.files.fm:6969/announce")]),
        list(&[bstr(b"udp://tracker.example.org:80"), bstr(b"wss://ignored.example")]),
    ]);
    dict(&[
        (b"announce", bstr(b"http://tracker.files.fm:6969/announce")),
        (b"announce-list", announce_list),
        (b"info", multi_info()),
    ])
}

#[test]
fn multi_parse_synthetic() {
    let bytes = multi_torrent();
    let torrent = Torrent::from_bencode(&bytes).unwrap();

    assert_eq!(torrent.announce.len(), 2);
    assert!(torrent
        .announce
        .contains(&TrackerAddr::Http("http://tracker.files.fm:6969/announce".to_string())));
    assert!(torrent
        .announce
        .contains(&TrackerAddr::Udp("udp://tracker.example.org:80".to_string())));
    assert_eq!(torrent.info_hash, ID::new(openssl::sha::sha1(&multi_info())));
    assert!(torrent.info.length.is_none());
    assert!(torrent.info.in_multi_file_mode());
    assert!(!torrent.info.in_single_file_mode());
    assert_eq!(torrent.info.files.as_ref().unwrap().len(), 2);
    assert_eq!(torrent.info.files.as_ref().unwrap()[0].path, vec!["dir", "one.mp3"]);
    assert_eq!(torrent.info.name, "WarBreaker");
    assert_eq!(torrent.info.piece_length, 16);
    assert_eq!(*torrent.info.pieces.first().unwrap(), 0xa8);
    assert_eq!(torrent.info.length(), 150);
    assert_eq!(
        torrent.info.pieces.len() as u64,
        (torrent.info.length() + (torrent.info.piece_length - 1)) / torrent.info.piece_length * 20
    );
    assert_eq!(torrent.info.number_of_pieces(), 10);
    assert_eq!(torrent.count_pieces(), 10);
    assert_eq!(torrent.count_http_announcers(), 1);
    assert_eq!(torrent.http_trackers(), vec!["http://tracker.files.fm:6969/announce".to_string()]);
}

#[test]
fn single_parse_synthetic() {
    let pieces = vec![0x56u8; 40];
    let info = dict(&[
        (b"length", bint(30)),
        (b"name", bstr(b"ubuntu.iso")),
        (b"piece length", bint(16)),
        (b"pieces", bstr(&pieces)),
    ]);
    let bytes = dict(&[
        (b"announce", bstr(b"https://torrent.ubuntu.com/announce")),
        (b"comment", bstr(b"ignored")),
        (b"info", info.clone()),
    ]);
    let torrent = from_buffer(&bytes);
    assert_eq!(torrent.announce, vec![TrackerAddr::Http("https://torrent.ubuntu.com/announce".to_string())]);
    assert_eq!(torrent.info_hash, ID::new(openssl::sha::sha1(&info)));
    assert_eq!(torrent.info.length, Some(30));
    assert!(torrent.info.files.is_none());
    assert_eq!(torrent.info.name, "ubuntu.iso");
    assert_eq!(torrent.info.length(), 30);
    assert_eq!(torrent.info.number_of_pieces(), 2);
}

#[test]
fn refused_torrents() {
    let info = dict(&[
        (b"length", bint(30)),
        (b"name", bstr(b"x")),
        (b"piece length", bint(16)),
        (b"pieces", bstr(&[0u8; 20])),
    ]);
    // no tracker that can be used
    let no_tracker = dict(&[(b"announce", bstr(b"wss://a")), (b"info", info.clone())]);
    assert!(Torrent::from_bencode(&no_tracker).is_none());
    // no info
    let no_info = dict(&[(b"announce", bstr(b"http://a"))]);
    assert!(Torrent::from_bencode(&no_info).is_none());
    // neither length nor files
    let bad_info = dict(&[
        (b"name", bstr(b"x")),
        (b"piece length", bint(16)),
        (b"pieces", bstr(&[0u8; 20])),
    ]);
    let no_len = dict(&[(b"announce", bstr(b"http://a")), (b"info", bad_info)]);
    assert!(Torrent::from_bencode(&no_len).is_none());
    // keys out of order
    let unsorted = dict(&[(b"info", info.clone()), (b"announce", bstr(b"http://a"))]);
    assert!(Torrent::from_bencode(&unsorted).is_none());
    // a non-canonical integer
    let mut bad_int = dict(&[(b"announce", bstr(b"http://a")), (b"info", info)]);
    let pos = bad_int.windows(4).position(|w| w == b"i30e").unwrap();
    bad_int.splice(pos..pos + 4, b"i030e".iter().cloned());
    assert!(Torrent::from_bencode(&bad_int).is_none());
    assert!(Torrent::from_bencode(b"").is_none());
}

#[test]
fn decoded_info_has_a_size() {
    let single = dict(&[
        (b"announce", bstr(b"http://a")),
        (
            b"info",
            dict(&[
                (b"length", bint(30)),
                (b"name", bstr(b"x")),
                (b"piece length", bint(16)),
                (b"pieces", bstr(&[0u8; 40])),
            ]),
        ),
    ]);
    let t = Torrent::from_bencode(&single).unwrap();
    assert!(t.info.in_single_file_mode() || t.info.in_multi_file_mode());
    let t = Torrent::from_bencode(&multi_torrent()).unwrap();
    assert!(t.info.in_multi_file_mode());
}

#[test]
fn tracker_addr_by_scheme() {
    assert_eq!(
        TrackerAddr::from_string("udp://x:1".to_string()),
        Some(TrackerAddr::Udp("udp://x:1".to_string()))
    );
    assert_eq!(
        TrackerAddr::from_string("https://x".to_string()),
        Some(TrackerAddr::Http("https://x".to_string()))
    );
    assert_eq!(TrackerAddr::from_string("ftp://x".to_string()), None);
    let a = TrackerAddr::Http("http://a".to_string());
    assert!(a.same_as(&TrackerAddr::Http("http://a".to_string())));
    assert!(!a.same_as(&TrackerAddr::Udp("http://a".to_string())));
}
