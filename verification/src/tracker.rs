//! HTTP tracker protocol: the announce URL and the tracker's bencoded response.
use vstd::prelude::*;
use vstd::string::StringExecFns;
use crate::bencode::{text_at, uint_at, bytes_at, dict_fold, prev_key, next_entry, key_is, read_text, read_uint, read_bytes};
use crate::peer::{Peer, Peers, Status, ipv4_of, port_of, socketaddr_from_compact_bytes, upsert_all};
use crate::id::ID;
use crate::metainfo::{Torrent, File, total_length};

verus! {

/// Seconds to wait before asking a tracker that did not answer again.
pub const TRACKER_RETRY_INTERVAL: u64 = 300;

/// Times an announce that got no answer is sent again before giving up.
pub const ANNOUNCE_RETRY: u8 = 3;

/// Why an announce is sent.
#[derive(Debug, Clone, Copy, PartialEq, Eq, Structural)]
pub enum AnnounceEvent {
    Started,
    Stopped,
    Completed,
}

/// The parameters of an announce to a tracker.
#[derive(Debug)]
pub struct Announce {
    pub info_hash: [u8; 20],
    pub peer_id: [u8; 20],
    pub port: u16,
    pub uploaded: u64,
    pub downloaded: u64,
    pub left: u64,
    pub compact: bool,
    pub no_peer_id: bool,
    pub event: Option<AnnounceEvent>,
    pub tracker_id: Option<String>,
}

/// Bytes that stand for themselves in a URL: letters, digits and `-`, `.`, `_`, `~`.
pub open spec fn url_safe(b: u8) -> bool {
    (48 <= b <= 57) || (65 <= b <= 90) || (97 <= b <= 122) || b == 45 || b == 46 || b == 95 || b
        == 126
}

/// The upper-case hexadecimal digit of `d` (below sixteen).
pub open spec fn hex_digit(d: u8) -> char {
    if d < 10 {
        (48 + d) as char
    } else {
        (55 + d) as char
    }
}

/// Percent-encoding of one byte.
pub open spec fn pct_byte(b: u8) -> Seq<char> {
    if url_safe(b) {
        seq![b as char]
    } else {
        seq!['%', hex_digit(b / 16), hex_digit(b % 16)]
    }
}

/// Percent-encoding of bytes: each byte in turn.
pub open spec fn pct_encode(data: Seq<u8>) -> Seq<char>
    decreases data.len(),
{
    if data.len() == 0 {
        Seq::empty()
    } else {
        pct_encode(data.drop_last()) + pct_byte(data.last())
    }
}

/// The decimal digit `d` (below ten).
pub open spec fn digit_char(d: nat) -> char {
    (48 + d) as char
}

/// Decimal notation of `n`, without leading zeros.
pub open spec fn decimal_digits(n: nat) -> Seq<char>
    decreases n,
{
    if n < 10 {
        seq![digit_char(n)]
    } else {
        decimal_digits(n / 10).push(digit_char(n % 10))
    }
}

/// `urlencoding::encode_binary`: every byte but letters, digits, `-`, `.`, `_` and `~` is
/// written as `%` and two upper-case hexadecimal digits.
#[verifier::external_body]
fn url_encode(data: &[u8]) -> (r: String)
    ensures
        r@ == pct_encode(data@),
{
    urlencoding::encode_binary(data).into_owned()
}

/// The decimal digit `d` as text.
fn digit_text(d: u64) -> (r: &'static str)
    requires
        d < 10,
    ensures
        r@ == seq![digit_char(d as nat)],
{
    match d {
        0 => {
            proof {
                reveal_strlit("0");
            }
            "0"
        },
        1 => {
            proof {
                reveal_strlit("1");
            }
            "1"
        },
        2 => {
            proof {
                reveal_strlit("2");
            }
            "2"
        },
        3 => {
            proof {
                reveal_strlit("3");
            }
            "3"
        },
        4 => {
            proof {
                reveal_strlit("4");
            }
            "4"
        },
        5 => {
            proof {
                reveal_strlit("5");
            }
            "5"
        },
        6 => {
            proof {
                reveal_strlit("6");
            }
            "6"
        },
        7 => {
            proof {
                reveal_strlit("7");
            }
            "7"
        },
        8 => {
            proof {
                reveal_strlit("8");
            }
            "8"
        },
        _ => {
            proof {
                reveal_strlit("9");
            }
            "9"
        },
    }
}

/// Appends the decimal notation of `n` to `s`.
fn append_decimal(s: &mut String, n: u64)
    ensures
        final(s)@ == old(s)@ + decimal_digits(n as nat),
    decreases n,
{
    if n >= 10 {
        append_decimal(s, n / 10);
    }
    s.append(digit_text(n % 10));
    proof {
        if n >= 10 {
            assert(decimal_digits(n as nat) == decimal_digits((n / 10) as nat).push(digit_char((n % 10) as nat)));
        }
    }
}

/// The decimal notation of `n`.
fn decimal(n: u64) -> (r: String)
    ensures
        r@ == decimal_digits(n as nat),
{
    let mut s = String::new();
    append_decimal(&mut s, n);
    s
}

/// The name of an event in an announce URL.
pub open spec fn event_name(e: AnnounceEvent) -> Seq<char> {
    match e {
        AnnounceEvent::Started => "started"@,
        AnnounceEvent::Stopped => "stopped"@,
        AnnounceEvent::Completed => "completed"@,
    }
}

/// A flag as the digit `1` or `0`.
pub open spec fn flag_digits(b: bool) -> Seq<char> {
    decimal_digits(
        if b {
            1nat
        } else {
            0nat
        },
    )
}

/// The announce URL for `tracker_url`: the parameters appended as a query, in a fixed order.
pub open spec fn announce_url(a: Announce, tracker_url: Seq<char>) -> Seq<char> {
    tracker_url + "?info_hash="@ + pct_encode(a.info_hash@) + "&peer_id="@ + pct_encode(a.peer_id@)
        + "&port="@ + decimal_digits(a.port as nat) + "&uploaded="@ + decimal_digits(
        a.uploaded as nat,
    ) + "&downloaded="@ + decimal_digits(a.downloaded as nat) + "&left="@ + decimal_digits(
        a.left as nat,
    ) + "&compact="@ + flag_digits(a.compact) + no_peer_id_part(a) + event_part(a) + tracker_id_part(a)
}

/// `&no_peer_id=` and its flag, sent only without compact peer lists.
pub open spec fn no_peer_id_part(a: Announce) -> Seq<char> {
    if !a.compact {
        "&no_peer_id="@ + flag_digits(a.no_peer_id)
    } else {
        Seq::empty()
    }
}

/// `&event=` and the event's name, if there is one.
pub open spec fn event_part(a: Announce) -> Seq<char> {
    match a.event {
        Some(e) => "&event="@ + event_name(e),
        None => Seq::empty(),
    }
}

/// `&trackerid=` and the identifier the tracker gave, if it gave one.
pub open spec fn tracker_id_part(a: Announce) -> Seq<char> {
    match a.tracker_id {
        Some(t) => "&trackerid="@ + t@,
        None => Seq::empty(),
    }
}

impl Announce {
    /// The URL that announces to `tracker_url`.
    pub fn as_url(&self, tracker_url: &str) -> (r: String)
        ensures
            r@ == announce_url(*self, tracker_url@),
    {
        let mut s = String::from_str(tracker_url);
        s.append("?info_hash=");
        s.append(url_encode(&self.info_hash).as_str());
        s.append("&peer_id=");
        s.append(url_encode(&self.peer_id).as_str());
        s.append("&port=");
        s.append(decimal(self.port as u64).as_str());
        s.append("&uploaded=");
        s.append(decimal(self.uploaded).as_str());
        s.append("&downloaded=");
        s.append(decimal(self.downloaded).as_str());
        s.append("&left=");
        s.append(decimal(self.left).as_str());
        s.append("&compact=");
        s.append(
            decimal(
                if self.compact {
                    1
                } else {
                    0
                },
            ).as_str(),
        );
        let ghost base = s@;
        if !self.compact {
            s.append("&no_peer_id=");
            s.append(
                decimal(
                    if self.no_peer_id {
                        1
                    } else {
                        0
                    },
                ).as_str(),
            );
        }
        let ghost with_flag = s@;
        match &self.event {
            Some(event) => {
                s.append("&event=");
                match event {
                    AnnounceEvent::Started => s.append("started"),
                    AnnounceEvent::Stopped => s.append("stopped"),
                    AnnounceEvent::Completed => s.append("completed"),
                }
            },
            None => {},
        }
        let ghost with_event = s@;
        match &self.tracker_id {
            Some(tracker_id) => {
                s.append("&trackerid=");
                s.append(tracker_id.as_str());
            },
            None => {},
        }
        proof {
            assert(with_flag == base + no_peer_id_part(*self));
            assert(with_event == with_flag + event_part(*self));
            assert(s@ == with_event + tracker_id_part(*self));
        }
        s
    }
}

/// What a tracker answers to an announce.
#[derive(Debug, Clone)]
pub struct TrackerResponse {
    pub warning_message: Option<String>,
    pub interval: u64,
    pub min_interval: Option<u64>,
    pub tracker_id: Option<String>,
    pub complete: u64,
    pub incomplete: u64,
    pub peers: Vec<Peer>,
}

/// The peers of a compact peer list: six bytes each, a shorter tail being ignored.
pub open spec fn compact_peers(b: Seq<u8>) -> Seq<Peer> {
    Seq::new(
        b.len() / 6,
        |i: int|
            Peer {
                ip: ipv4_of(b[6 * i], b[6 * i + 1], b[6 * i + 2], b[6 * i + 3]),
                port: port_of(b[6 * i + 4], b[6 * i + 5]),
            },
    )
}

pub struct ResponseSpec {
    pub warning_message: Option<Seq<char>>,
    pub interval: u64,
    pub min_interval: Option<u64>,
    pub tracker_id: Option<Seq<char>>,
    pub complete: u64,
    pub incomplete: u64,
    pub peers: Seq<Peer>,
}

/// The text of an optional string.
pub open spec fn opt_text(t: Option<String>) -> Option<Seq<char>> {
    match t {
        Some(s) => Some(s@),
        None => None,
    }
}

impl View for TrackerResponse {
    type V = ResponseSpec;

    open spec fn view(&self) -> ResponseSpec {
        ResponseSpec {
            warning_message: opt_text(self.warning_message),
            interval: self.interval,
            min_interval: self.min_interval,
            tracker_id: opt_text(self.tracker_id),
            complete: self.complete,
            incomplete: self.incomplete,
            peers: self.peers@,
        }
    }
}

/// The fields of a response dictionary read so far.
pub struct ResponseAcc {
    pub warning_message: Option<Seq<char>>,
    pub interval: Option<u64>,
    pub min_interval: Option<u64>,
    pub tracker_id: Option<Seq<char>>,
    pub complete: Option<u64>,
    pub incomplete: Option<u64>,
    pub peers: Option<Seq<Peer>>,
}

pub open spec fn empty_response_acc() -> ResponseAcc {
    ResponseAcc {
        warning_message: None,
        interval: None,
        min_interval: None,
        tracker_id: None,
        complete: None,
        incomplete: None,
        peers: None,
    }
}

pub open spec fn key_warning_message() -> Seq<u8> {
    seq![119u8, 97, 114, 110, 105, 110, 103, 32, 109, 101, 115, 115, 97, 103, 101]
}

pub open spec fn key_interval() -> Seq<u8> {
    seq![105u8, 110, 116, 101, 114, 118, 97, 108]
}

pub open spec fn key_min_interval() -> Seq<u8> {
    seq![109u8, 105, 110, 32, 105, 110, 116, 101, 114, 118, 97, 108]
}

pub open spec fn key_tracker_id() -> Seq<u8> {
    seq![116u8, 114, 97, 99, 107, 101, 114, 32, 105, 100]
}

pub open spec fn key_complete() -> Seq<u8> {
    seq![99u8, 111, 109, 112, 108, 101, 116, 101]
}

pub open spec fn key_incomplete() -> Seq<u8> {
    seq![105u8, 110, 99, 111, 109, 112, 108, 101, 116, 101]
}

pub open spec fn key_peers() -> Seq<u8> {
    seq![112u8, 101, 101, 114, 115]
}

/// Reads the entry `key` of a response dictionary, its value at `v`.
pub open spec fn response_field(s: Seq<u8>, key: Seq<u8>, v: int, acc: ResponseAcc) -> Option<ResponseAcc> {
    if key == key_warning_message() {
        match text_at(s, v) {
            Some(t) => Some(ResponseAcc { warning_message: Some(t), ..acc }),
            None => None,
        }
    } else if key == key_interval() {
        match uint_at(s, v) {
            Some(n) => Some(ResponseAcc { interval: Some(n), ..acc }),
            None => None,
        }
    } else if key == key_min_interval() {
        match uint_at(s, v) {
            Some(n) => Some(ResponseAcc { min_interval: Some(n), ..acc }),
            None => None,
        }
    } else if key == key_tracker_id() {
        match text_at(s, v) {
            Some(t) => Some(ResponseAcc { tracker_id: Some(t), ..acc }),
            None => None,
        }
    } else if key == key_complete() {
        match uint_at(s, v) {
            Some(n) => Some(ResponseAcc { complete: Some(n), ..acc }),
            None => None,
        }
    } else if key == key_incomplete() {
        match uint_at(s, v) {
            Some(n) => Some(ResponseAcc { incomplete: Some(n), ..acc }),
            None => None,
        }
    } else if key == key_peers() {
        match bytes_at(s, v) {
            Some(b) => Some(ResponseAcc { peers: Some(compact_peers(b)), ..acc }),
            None => None,
        }
    } else {
        Some(acc)
    }
}

pub open spec fn response_handler(s: Seq<u8>) -> spec_fn(Seq<u8>, int, ResponseAcc) -> Option<ResponseAcc> {
    |key: Seq<u8>, v: int, acc: ResponseAcc| response_field(s, key, v, acc)
}

/// Nesting allowed inside a response dictionary (two levels, the dictionary included).
pub open spec fn response_depth() -> nat {
    1
}

/// The response at the start of `s`: a dictionary with `interval`, `complete`, `incomplete`
/// and `peers`.
pub open spec fn response_of(s: Seq<u8>) -> Option<ResponseSpec> {
    if s.len() > 0 && s[0] == 100 {
        match dict_fold(s, 1, response_depth(), None, empty_response_acc(), response_handler(s)) {
            Some(a) => if a.interval is Some && a.complete is Some && a.incomplete is Some
                && a.peers is Some {
                Some(
                    ResponseSpec {
                        warning_message: a.warning_message,
                        interval: a.interval->0,
                        min_interval: a.min_interval,
                        tracker_id: a.tracker_id,
                        complete: a.complete->0,
                        incomplete: a.incomplete->0,
                        peers: a.peers->0,
                    },
                )
            } else {
                None
            },
            None => None,
        }
    } else {
        None
    }
}

/// The peers of a compact peer list.
pub fn peers_from_compact(b: &[u8]) -> (r: Vec<Peer>)
    ensures
        r@ == compact_peers(b@),
{
    let len = b.len();
    let n = len / 6;
    let mut out: Vec<Peer> = Vec::new();
    let mut i: usize = 0;
    while i < n
        invariant
            len == b@.len(),
            n == len / 6,
            0 <= i <= n,
            out@.len() == i,
            forall|k: int| 0 <= k < i ==> #[trigger] out@[k] == compact_peers(b@)[k],
        decreases n - i,
    {
        assert(6 * i + 6 <= len) by (nonlinear_arith)
            requires
                i < n,
                n == len / 6,
        ;
        let chunk = &b[6 * i..6 * i + 6];
        match socketaddr_from_compact_bytes(chunk) {
            Ok(p) => out.push(p),
            Err(_) => {
                assert(false);
            },
        }
        i += 1;
    }
    assert(out@ == compact_peers(b@));
    out
}

impl TrackerResponse {
    /// The answer put in place of one a tracker did not give: ask again after the retry interval.
    pub fn retry_dummy() -> (r: TrackerResponse)
        ensures
            r.warning_message is None,
            r.interval == TRACKER_RETRY_INTERVAL,
            r.min_interval is None,
            r.tracker_id is None,
            r.complete == 0,
            r.incomplete == 0,
            r.peers@.len() == 0,
    {
        TrackerResponse {
            warning_message: None,
            interval: TRACKER_RETRY_INTERVAL,
            min_interval: None,
            tracker_id: None,
            complete: 0,
            incomplete: 0,
            peers: Vec::new(),
        }
    }

    /// Decodes a tracker's answer: `None` when it is not a valid response.
    pub fn from_bencode(s: &[u8]) -> (r: Option<TrackerResponse>)
        ensures
            match r {
                Some(t) => response_of(s@) == Some(t@),
                None => response_of(s@) is None,
            },
    {
        if !(s.len() > 0 && s[0] == 100) {
            return None;
        }
        let dd: usize = 1;
        let ghost f = response_handler(s@);
        let mut warning_message: Option<String> = None;
        let mut interval: Option<u64> = None;
        let mut min_interval: Option<u64> = None;
        let mut tracker_id: Option<String> = None;
        let mut complete: Option<u64> = None;
        let mut incomplete: Option<u64> = None;
        let mut peers: Option<Vec<Peer>> = None;
        let mut q: usize = 1;
        let mut prev: Option<(usize, usize)> = None;
        loop
            invariant
                0 < q <= s@.len(),
                s@[0] == 100,
                dd == response_depth(),
                f == response_handler(s@),
                prev matches Some(k) ==> k.0 <= k.1 <= s@.len(),
                dict_fold(
                    s@,
                    q as int,
                    dd as nat,
                    prev_key(s@, prev),
                    ResponseAcc {
                        warning_message: opt_text(warning_message),
                        interval,
                        min_interval,
                        tracker_id: opt_text(tracker_id),
                        complete,
                        incomplete,
                        peers: match peers {
                            Some(v) => Some(v@),
                            None => None,
                        },
                    },
                    f,
                ) == dict_fold(s@, 1, dd as nat, None, empty_response_acc(), f),
            decreases s@.len() - q,
        {
            if q >= s.len() {
                return None;
            }
            if s[q] == 101 {
                return match (interval, complete, incomplete, peers) {
                    (Some(interval), Some(complete), Some(incomplete), Some(peers)) => Some(
                        TrackerResponse {
                            warning_message,
                            interval,
                            min_interval,
                            tracker_id,
                            complete,
                            incomplete,
                            peers,
                        },
                    ),
                    _ => None,
                };
            }
            let e = match next_entry(s, q, dd, prev) {
                Some(e) => e,
                None => {
                    return None;
                },
            };
            if !(q < e.2 && e.2 <= s.len()) {
                return None;
            }
            if key_is(s, e.0, e.1, &[119u8, 97, 114, 110, 105, 110, 103, 32, 109, 101, 115, 115, 97, 103, 101]) {
                match read_text(s, e.1) {
                    Some(t) => {
                        warning_message = Some(t);
                    },
                    None => {
                        return None;
                    },
                }
            } else if key_is(s, e.0, e.1, &[105u8, 110, 116, 101, 114, 118, 97, 108]) {
                match read_uint(s, e.1) {
                    Some(n) => {
                        interval = Some(n);
                    },
                    None => {
                        return None;
                    },
                }
            } else if key_is(s, e.0, e.1, &[109u8, 105, 110, 32, 105, 110, 116, 101, 114, 118, 97, 108]) {
                match read_uint(s, e.1) {
                    Some(n) => {
                        min_interval = Some(n);
                    },
                    None => {
                        return None;
                    },
                }
            } else if key_is(s, e.0, e.1, &[116u8, 114, 97, 99, 107, 101, 114, 32, 105, 100]) {
                match read_text(s, e.1) {
                    Some(t) => {
                        tracker_id = Some(t);
                    },
                    None => {
                        return None;
                    },
                }
            } else if key_is(s, e.0, e.1, &[99u8, 111, 109, 112, 108, 101, 116, 101]) {
                match read_uint(s, e.1) {
                    Some(n) => {
                        complete = Some(n);
                    },
                    None => {
                        return None;
                    },
                }
            } else if key_is(s, e.0, e.1, &[105u8, 110, 99, 111, 109, 112, 108, 101, 116, 101]) {
                match read_uint(s, e.1) {
                    Some(n) => {
                        incomplete = Some(n);
                    },
                    None => {
                        return None;
                    },
                }
            } else if key_is(s, e.0, e.1, &[112u8, 101, 101, 114, 115]) {
                match read_bytes(s, e.1) {
                    Some(b) => {
                        peers = Some(peers_from_compact(b.as_slice()));
                    },
                    None => {
                        return None;
                    },
                }
            }
            q = e.2;
            prev = Some((e.0, e.1));
        }
    }
}

/// Port announced by a client that does not say which it listens on.
pub const DEFAULT_ANNOUNCE_PORT: u16 = 6887;

/// A copy of a text.
fn copy_text(s: &String) -> (r: String)
    ensures
        r@ == s@,
{
    String::from_str(s.as_str())
}

/// The tracker's identifier in a response, copied.
pub fn owned_id_or_none(tracker: &TrackerResponse) -> (r: Option<String>)
    ensures
        opt_text(r) == opt_text(tracker.tracker_id),
{
    match &tracker.tracker_id {
        Some(id) => Some(copy_text(id)),
        None => None,
    }
}

/// Stores the latest response of tracker `idx`. It keeps the identifier of the earlier
/// response when the new one gives none, and no identifier when the new one gives one.
pub fn update_tracker_list(trackers: &mut Vec<Option<TrackerResponse>>, tr: TrackerResponse, idx: usize)
    requires
        idx < old(trackers)@.len(),
    ensures
        final(trackers)@.len() == old(trackers)@.len(),
        forall|k: int| 0 <= k < old(trackers)@.len() && k != idx ==> #[trigger] final(trackers)@[k] == old(trackers)@[k],
        final(trackers)@[idx as int] matches Some(t) && t@ == (ResponseSpec {
            tracker_id: if tr.tracker_id is None && old(trackers)@[idx as int] is Some {
                opt_text(old(trackers)@[idx as int]->0.tracker_id)
            } else {
                None
            },
            ..tr@
        }),
{
    let mut old_response: Option<TrackerResponse> = None;
    std::mem::swap(&mut old_response, &mut trackers[idx]);
    let mut tr = tr;
    let keep = tr.tracker_id.is_none() && old_response.is_some();
    tr.tracker_id = if keep {
        match old_response {
            Some(o) => o.tracker_id,
            None => None,
        }
    } else {
        None
    };
    trackers.set(idx, Some(tr));
}

/// The first announce of a torrent: started, nothing up or down yet, all of it left.
pub fn initial_announce(torrent: &Torrent, peer_id: &[u8; 20]) -> (r: Announce)
    requires
        torrent.info.files is Some || torrent.info.length is Some,
        torrent.info.files matches Some(v) ==> total_length(v@.map_values(|x: File| x@)) <= u64::MAX,
    ensures
        r.info_hash@ == torrent.info_hash@,
        r.peer_id@ == peer_id@,
        r.port == DEFAULT_ANNOUNCE_PORT,
        r.uploaded == 0,
        r.downloaded == 0,
        r.left == match torrent.info.files {
            Some(v) => total_length(v@.map_values(|x: File| x@)),
            None => torrent.info.length->0 as nat,
        },
        r.compact,
        r.no_peer_id,
        r.event == Some(AnnounceEvent::Started),
        r.tracker_id is None,
{
    Announce {
        info_hash: torrent.info_hash.0,
        peer_id: *peer_id,
        port: DEFAULT_ANNOUNCE_PORT,
        uploaded: 0,
        downloaded: 0,
        left: torrent.info.length(),
        compact: true,
        no_peer_id: true,
        event: Some(AnnounceEvent::Started),
        tracker_id: None,
    }
}

/// The announce sent again after a tracker's interval, with the identifier it gave, and
/// the wait before it in milliseconds.
pub fn reannounce_after_interval(torrent: &Torrent, peer_id: &[u8; 20], tr: &TrackerResponse) -> (r: (Announce, u64))
    requires
        torrent.info.files is Some || torrent.info.length is Some,
        torrent.info.files matches Some(v) ==> total_length(v@.map_values(|x: File| x@)) <= u64::MAX,
        tr.interval <= u64::MAX / 1000,
    ensures
        r.0.info_hash@ == torrent.info_hash@,
        r.0.peer_id@ == peer_id@,
        r.0.port == DEFAULT_ANNOUNCE_PORT,
        r.0.uploaded == 0,
        r.0.downloaded == 0,
        r.0.left == match torrent.info.files {
            Some(v) => total_length(v@.map_values(|x: File| x@)),
            None => torrent.info.length->0 as nat,
        },
        r.0.compact,
        r.0.no_peer_id,
        r.0.event is None,
        opt_text(r.0.tracker_id) == opt_text(tr.tracker_id),
        r.1 == 1000 * tr.interval,
{
    let a = Announce {
        info_hash: torrent.info_hash.0,
        peer_id: *peer_id,
        port: DEFAULT_ANNOUNCE_PORT,
        uploaded: 0,
        downloaded: 0,
        left: torrent.info.length(),
        compact: true,
        no_peer_id: true,
        event: None,
        tracker_id: owned_id_or_none(tr),
    };
    (a, 1000 * tr.interval)
}

/// What wakes a tracker session between two announces.
#[derive(Debug, Clone, Copy, PartialEq, Eq, Structural)]
pub enum TrackerWake {
    Shutdown,
    IntervalElapsed,
    DownloadCompleted,
    CompletionChannelClosed,
}

/// What a tracker session does next.
#[derive(Debug)]
pub enum TrackerStep {
    /// Announce to this URL, then wait for the next wake.
    Announce(String),
    /// Announce to this URL once more, then stop.
    FinalAnnounce(String),
    /// Stop.
    Stop,
}

/// Bytes left to download: the pieces not downloaded times the piece length.
pub open spec fn bytes_left(piece_count: u64, downloaded: u64, piece_length: u64) -> int {
    (piece_count - downloaded) * piece_length
}

/// The left amount can be computed: no more pieces downloaded than there are, and the
/// product fits.
pub open spec fn left_fits(piece_count: u64, downloaded: u64, piece_length: u64) -> bool {
    downloaded <= piece_count && bytes_left(piece_count, downloaded, piece_length) <= u64::MAX
}

/// An HTTP tracker's session: where it is, and the announce that is sent to it next.
#[derive(Debug)]
pub struct HttpTrackerSession {
    tracker_url: String,
    announce: Announce,
    piece_count: u64,
    piece_length: u64,
}

impl HttpTrackerSession {
    pub closed spec fn spec_url(self) -> Seq<char> {
        self.tracker_url@
    }

    pub closed spec fn spec_announce(self) -> Announce {
        self.announce
    }

    pub closed spec fn spec_piece_count(self) -> u64 {
        self.piece_count
    }

    pub closed spec fn spec_piece_length(self) -> u64 {
        self.piece_length
    }

    /// A session that starts by announcing the download as started.
    pub fn new(
        tracker_url: String,
        info_hash: &ID,
        peer_id: &ID,
        piece_count: u64,
        piece_length: u64,
        pieces_downloaded: u64,
        tcp_port: u16,
    ) -> (r: Self)
        requires
            left_fits(piece_count, pieces_downloaded, piece_length),
        ensures
            r.spec_url() == tracker_url@,
            r.spec_piece_count() == piece_count,
            r.spec_piece_length() == piece_length,
            r.spec_announce() == (Announce {
                info_hash: info_hash.0,
                peer_id: peer_id.0,
                port: tcp_port,
                uploaded: 0,
                downloaded: 0,
                left: bytes_left(piece_count, pieces_downloaded, piece_length) as u64,
                compact: true,
                no_peer_id: true,
                event: Some(AnnounceEvent::Started),
                tracker_id: None,
            }),
    {
        let left = (piece_count - pieces_downloaded) * piece_length;
        HttpTrackerSession {
            tracker_url,
            announce: Announce {
                info_hash: info_hash.0,
                peer_id: peer_id.0,
                port: tcp_port,
                uploaded: 0,
                downloaded: 0,
                left,
                compact: true,
                no_peer_id: true,
                event: Some(AnnounceEvent::Started),
                tracker_id: None,
            },
            piece_count,
            piece_length,
        }
    }

    /// The URL of the next announce.
    pub fn url(&self) -> (r: String)
        ensures
            r@ == announce_url(self.spec_announce(), self.spec_url()),
    {
        self.announce.as_url(self.tracker_url.as_str())
    }

    /// Takes a tracker's answer: its peers become known, and its identifier is kept when none
    /// was kept yet. Gives the seconds to wait before the next announce.
    pub fn on_response(&mut self, response: &TrackerResponse, peers: &mut Peers) -> (r: u64)
        requires
            old(peers).wf(),
        ensures
            r == response.interval,
            final(peers).wf(),
            final(peers).entries() == upsert_all(
                old(peers).entries(),
                Seq::new(response.peers@.len(), |i: int| (response.peers@[i], Status::Unknown)),
            ),
            final(peers).spec_info_hash() == old(peers).spec_info_hash(),
            final(self).spec_url() == old(self).spec_url(),
            final(self).spec_piece_count() == old(self).spec_piece_count(),
            final(self).spec_piece_length() == old(self).spec_piece_length(),
            final(self).spec_announce() == (Announce {
                tracker_id: final(self).spec_announce().tracker_id,
                ..old(self).spec_announce()
            }),
            opt_text(final(self).spec_announce().tracker_id) == if old(self).spec_announce().tracker_id is None {
                opt_text(response.tracker_id)
            } else {
                opt_text(old(self).spec_announce().tracker_id)
            },
    {
        peers.extend(response.peers.as_slice());
        if self.announce.tracker_id.is_none() && response.tracker_id.is_some() {
            self.announce.tracker_id = owned_id_or_none(response);
        }
        response.interval
    }

    /// What to do on a wake: on shutdown announce once more as stopped; after the interval
    /// announce again with no event; when the download completes announce it as completed;
    /// when that news can no longer come, stop. Each announce states what is left.
    pub fn on_wake(&mut self, wake: TrackerWake, pieces_downloaded: u64) -> (r: TrackerStep)
        requires
            wake != TrackerWake::CompletionChannelClosed ==> left_fits(
                old(self).spec_piece_count(),
                pieces_downloaded,
                old(self).spec_piece_length(),
            ),
        ensures
            final(self).spec_url() == old(self).spec_url(),
            final(self).spec_piece_count() == old(self).spec_piece_count(),
            final(self).spec_piece_length() == old(self).spec_piece_length(),
            wake == TrackerWake::CompletionChannelClosed ==> r is Stop && final(self).spec_announce() == old(self).spec_announce(),
            wake != TrackerWake::CompletionChannelClosed ==> {
                let a = final(self).spec_announce();
                &&& a == (Announce {
                    event: a.event,
                    left: bytes_left(old(self).spec_piece_count(), pieces_downloaded, old(self).spec_piece_length()) as u64,
                    ..old(self).spec_announce()
                })
                &&& a.event == match wake {
                    TrackerWake::Shutdown => Some(AnnounceEvent::Stopped),
                    TrackerWake::DownloadCompleted => Some(AnnounceEvent::Completed),
                    _ => None,
                }
                &&& match wake {
                    TrackerWake::Shutdown => r matches TrackerStep::FinalAnnounce(u) && u@ == announce_url(a, old(self).spec_url()),
                    _ => r matches TrackerStep::Announce(u) && u@ == announce_url(a, old(self).spec_url()),
                }
            },
    {
        match wake {
            TrackerWake::CompletionChannelClosed => TrackerStep::Stop,
            TrackerWake::Shutdown => {
                self.announce.event = Some(AnnounceEvent::Stopped);
                self.announce.left = (self.piece_count - pieces_downloaded) * self.piece_length;
                TrackerStep::FinalAnnounce(self.url())
            },
            TrackerWake::IntervalElapsed => {
                self.announce.event = None;
                self.announce.left = (self.piece_count - pieces_downloaded) * self.piece_length;
                TrackerStep::Announce(self.url())
            },
            TrackerWake::DownloadCompleted => {
                self.announce.event = Some(AnnounceEvent::Completed);
                self.announce.left = (self.piece_count - pieces_downloaded) * self.piece_length;
                TrackerStep::Announce(self.url())
            },
        }
    }
}


/// What to do after a fetch of an announce: keep the answer, try again, or give up with
/// the placeholder that waits before the next announce.
#[derive(Debug)]
pub enum ContactStep {
    Retry,
    Done(TrackerResponse),
}

/// The step after fetch number `attempt` (the first being number 0) came back with
/// `response`, `None` when it failed: an answer is kept; a failure is retried until
/// `ANNOUNCE_RETRY` retries have been made, after which the placeholder stands in.
pub fn on_fetch(attempt: u32, response: Option<TrackerResponse>) -> (r: ContactStep)
    ensures
        match response {
            Some(x) => r == ContactStep::Done(x),
            None => if attempt < ANNOUNCE_RETRY {
                r is Retry
            } else {
                r matches ContactStep::Done(d) && d.warning_message is None && d.interval
                    == TRACKER_RETRY_INTERVAL && d.min_interval is None && d.tracker_id is None
                    && d.complete == 0 && d.incomplete == 0 && d.peers@.len() == 0
            },
        },
{
    match response {
        Some(x) => ContactStep::Done(x),
        None => {
            if attempt < ANNOUNCE_RETRY as u32 {
                ContactStep::Retry
            } else {
                ContactStep::Done(TrackerResponse::retry_dummy())
            }
        },
    }
}

} // verus!
