//! Torrent metainfo: the dictionary of a `.torrent` file.
use vstd::prelude::*;
use crate::bencode::{
    text_at, text_list_at, text_lists_at, texts, uint_at, bytes_at, value_end, dict_fold,
    list_fold, prev_key, next_entry, key_is, read_text, read_text_list, read_text_lists, read_uint,
    read_bytes, scan_value, entry_at,
};
use crate::id::{ID, sha1, spec_sha1};
use vstd::string::StrSliceExecFns;

verus! {

pub open spec fn key_path() -> Seq<u8> {
    seq![112u8, 97, 116, 104]
}

pub open spec fn key_length() -> Seq<u8> {
    seq![108u8, 101, 110, 103, 116, 104]
}

pub open spec fn key_name() -> Seq<u8> {
    seq![110u8, 97, 109, 101]
}

pub open spec fn key_pieces() -> Seq<u8> {
    seq![112u8, 105, 101, 99, 101, 115]
}

pub open spec fn key_piece_length() -> Seq<u8> {
    seq![112u8, 105, 101, 99, 101, 32, 108, 101, 110, 103, 116, 104]
}

pub open spec fn key_files() -> Seq<u8> {
    seq![102u8, 105, 108, 101, 115]
}

pub open spec fn key_info() -> Seq<u8> {
    seq![105u8, 110, 102, 111]
}

pub open spec fn key_announce() -> Seq<u8> {
    seq![97u8, 110, 110, 111, 117, 110, 99, 101]
}

pub open spec fn key_announce_list() -> Seq<u8> {
    seq![97u8, 110, 110, 111, 117, 110, 99, 101, 45, 108, 105, 115, 116]
}

/// One file of a multi-file torrent: its path, one component per entry, and its size.
#[derive(Debug)]
pub struct File {
    pub path: Vec<String>,
    pub length: u64,
}

pub struct FileSpec {
    pub path: Seq<Seq<char>>,
    pub length: u64,
}

impl View for File {
    type V = FileSpec;

    open spec fn view(&self) -> FileSpec {
        FileSpec { path: texts(self.path@), length: self.length }
    }
}

/// The fields of a file dictionary read so far.
pub struct FileAcc {
    pub path: Option<Seq<Seq<char>>>,
    pub length: Option<u64>,
}

/// Reads the entry `key` of a file dictionary, its value at `v`.
pub open spec fn file_field(s: Seq<u8>, d: nat, key: Seq<u8>, v: int, acc: FileAcc) -> Option<FileAcc> {
    if key == key_path() {
        match text_list_at(s, v, d) {
            Some(l) => Some(FileAcc { path: Some(l), length: acc.length }),
            None => None,
        }
    } else if key == key_length() {
        match uint_at(s, v) {
            Some(n) => Some(FileAcc { path: acc.path, length: Some(n) }),
            None => None,
        }
    } else {
        Some(acc)
    }
}

pub open spec fn file_handler(s: Seq<u8>, d: nat) -> spec_fn(Seq<u8>, int, FileAcc) -> Option<FileAcc> {
    |key: Seq<u8>, v: int, acc: FileAcc| file_field(s, d, key, v, acc)
}

/// The file dictionary at `p`: both `path` and `length` are required.
pub open spec fn file_at(s: Seq<u8>, p: int, d: nat) -> Option<FileSpec> {
    if 0 <= p < s.len() && s[p] == 100 && d >= 1 {
        match dict_fold(
            s,
            p + 1,
            (d - 1) as nat,
            None,
            FileAcc { path: None, length: None },
            file_handler(s, (d - 1) as nat),
        ) {
            Some(a) => match (a.path, a.length) {
                (Some(path), Some(length)) => Some(FileSpec { path, length }),
                _ => None,
            },
            None => None,
        }
    } else {
        None
    }
}

pub open spec fn files_handler(s: Seq<u8>, d: nat) -> spec_fn(int, Seq<FileSpec>) -> Option<Seq<FileSpec>> {
    |v: int, acc: Seq<FileSpec>|
        match file_at(s, v, d) {
            Some(f) => Some(acc.push(f)),
            None => None,
        }
}

/// The list of file dictionaries at `p`.
pub open spec fn files_at(s: Seq<u8>, p: int, d: nat) -> Option<Seq<FileSpec>> {
    if 0 <= p < s.len() && s[p] == 108 && d >= 1 {
        list_fold(s, p + 1, (d - 1) as nat, Seq::empty(), files_handler(s, (d - 1) as nat))
    } else {
        None
    }
}

/// The views of the texts of `path`, if any.
pub open spec fn opt_texts(path: Option<Vec<String>>) -> Option<Seq<Seq<char>>> {
    match path {
        Some(v) => Some(texts(v@)),
        None => None,
    }
}

/// Reads the file dictionary at `p`.
fn read_file(s: &[u8], p: usize, d: usize) -> (r: Option<File>)
    requires
        p <= s@.len(),
    ensures
        match r {
            Some(f) => file_at(s@, p as int, d as nat) == Some(f@),
            None => file_at(s@, p as int, d as nat) is None,
        },
{
    if !(p < s.len() && s[p] == 100 && d >= 1) {
        return None;
    }
    let dd = d - 1;
    let ghost f = file_handler(s@, dd as nat);
    let mut path: Option<Vec<String>> = None;
    let mut length: Option<u64> = None;
    let mut q = p + 1;
    let mut prev: Option<(usize, usize)> = None;
    loop
        invariant
            p < q <= s@.len(),
            s@[p as int] == 100,
            d >= 1,
            dd == d - 1,
            f == file_handler(s@, dd as nat),
            prev matches Some(k) ==> k.0 <= k.1 <= s@.len(),
            dict_fold(s@, q as int, dd as nat, prev_key(s@, prev), FileAcc { path: opt_texts(path), length }, f)
                == dict_fold(s@, p + 1, dd as nat, None, FileAcc { path: None, length: None }, f),
        decreases s@.len() - q,
    {
        if q >= s.len() {
            return None;
        }
        if s[q] == 101 {
            assert(dict_fold(s@, q as int, dd as nat, prev_key(s@, prev), FileAcc { path: opt_texts(path), length }, f)
                == Some(FileAcc { path: opt_texts(path), length }));
            return match (path, length) {
                (Some(path), Some(length)) => Some(File { path, length }),
                _ => None,
            };
        }
        let e = match next_entry(s, q, dd, prev) {
            Some(e) => e,
            None => {
                return None;
            },
        };
        if !(q < e.2 && e.2 <= s.len()) {
            return None;
        }
        if key_is(s, e.0, e.1, &[112u8, 97, 116, 104]) {
            match read_text_list(s, e.1, dd) {
                Some(l) => {
                    path = Some(l);
                },
                None => {
                    return None;
                },
            }
        } else if key_is(s, e.0, e.1, &[108u8, 101, 110, 103, 116, 104]) {
            match read_uint(s, e.1) {
                Some(n) => {
                    length = Some(n);
                },
                None => {
                    return None;
                },
            }
        }
        q = e.2;
        prev = Some((e.0, e.1));
    }
}

/// Reads the list of file dictionaries at `p`.
fn read_files(s: &[u8], p: usize, d: usize) -> (r: Option<Vec<File>>)
    requires
        p <= s@.len(),
    ensures
        match r {
            Some(v) => files_at(s@, p as int, d as nat) == Some(v@.map_values(|x: File| x@)),
            None => files_at(s@, p as int, d as nat) is None,
        },
{
    if !(p < s.len() && s[p] == 108 && d >= 1) {
        return None;
    }
    let dd = d - 1;
    let ghost f = files_handler(s@, dd as nat);
    let mut out: Vec<File> = Vec::new();
    let mut q = p + 1;
    assert(out@.map_values(|x: File| x@) == Seq::<FileSpec>::empty());
    loop
        invariant
            p < q <= s@.len(),
            s@[p as int] == 108,
            d >= 1,
            dd == d - 1,
            f == files_handler(s@, dd as nat),
            list_fold(s@, q as int, dd as nat, out@.map_values(|x: File| x@), f) == list_fold(
                s@,
                p + 1,
                dd as nat,
                Seq::empty(),
                f,
            ),
        decreases s@.len() - q,
    {
        if q >= s.len() {
            return None;
        }
        if s[q] == 101 {
            assert(list_fold(s@, q as int, dd as nat, out@.map_values(|x: File| x@), f) == Some(out@.map_values(|x: File| x@)));
            return Some(out);
        }
        let e = match scan_value(s, q, dd) {
            Some(e) => e,
            None => {
                return None;
            },
        };
        if !(q < e && e <= s.len()) {
            return None;
        }
        let file = match read_file(s, q, dd) {
            Some(file) => file,
            None => {
                return None;
            },
        };
        let ghost before = out@;
        let ghost fv = file@;
        out.push(file);
        proof {
            assert(out@.map_values(|x: File| x@) == before.map_values(|x: File| x@).push(fv));
        }
        q = e;
    }
}

/// The info dictionary of a torrent.
#[derive(Debug)]
pub struct Info {
    pub name: String,
    pub piece_length: u64,
    pub pieces: Vec<u8>,
    pub length: Option<u64>,
    pub files: Option<Vec<File>>,
}

pub struct InfoSpec {
    pub name: Seq<char>,
    pub piece_length: u64,
    pub pieces: Seq<u8>,
    pub length: Option<u64>,
    pub files: Option<Seq<FileSpec>>,
}

/// The views of the files, if any.
pub open spec fn opt_files(files: Option<Vec<File>>) -> Option<Seq<FileSpec>> {
    match files {
        Some(v) => Some(v@.map_values(|x: File| x@)),
        None => None,
    }
}

impl View for Info {
    type V = InfoSpec;

    open spec fn view(&self) -> InfoSpec {
        InfoSpec {
            name: self.name@,
            piece_length: self.piece_length,
            pieces: self.pieces@,
            length: self.length,
            files: opt_files(self.files),
        }
    }
}

/// The fields of an info dictionary read so far.
pub struct InfoAcc {
    pub name: Option<Seq<char>>,
    pub piece_length: Option<u64>,
    pub pieces: Option<Seq<u8>>,
    pub length: Option<u64>,
    pub files: Option<Seq<FileSpec>>,
}

/// Reads the entry `key` of an info dictionary, its value at `v`.
pub open spec fn info_field(s: Seq<u8>, d: nat, key: Seq<u8>, v: int, acc: InfoAcc) -> Option<InfoAcc> {
    if key == key_name() {
        match text_at(s, v) {
            Some(t) => Some(InfoAcc { name: Some(t), ..acc }),
            None => None,
        }
    } else if key == key_pieces() {
        match bytes_at(s, v) {
            Some(b) => Some(InfoAcc { pieces: Some(b), ..acc }),
            None => None,
        }
    } else if key == key_length() {
        match uint_at(s, v) {
            Some(n) => Some(InfoAcc { length: Some(n), ..acc }),
            None => None,
        }
    } else if key == key_piece_length() {
        match uint_at(s, v) {
            Some(n) => Some(InfoAcc { piece_length: Some(n), ..acc }),
            None => None,
        }
    } else if key == key_files() {
        match files_at(s, v, d) {
            Some(f) => Some(InfoAcc { files: Some(f), ..acc }),
            None => None,
        }
    } else {
        Some(acc)
    }
}

pub open spec fn info_handler(s: Seq<u8>, d: nat) -> spec_fn(Seq<u8>, int, InfoAcc) -> Option<InfoAcc> {
    |key: Seq<u8>, v: int, acc: InfoAcc| info_field(s, d, key, v, acc)
}

pub open spec fn empty_info_acc() -> InfoAcc {
    InfoAcc { name: None, piece_length: None, pieces: None, length: None, files: None }
}

/// The info dictionary at `p`: `name`, `piece length` and `pieces` are required, and so is
/// `length` or `files`.
pub open spec fn info_at(s: Seq<u8>, p: int, d: nat) -> Option<InfoSpec> {
    if 0 <= p < s.len() && s[p] == 100 && d >= 1 {
        match dict_fold(s, p + 1, (d - 1) as nat, None, empty_info_acc(), info_handler(s, (d - 1) as nat)) {
            Some(a) => if (a.length is None && a.files is None) || a.piece_length is None
                || a.pieces is None || a.name is None {
                None
            } else {
                Some(
                    InfoSpec {
                        name: a.name->0,
                        piece_length: a.piece_length->0,
                        pieces: a.pieces->0,
                        length: a.length,
                        files: a.files,
                    },
                )
            },
            None => None,
        }
    } else {
        None
    }
}

/// Reads the info dictionary at `p`.
fn read_info(s: &[u8], p: usize, d: usize) -> (r: Option<Info>)
    requires
        p <= s@.len(),
    ensures
        match r {
            Some(i) => info_at(s@, p as int, d as nat) == Some(i@),
            None => info_at(s@, p as int, d as nat) is None,
        },
{
    if !(p < s.len() && s[p] == 100 && d >= 1) {
        return None;
    }
    let dd = d - 1;
    let ghost f = info_handler(s@, dd as nat);
    let mut name: Option<String> = None;
    let mut piece_length: Option<u64> = None;
    let mut pieces: Option<Vec<u8>> = None;
    let mut length: Option<u64> = None;
    let mut files: Option<Vec<File>> = None;
    let mut q = p + 1;
    let mut prev: Option<(usize, usize)> = None;
    loop
        invariant
            p < q <= s@.len(),
            s@[p as int] == 100,
            d >= 1,
            dd == d - 1,
            f == info_handler(s@, dd as nat),
            prev matches Some(k) ==> k.0 <= k.1 <= s@.len(),
            dict_fold(
                s@,
                q as int,
                dd as nat,
                prev_key(s@, prev),
                InfoAcc {
                    name: match name {
                        Some(t) => Some(t@),
                        None => None,
                    },
                    piece_length,
                    pieces: match pieces {
                        Some(b) => Some(b@),
                        None => None,
                    },
                    length,
                    files: opt_files(files),
                },
                f,
            ) == dict_fold(s@, p + 1, dd as nat, None, empty_info_acc(), f),
        decreases s@.len() - q,
    {
        if q >= s.len() {
            return None;
        }
        if s[q] == 101 {
            if length.is_none() && files.is_none() {
                return None;
            }
            return match (name, piece_length, pieces) {
                (Some(name), Some(piece_length), Some(pieces)) => Some(
                    Info { name, piece_length, pieces, length, files },
                ),
                _ => None,
            };
        }
        let e = match next_entry(s, q, dd, prev) {
            Some(e) => e,
            None => {
                return None;
            },
        };
        if !(q < e.2 && e.2 <= s.len()) {
            return None;
        }
        if key_is(s, e.0, e.1, &[110u8, 97, 109, 101]) {
            match read_text(s, e.1) {
                Some(t) => {
                    name = Some(t);
                },
                None => {
                    return None;
                },
            }
        } else if key_is(s, e.0, e.1, &[112u8, 105, 101, 99, 101, 115]) {
            match read_bytes(s, e.1) {
                Some(b) => {
                    pieces = Some(b);
                },
                None => {
                    return None;
                },
            }
        } else if key_is(s, e.0, e.1, &[108u8, 101, 110, 103, 116, 104]) {
            match read_uint(s, e.1) {
                Some(n) => {
                    length = Some(n);
                },
                None => {
                    return None;
                },
            }
        } else if key_is(s, e.0, e.1, &[112u8, 105, 101, 99, 101, 32, 108, 101, 110, 103, 116, 104]) {
            match read_uint(s, e.1) {
                Some(n) => {
                    piece_length = Some(n);
                },
                None => {
                    return None;
                },
            }
        } else if key_is(s, e.0, e.1, &[102u8, 105, 108, 101, 115]) {
            match read_files(s, e.1, dd) {
                Some(v) => {
                    files = Some(v);
                },
                None => {
                    return None;
                },
            }
        }
        q = e.2;
        prev = Some((e.0, e.1));
    }
}

impl Info {
    /// A single-file torrent states its length.
    pub fn in_single_file_mode(&self) -> (r: bool)
        ensures
            r == self.length is Some,
    {
        self.length.is_some()
    }

    /// A multi-file torrent lists its files.
    pub fn in_multi_file_mode(&self) -> (r: bool)
        ensures
            r == self.files is Some,
    {
        self.files.is_some()
    }

    /// Total size in bytes: the sum of the file sizes, or the stated length.
    pub fn length(&self) -> (r: u64)
        requires
            self.files is Some || self.length is Some,
            self.files matches Some(v) ==> total_length(v@.map_values(|x: File| x@)) <= u64::MAX,
        ensures
            r == match self.files {
                Some(v) => total_length(v@.map_values(|x: File| x@)),
                None => self.length->0 as nat,
            },
    {
        match &self.files {
            Some(files) => {
                let ghost fs = files@.map_values(|x: File| x@);
                let mut total: u64 = 0;
                let mut i: usize = 0;
                while i < files.len()
                    invariant
                        0 <= i <= files@.len(),
                        fs == files@.map_values(|x: File| x@),
                        total_length(fs) <= u64::MAX,
                        total == total_length(fs.take(i as int)),
                    decreases files@.len() - i,
                {
                    proof {
                        assert(fs.take(i + 1).drop_last() == fs.take(i as int));
                        lemma_total_length_prefix(fs, i + 1);
                    }
                    total = total + files[i].length;
                    i += 1;
                }
                assert(fs.take(i as int) == fs);
                total
            },
            None => match self.length {
                Some(l) => l,
                None => 0,
            },
        }
    }

    /// Number of pieces: one per twenty bytes of hashes, a partial hash counting as one.
    /// There is at least one byte of hashes.
    pub fn number_of_pieces(&self) -> (r: u32)
        requires
            self.pieces@.len() >= 1,
        ensures
            r == (1 + (self.pieces@.len() - 1) / 20) as u32,
    {
        let n = self.pieces.len();
        (1 + (n - 1) / 20) as u32
    }
}

/// The sum of the file sizes.
pub open spec fn total_length(files: Seq<FileSpec>) -> nat
    decreases files.len(),
{
    if files.len() == 0 {
        0
    } else {
        total_length(files.drop_last()) + files.last().length as nat
    }
}

proof fn lemma_total_length_prefix(files: Seq<FileSpec>, n: int)
    requires
        0 <= n <= files.len(),
    ensures
        total_length(files.take(n)) <= total_length(files),
    decreases files.len() - n,
{
    if n < files.len() {
        lemma_total_length_prefix(files, n + 1);
        assert(files.take(n + 1).drop_last() == files.take(n));
    } else {
        assert(files.take(n) == files);
    }
}

/// A tracker, by the scheme of its announce URL.
#[derive(Debug, Clone, PartialEq, Eq, Hash)]
pub enum TrackerAddr {
    Http(String),
    Udp(String),
}

pub enum TrackerSpec {
    Http(Seq<char>),
    Udp(Seq<char>),
}

impl View for TrackerAddr {
    type V = TrackerSpec;

    open spec fn view(&self) -> TrackerSpec {
        match self {
            TrackerAddr::Http(u) => TrackerSpec::Http(u@),
            TrackerAddr::Udp(u) => TrackerSpec::Udp(u@),
        }
    }
}

pub open spec fn starts_with(t: Seq<char>, pre: Seq<char>) -> bool {
    pre.len() <= t.len() && t.subrange(0, pre.len() as int) == pre
}

/// The tracker an announce URL names: `udp…` and `http…` (`https` included) are known.
pub open spec fn tracker_of(t: Seq<char>) -> Option<TrackerSpec> {
    if starts_with(t, seq!['u', 'd', 'p']) {
        Some(TrackerSpec::Udp(t))
    } else if starts_with(t, seq!['h', 't', 't', 'p']) {
        Some(TrackerSpec::Http(t))
    } else {
        None
    }
}

/// Adds the tracker named by `t`, unless it is unknown or already listed.
pub open spec fn add_tracker(acc: Seq<TrackerSpec>, t: Seq<char>) -> Seq<TrackerSpec> {
    match tracker_of(t) {
        Some(x) => if acc.contains(x) {
            acc
        } else {
            acc.push(x)
        },
        None => acc,
    }
}

pub open spec fn add_trackers(acc: Seq<TrackerSpec>, ts: Seq<Seq<char>>) -> Seq<TrackerSpec>
    decreases ts.len(),
{
    if ts.len() == 0 {
        acc
    } else {
        add_tracker(add_trackers(acc, ts.drop_last()), ts.last())
    }
}

pub open spec fn add_tracker_lists(acc: Seq<TrackerSpec>, ls: Seq<Seq<Seq<char>>>) -> Seq<TrackerSpec>
    decreases ls.len(),
{
    if ls.len() == 0 {
        acc
    } else {
        add_trackers(add_tracker_lists(acc, ls.drop_last()), ls.last())
    }
}

/// Whether `s` holds `pre` at its start.
fn text_starts_with(s: &String, pre: &str) -> (r: bool)
    ensures
        r == starts_with(s@, pre@),
{
    let st = s.as_str();
    let n = st.unicode_len();
    let m = pre.unicode_len();
    if m > n {
        return false;
    }
    let mut i: usize = 0;
    while i < m
        invariant
            st@ == s@,
            n == s@.len(),
            m == pre@.len(),
            m <= n,
            0 <= i <= m,
            forall|k: int| 0 <= k < i ==> s@[k] == pre@[k],
        decreases m - i,
    {
        if st.get_char(i) != pre.get_char(i) {
            assert(s@.subrange(0, m as int)[i as int] != pre@[i as int]);
            return false;
        }
        i += 1;
    }
    assert(s@.subrange(0, m as int) =~= pre@);
    true
}

impl TrackerAddr {
    /// The tracker an announce URL names, if its scheme is known.
    pub fn from_string(s: String) -> (r: Option<TrackerAddr>)
        ensures
            match r {
                Some(a) => tracker_of(s@) == Some(a@),
                None => tracker_of(s@) is None,
            },
    {
        let udp = "udp";
        let http = "http";
        proof {
            reveal_strlit("udp");
            reveal_strlit("http");
            assert(udp@ == seq!['u', 'd', 'p']);
            assert(http@ == seq!['h', 't', 't', 'p']);
        }
        if text_starts_with(&s, udp) {
            Some(TrackerAddr::Udp(s))
        } else if text_starts_with(&s, http) {
            Some(TrackerAddr::Http(s))
        } else {
            None
        }
    }

    /// Same scheme and same URL.
    pub fn same_as(&self, other: &TrackerAddr) -> (r: bool)
        ensures
            r == (self@ == other@),
    {
        match (self, other) {
            (TrackerAddr::Http(a), TrackerAddr::Http(b)) => a.eq(b),
            (TrackerAddr::Udp(a), TrackerAddr::Udp(b)) => a.eq(b),
            _ => false,
        }
    }
}

/// The views of a list of trackers.
pub open spec fn tracker_views(v: Seq<TrackerAddr>) -> Seq<TrackerSpec> {
    v.map_values(|a: TrackerAddr| a@)
}

/// No tracker occurs twice.
pub open spec fn distinct_trackers(v: Seq<TrackerSpec>) -> bool {
    forall|i: int, j: int| 0 <= i < j < v.len() ==> v[i] != v[j]
}

/// Adds the tracker named by `t` to `list`, unless it is unknown or already listed.
fn push_tracker(list: &mut Vec<TrackerAddr>, t: String)
    requires
        distinct_trackers(tracker_views(old(list)@)),
    ensures
        tracker_views(final(list)@) == add_tracker(tracker_views(old(list)@), t@),
        distinct_trackers(tracker_views(final(list)@)),
{
    let ghost tv = t@;
    let a = match TrackerAddr::from_string(t) {
        Some(a) => a,
        None => {
            return;
        },
    };
    let mut i: usize = 0;
    while i < list.len()
        invariant
            0 <= i <= list@.len(),
            list@ == old(list)@,
            distinct_trackers(tracker_views(old(list)@)),
            tracker_of(tv) == Some(a@),
            tv == t@,
            forall|k: int| 0 <= k < i ==> list@[k]@ != a@,
        decreases list@.len() - i,
    {
        if list[i].same_as(&a) {
            assert(tracker_views(list@)[i as int] == a@);
            assert(tracker_views(list@).contains(a@));
            return;
        }
        i += 1;
    }
    proof {
        assert(!tracker_views(list@).contains(a@)) by {
            if tracker_views(list@).contains(a@) {
                let k = choose|k: int| 0 <= k < tracker_views(list@).len() && tracker_views(list@)[k] == a@;
                assert(list@[k]@ == a@);
            }
        }
    }
    let ghost before = list@;
    list.push(a);
    assert(tracker_views(list@) == tracker_views(before).push(a@));
    assert forall|x: int, y: int| 0 <= x < y < tracker_views(list@).len() implies tracker_views(list@)[x]
        != tracker_views(list@)[y] by {
        if y == before.len() {
            assert(tracker_views(before)[x] == tracker_views(list@)[x]);
            assert(tracker_views(before).contains(tracker_views(before)[x]));
        } else {
            assert(tracker_views(before)[x] != tracker_views(before)[y]);
        }
    }
}

/// A decoded torrent file.
#[derive(Debug)]
pub struct Torrent {
    pub info: Info,
    pub info_hash: ID,
    pub announce: Vec<TrackerAddr>,
}

pub struct TorrentSpec {
    pub info: InfoSpec,
    pub info_hash: Seq<u8>,
    pub announce: Seq<TrackerSpec>,
}

impl View for Torrent {
    type V = TorrentSpec;

    open spec fn view(&self) -> TorrentSpec {
        TorrentSpec {
            info: self.info@,
            info_hash: self.info_hash@,
            announce: tracker_views(self.announce@),
        }
    }
}

/// The fields of a torrent dictionary read so far; the info dictionary with its span.
pub struct TorrentAcc {
    pub info: Option<(InfoSpec, int, int)>,
    pub announce: Seq<TrackerSpec>,
}

/// Reads the entry `key` of a torrent dictionary, its value at `v`.
pub open spec fn torrent_field(s: Seq<u8>, d: nat, key: Seq<u8>, v: int, acc: TorrentAcc) -> Option<TorrentAcc> {
    if key == key_info() {
        match (info_at(s, v, d), value_end(s, v, d)) {
            (Some(i), Some(e)) => Some(TorrentAcc { info: Some((i, v, e)), announce: acc.announce }),
            _ => None,
        }
    } else if key == key_announce() {
        match text_at(s, v) {
            Some(t) => Some(TorrentAcc { info: acc.info, announce: add_tracker(acc.announce, t) }),
            None => None,
        }
    } else if key == key_announce_list() {
        match text_lists_at(s, v, d) {
            Some(ls) => Some(
                TorrentAcc { info: acc.info, announce: add_tracker_lists(acc.announce, ls) },
            ),
            None => None,
        }
    } else {
        Some(acc)
    }
}

pub open spec fn torrent_handler(s: Seq<u8>, d: nat) -> spec_fn(Seq<u8>, int, TorrentAcc) -> Option<TorrentAcc> {
    |key: Seq<u8>, v: int, acc: TorrentAcc| torrent_field(s, d, key, v, acc)
}

/// Nesting allowed inside a torrent dictionary (ten levels, the dictionary included).
pub open spec fn torrent_depth() -> nat {
    9
}

/// The entries of the torrent dictionary at the start of `s`, read.
pub open spec fn torrent_fields(s: Seq<u8>) -> Option<TorrentAcc> {
    if s.len() > 0 && s[0] == 100 {
        dict_fold(
            s,
            1,
            torrent_depth(),
            None,
            TorrentAcc { info: None, announce: Seq::empty() },
            torrent_handler(s, torrent_depth()),
        )
    } else {
        None
    }
}

/// `s` starts with a torrent dictionary that holds an info dictionary and names at least one
/// known tracker.
pub open spec fn torrent_accepted(s: Seq<u8>) -> bool {
    match torrent_fields(s) {
        Some(a) => a.info is Some && a.announce.len() > 0,
        None => false,
    }
}

/// The torrent decoded from `s`; its info hash is the digest of the info dictionary's bytes.
pub open spec fn torrent_of(s: Seq<u8>) -> Option<TorrentSpec> {
    if torrent_accepted(s) {
        let a = torrent_fields(s)->0;
        let (i, b, e) = a.info->0;
        Some(TorrentSpec { info: i, info_hash: spec_sha1(s.subrange(b, e)), announce: a.announce })
    } else {
        None
    }
}

/// The info states a total length or lists files.
pub open spec fn info_has_size(i: InfoSpec) -> bool {
    i.length is Some || i.files is Some
}

/// An info dictionary read from the bytes states a length or lists files.
pub proof fn lemma_info_has_size(s: Seq<u8>, p: int, d: nat)
    ensures
        info_at(s, p, d) matches Some(i) ==> info_has_size(i),
{
}

/// Reading the entries of a torrent dictionary keeps an info, once read, one with a size.
proof fn lemma_torrent_fold_sizes(s: Seq<u8>, p: int, d: nat, prev: Option<Seq<u8>>, acc: TorrentAcc)
    requires
        acc.info matches Some(x) ==> info_has_size(x.0),
    ensures
        dict_fold(s, p, d, prev, acc, torrent_handler(s, d)) matches Some(a) ==> (a.info matches Some(
            x,
        ) ==> info_has_size(x.0)),
    decreases s.len() - p,
{
    if p < 0 || p >= s.len() || s[p] == 101 {
    } else {
        match entry_at(s, p, d, prev) {
            Some(e) => if p < e.2 <= s.len() {
                let key = s.subrange(e.0, e.1);
                match torrent_field(s, d, key, e.1, acc) {
                    Some(a) => {
                        lemma_info_has_size(s, e.1, d);
                        lemma_torrent_fold_sizes(s, e.2, d, Some(key), a);
                    },
                    None => {},
                }
            },
            None => {},
        }
    }
}

/// A decoded torrent's info states a total length or lists files: decoding refuses an info
/// dictionary with neither.
pub proof fn lemma_decoded_torrent_has_size(s: Seq<u8>)
    ensures
        torrent_of(s) matches Some(t) ==> info_has_size(t.info),
{
    if s.len() > 0 && s[0] == 100 {
        lemma_torrent_fold_sizes(
            s,
            1,
            torrent_depth(),
            None,
            TorrentAcc { info: None, announce: Seq::empty() },
        );
    }
}

/// The info read so far, with its span.
pub open spec fn info_acc(info: Option<(Info, ID)>, span: Option<(usize, usize)>) -> Option<(InfoSpec, int, int)> {
    match (info, span) {
        (Some(i), Some(sp)) => Some((i.0@, sp.0 as int, sp.1 as int)),
        _ => None,
    }
}

impl Torrent {
    /// Decodes a torrent file: `None` when it is not one.
    pub fn from_bencode(s: &[u8]) -> (r: Option<Torrent>)
        ensures
            match r {
                Some(t) => torrent_of(s@) == Some(t@),
                None => torrent_of(s@) is None,
            },
            r matches Some(t) ==> distinct_trackers(tracker_views(t.announce@)),
    {
        if !(s.len() > 0 && s[0] == 100) {
            return None;
        }
        let dd: usize = 9;
        let ghost f = torrent_handler(s@, dd as nat);
        let mut info: Option<(Info, ID)> = None;
        let mut span: Option<(usize, usize)> = None;
        let mut announce: Vec<TrackerAddr> = Vec::new();
        let mut q: usize = 1;
        let mut prev: Option<(usize, usize)> = None;
        assert(tracker_views(announce@) == Seq::<TrackerSpec>::empty());
        loop
            invariant
                0 < q <= s@.len(),
                s@[0] == 100,
                dd == torrent_depth(),
                f == torrent_handler(s@, dd as nat),
                prev matches Some(k) ==> k.0 <= k.1 <= s@.len(),
                (info is Some) == (span is Some),
                span matches Some(sp) ==> sp.0 <= sp.1 <= s@.len(),
                (info, span) matches (Some(i), Some(sp)) ==> i.1@ == spec_sha1(
                    s@.subrange(sp.0 as int, sp.1 as int),
                ),
                dict_fold(
                    s@,
                    q as int,
                    dd as nat,
                    prev_key(s@, prev),
                    TorrentAcc { info: info_acc(info, span), announce: tracker_views(announce@) },
                    f,
                ) == torrent_fields(s@),
                distinct_trackers(tracker_views(announce@)),
            decreases s@.len() - q,
        {
            if q >= s.len() {
                return None;
            }
            if s[q] == 101 {
                if announce.len() == 0 {
                    return None;
                }
                return match info {
                    Some((info, info_hash)) => Some(Torrent { info, info_hash, announce }),
                    None => None,
                };
            }
            let e = match next_entry(s, q, dd, prev) {
                Some(e) => e,
                None => {
                    return None;
                },
            };
            if !(q < e.2 && e.2 <= s.len()) {
                return None;
            }
            if key_is(s, e.0, e.1, &[105u8, 110, 102, 111]) {
                match read_info(s, e.1, dd) {
                    Some(i) => {
                        let digest = sha1(&s[e.1..e.2]);
                        info = Some((i, ID::new(digest)));
                        span = Some((e.1, e.2));
                    },
                    None => {
                        return None;
                    },
                }
            } else if key_is(s, e.0, e.1, &[97u8, 110, 110, 111, 117, 110, 99, 101]) {
                match read_text(s, e.1) {
                    Some(t) => {
                        push_tracker(&mut announce, t);
                    },
                    None => {
                        return None;
                    },
                }
            } else if key_is(
                s,
                e.0,
                e.1,
                &[97u8, 110, 110, 111, 117, 110, 99, 101, 45, 108, 105, 115, 116],
            ) {
                match read_text_lists(s, e.1, dd) {
                    Some(lists) => {
                        push_tracker_lists(&mut announce, lists);
                    },
                    None => {
                        return None;
                    },
                }
            }
            q = e.2;
            prev = Some((e.0, e.1));
        }
    }

    /// Number of HTTP trackers.
    pub fn count_http_announcers(&self) -> (r: usize)
        ensures
            r == count_http(tracker_views(self.announce@)),
    {
        let ghost v = tracker_views(self.announce@);
        let mut n: usize = 0;
        let mut i: usize = 0;
        while i < self.announce.len()
            invariant
                0 <= i <= self.announce@.len(),
                v == tracker_views(self.announce@),
                n == count_http(v.take(i as int)),
                n <= i,
            decreases self.announce@.len() - i,
        {
            assert(v.take(i + 1).drop_last() == v.take(i as int));
            if let TrackerAddr::Http(_) = &self.announce[i] {
                n = n + 1;
            }
            i += 1;
        }
        assert(v.take(i as int) == v);
        n
    }

    /// The URLs of the HTTP trackers, in order.
    pub fn http_trackers(&self) -> (r: Vec<String>)
        ensures
            r@.map_values(|u: String| u@) == http_urls(tracker_views(self.announce@)),
    {
        let ghost v = tracker_views(self.announce@);
        let mut out: Vec<String> = Vec::new();
        let mut i: usize = 0;
        assert(out@.map_values(|u: String| u@) == Seq::<Seq<char>>::empty());
        while i < self.announce.len()
            invariant
                0 <= i <= self.announce@.len(),
                v == tracker_views(self.announce@),
                out@.map_values(|u: String| u@) == http_urls(v.take(i as int)),
            decreases self.announce@.len() - i,
        {
            assert(v.take(i + 1).drop_last() == v.take(i as int));
            if let TrackerAddr::Http(u) = &self.announce[i] {
                let ghost before = out@;
                out.push(u.clone());
                assert(out@.map_values(|u: String| u@) == before.map_values(|u: String| u@).push(
                    u@,
                ));
            }
            i += 1;
        }
        assert(v.take(i as int) == v);
        out
    }

    /// Number of pieces: one per whole twenty bytes of hashes.
    pub fn count_pieces(&self) -> (r: u64)
        ensures
            r == self.info.pieces@.len() / 20,
    {
        self.info.pieces.len() as u64 / 20
    }
}

/// Number of HTTP trackers in `v`.
pub open spec fn count_http(v: Seq<TrackerSpec>) -> nat
    decreases v.len(),
{
    if v.len() == 0 {
        0
    } else {
        count_http(v.drop_last()) + if v.last() is Http {
            1nat
        } else {
            0nat
        }
    }
}

/// The URLs of the HTTP trackers in `v`, in order.
pub open spec fn http_urls(v: Seq<TrackerSpec>) -> Seq<Seq<char>>
    decreases v.len(),
{
    if v.len() == 0 {
        Seq::empty()
    } else {
        http_urls(v.drop_last()) + match v.last() {
            TrackerSpec::Http(u) => seq![u],
            TrackerSpec::Udp(_) => Seq::empty(),
        }
    }
}

/// Adds the trackers named in each list, list by list.
fn push_tracker_lists(list: &mut Vec<TrackerAddr>, lists: Vec<Vec<String>>)
    requires
        distinct_trackers(tracker_views(old(list)@)),
    ensures
        distinct_trackers(tracker_views(final(list)@)),
        tracker_views(final(list)@) == add_tracker_lists(
            tracker_views(old(list)@),
            lists@.map_values(|l: Vec<String>| texts(l@)),
        ),
{
    let ghost ls = lists@.map_values(|l: Vec<String>| texts(l@));
    let ghost start = tracker_views(list@);
    let mut lists = lists;
    let mut i: usize = 0;
    let n = lists.len();
    while i < n
        invariant
            0 <= i <= n,
            n == lists@.len(),
            ls.len() == n,
            forall|k: int| i <= k < n ==> texts(#[trigger] lists@[k]@) == ls[k],
            tracker_views(list@) == add_tracker_lists(start, ls.take(i as int)),
            distinct_trackers(tracker_views(list@)),
        decreases n - i,
    {
        let mut inner: Vec<String> = Vec::new();
        std::mem::swap(&mut lists[i], &mut inner);
        let ghost ts = texts(inner@);
        assert(ts == ls[i as int]);
        let ghost at_list = tracker_views(list@);
        let mut j: usize = 0;
        let m = inner.len();
        let mut inner = inner;
        assert(ts.take(0) == Seq::<Seq<char>>::empty());
        while j < m
            invariant
                0 <= j <= m,
                m == inner@.len(),
                ts.len() == m,
                forall|k: int| j <= k < m ==> #[trigger] inner@[k]@ == ts[k],
                tracker_views(list@) == add_trackers(at_list, ts.take(j as int)),
                distinct_trackers(tracker_views(list@)),
            decreases m - j,
        {
            let mut t = String::new();
            std::mem::swap(&mut inner[j], &mut t);
            assert(ts.take(j + 1).drop_last() == ts.take(j as int));
            push_tracker(list, t);
            j += 1;
        }
        assert(ts.take(m as int) == ts);
        assert(ls.take(i + 1).drop_last() == ls.take(i as int));
        i += 1;
    }
    assert(ls.take(n as int) == ls);
}

/// Decodes a torrent file that is known to be one.
pub fn from_buffer(buffer: &[u8]) -> (r: Torrent)
    requires
        torrent_accepted(buffer@),
    ensures
        torrent_of(buffer@) == Some(r@),
        distinct_trackers(tracker_views(r.announce@)),
{
    match Torrent::from_bencode(buffer) {
        Some(t) => t,
        None => {
            proof {
                assert(torrent_of(buffer@) is Some);
            }
            Torrent {
                info: Info {
                    name: String::new(),
                    piece_length: 0,
                    pieces: Vec::new(),
                    length: None,
                    files: None,
                },
                info_hash: ID::new([0u8; 20]),
                announce: Vec::new(),
            }
        },
    }
}

} // verus!
