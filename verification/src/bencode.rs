//! Bencode: the encoding of torrent files, tracker responses and DHT messages.
//!
//! The scanner works on byte positions. A value is an integer `i<n>e`, a byte string
//! `<len>:<bytes>`, a list `l<values>e` or a dictionary `d<key><value>...e` whose keys are
//! byte strings in strictly ascending order. Numbers are canonical (no leading zeros, no
//! `-0`), and containers nest at most as deep as the caller allows.
use vstd::prelude::*;
use vstd::utf8::{valid_utf8, decode_utf8};

verus! {

pub open spec fn is_digit(b: u8) -> bool {
    48 <= b <= 57
}

pub open spec fn is_nonzero_digit(b: u8) -> bool {
    49 <= b <= 57
}

/// First position at or after `p` that does not hold a digit.
pub open spec fn digit_run_end(s: Seq<u8>, p: int) -> int
    decreases s.len() - p,
{
    if 0 <= p < s.len() && is_digit(s[p]) {
        digit_run_end(s, p + 1)
    } else {
        p
    }
}

/// The value of the decimal digits in `s[a..b]`.
pub open spec fn digits_value(s: Seq<u8>, a: int, b: int) -> nat
    decreases b - a,
{
    if b <= a {
        0
    } else {
        digits_value(s, a, b - 1) * 10 + (s[b - 1] - 48) as nat
    }
}

/// A canonical unsigned number starting at `p` and ended by `term`: the terminator's position.
pub open spec fn canonical_end(s: Seq<u8>, p: int, term: u8) -> Option<int> {
    if 0 <= p < s.len() && s[p] == 48 {
        if p + 1 < s.len() && s[p + 1] == term {
            Some(p + 1)
        } else {
            None
        }
    } else if 0 <= p < s.len() && is_nonzero_digit(s[p]) {
        let q = digit_run_end(s, p + 1);
        if q < s.len() && s[q] == term {
            Some(q)
        } else {
            None
        }
    } else {
        None
    }
}

/// The body of an integer token starting at `p` (just after `i`): the position of its `e`.
pub open spec fn int_body_end(s: Seq<u8>, p: int) -> Option<int> {
    if 0 <= p < s.len() && s[p] == 45 {
        if p + 1 < s.len() && is_nonzero_digit(s[p + 1]) {
            let q = digit_run_end(s, p + 2);
            if q < s.len() && s[q] == 101 {
                Some(q)
            } else {
                None
            }
        } else {
            None
        }
    } else {
        canonical_end(s, p, 101)
    }
}

/// The bytes of a byte string token starting at `p`: their start and end.
pub open spec fn string_span(s: Seq<u8>, p: int) -> Option<(int, int)> {
    if 0 <= p < s.len() && is_digit(s[p]) {
        match canonical_end(s, p, 58) {
            Some(q) => {
                let n = digits_value(s, p, q);
                if q + 1 + n <= s.len() {
                    Some((q + 1, q + 1 + n))
                } else {
                    None
                }
            },
            None => None,
        }
    } else {
        None
    }
}

/// Strict lexicographic order of byte strings, a proper prefix coming first.
pub open spec fn bytes_less(a: Seq<u8>, b: Seq<u8>) -> bool
    decreases a.len(),
{
    if a.len() == 0 {
        b.len() > 0
    } else if b.len() == 0 {
        false
    } else if a[0] != b[0] {
        a[0] < b[0]
    } else {
        bytes_less(a.drop_first(), b.drop_first())
    }
}

/// Whether a key may follow the previous key of a dictionary.
pub open spec fn key_may_follow(prev: Option<Seq<u8>>, key: Seq<u8>) -> bool {
    match prev {
        Some(k) => bytes_less(k, key),
        None => true,
    }
}

/// The end of the value starting at `p`, containers nesting at most `d` deep.
pub open spec fn value_end(s: Seq<u8>, p: int, d: nat) -> Option<int>
    decreases s.len() - p, 0int,
{
    if p < 0 || p >= s.len() {
        None
    } else if s[p] == 105 {
        match int_body_end(s, p + 1) {
            Some(q) => Some(q + 1),
            None => None,
        }
    } else if is_digit(s[p]) {
        match string_span(s, p) {
            Some(span) => Some(span.1),
            None => None,
        }
    } else if s[p] == 108 {
        if d == 0 {
            None
        } else {
            list_end(s, p + 1, (d - 1) as nat)
        }
    } else if s[p] == 100 {
        if d == 0 {
            None
        } else {
            dict_end(s, p + 1, (d - 1) as nat, None)
        }
    } else {
        None
    }
}

/// The end of the list items starting at `p`, past the closing `e`.
pub open spec fn list_end(s: Seq<u8>, p: int, d: nat) -> Option<int>
    decreases s.len() - p, 1int,
{
    if p < 0 || p >= s.len() {
        None
    } else if s[p] == 101 {
        Some(p + 1)
    } else {
        match value_end(s, p, d) {
            Some(q) => if p < q <= s.len() {
                list_end(s, q, d)
            } else {
                None
            },
            None => None,
        }
    }
}

/// The end of the dictionary entries starting at `p`, past the closing `e`.
pub open spec fn dict_end(s: Seq<u8>, p: int, d: nat, prev: Option<Seq<u8>>) -> Option<int>
    decreases s.len() - p, 1int,
{
    if p < 0 || p >= s.len() {
        None
    } else if s[p] == 101 {
        Some(p + 1)
    } else {
        match string_span(s, p) {
            Some(k) => {
                let key = s.subrange(k.0, k.1);
                if !(p < k.0 <= k.1 <= s.len()) || !key_may_follow(prev, key) {
                    None
                } else {
                    match value_end(s, k.1, d) {
                        Some(q) => if k.1 < q <= s.len() {
                            dict_end(s, q, d, Some(key))
                        } else {
                            None
                        },
                        None => None,
                    }
                }
            },
            None => None,
        }
    }
}

/// The position after the last digit of the run starting at `p`.
pub fn scan_digits(s: &[u8], p: usize) -> (r: usize)
    requires
        p <= s@.len(),
    ensures
        r == digit_run_end(s@, p as int),
        p <= r <= s@.len(),
{
    let mut q = p;
    while q < s.len() && s[q] >= 48 && s[q] <= 57
        invariant
            p <= q <= s@.len(),
            digit_run_end(s@, q as int) == digit_run_end(s@, p as int),
        decreases s@.len() - q,
    {
        q += 1;
    }
    q
}

/// The terminator's position after a canonical unsigned number starting at `p`.
pub fn scan_canonical(s: &[u8], p: usize, term: u8) -> (r: Option<usize>)
    requires
        p <= s@.len(),
    ensures
        match r {
            Some(q) => canonical_end(s@, p as int, term) == Some(q as int),
            None => canonical_end(s@, p as int, term) is None,
        },
{
    if p < s.len() && s[p] == 48 {
        if p + 1 < s.len() && s[p + 1] == term {
            Some(p + 1)
        } else {
            None
        }
    } else if p < s.len() && s[p] >= 49 && s[p] <= 57 {
        let q = scan_digits(s, p + 1);
        if q < s.len() && s[q] == term {
            Some(q)
        } else {
            None
        }
    } else {
        None
    }
}

/// The position of the `e` ending an integer body that starts at `p`.
pub fn scan_int_body(s: &[u8], p: usize) -> (r: Option<usize>)
    requires
        p <= s@.len(),
    ensures
        match r {
            Some(q) => int_body_end(s@, p as int) == Some(q as int),
            None => int_body_end(s@, p as int) is None,
        },
{
    if p < s.len() && s[p] == 45 {
        if p + 1 < s.len() && s[p + 1] >= 49 && s[p + 1] <= 57 {
            let q = scan_digits(s, p + 2);
            if q < s.len() && s[q] == 101 {
                Some(q)
            } else {
                None
            }
        } else {
            None
        }
    } else {
        scan_canonical(s, p, 101)
    }
}

proof fn lemma_digits_value_step(s: Seq<u8>, a: int, b: int)
    requires
        a < b,
    ensures
        digits_value(s, a, b) == digits_value(s, a, b - 1) * 10 + (s[b - 1] - 48) as nat,
{
}

proof fn lemma_digits_value_mono(s: Seq<u8>, a: int, b: int, c: int)
    requires
        a <= b <= c,
        forall|k: int| a <= k < c ==> is_digit(#[trigger] s[k]),
    ensures
        digits_value(s, a, b) <= digits_value(s, a, c),
    decreases c - b,
{
    if b < c {
        lemma_digits_value_mono(s, a, b, c - 1);
        assert(digits_value(s, a, c) == digits_value(s, a, c - 1) * 10 + (s[c - 1] - 48) as nat);
    }
}

proof fn lemma_digit_run(s: Seq<u8>, p: int)
    requires
        0 <= p <= s.len(),
    ensures
        p <= digit_run_end(s, p) <= s.len(),
        forall|k: int| p <= k < digit_run_end(s, p) ==> is_digit(#[trigger] s[k]),
    decreases s.len() - p,
{
    if p < s.len() && is_digit(s[p]) {
        lemma_digit_run(s, p + 1);
    }
}

/// The value of the digits `s[a..b]`, or `None` once it exceeds `limit`.
pub fn digits_value_upto(s: &[u8], a: usize, b: usize, limit: u64) -> (r: Option<u64>)
    requires
        a <= b <= s@.len(),
        forall|k: int| a <= k < b ==> is_digit(#[trigger] s@[k]),
    ensures
        match r {
            Some(v) => v == digits_value(s@, a as int, b as int) && v <= limit,
            None => digits_value(s@, a as int, b as int) > limit,
        },
{
    let mut v: u64 = 0;
    let mut i = a;
    while i < b
        invariant
            a <= i <= b <= s@.len(),
            forall|k: int| a <= k < b ==> is_digit(#[trigger] s@[k]),
            v == digits_value(s@, a as int, i as int),
            v <= limit,
        decreases b - i,
    {
        let dgt = (s[i] - 48) as u64;
        assert(is_digit(s@[i as int]));
        proof {
            lemma_digits_value_step(s@, a as int, i + 1);
        }
        if dgt > limit || v > (limit - dgt) / 10 {
            proof {
                if dgt <= limit {
                    assert(v * 10 + dgt > limit) by (nonlinear_arith)
                        requires
                            v > (limit - dgt) / 10,
                            dgt <= limit,
                    ;
                }
                lemma_digits_value_mono(s@, a as int, i + 1, b as int);
            }
            return None;
        }
        assert(v * 10 + dgt <= limit) by (nonlinear_arith)
            requires
                v <= (limit - dgt) / 10,
                dgt <= limit,
        ;
        v = v * 10 + dgt;
        i += 1;
    }
    Some(v)
}

/// The span of the bytes of the byte string token starting at `p`.
pub fn scan_string(s: &[u8], p: usize) -> (r: Option<(usize, usize)>)
    requires
        p <= s@.len(),
    ensures
        match r {
            Some(span) => string_span(s@, p as int) == Some((span.0 as int, span.1 as int)),
            None => string_span(s@, p as int) is None,
        },
{
    if p < s.len() && s[p] >= 48 && s[p] <= 57 {
        match scan_canonical(s, p, 58) {
            Some(q) => {
                proof {
                    lemma_digit_run(s@, p + 1);
                }
                let limit = s.len() - q - 1;
                match digits_value_upto(s, p, q, limit as u64) {
                    Some(n) => Some((q + 1, q + 1 + n as usize)),
                    None => None,
                }
            },
            None => None,
        }
    } else {
        None
    }
}

/// `s[a1..b1]` comes strictly before `s[a2..b2]`.
pub fn slice_less(s: &[u8], a1: usize, b1: usize, a2: usize, b2: usize) -> (r: bool)
    requires
        a1 <= b1 <= s@.len(),
        a2 <= b2 <= s@.len(),
    ensures
        r == bytes_less(s@.subrange(a1 as int, b1 as int), s@.subrange(a2 as int, b2 as int)),
{
    let ghost x = s@.subrange(a1 as int, b1 as int);
    let ghost y = s@.subrange(a2 as int, b2 as int);
    let mut i: usize = 0;
    assert(x.skip(0) == x);
    assert(y.skip(0) == y);
    while a1 + i < b1 && a2 + i < b2
        invariant
            a1 <= b1 <= s@.len(),
            a2 <= b2 <= s@.len(),
            x == s@.subrange(a1 as int, b1 as int),
            y == s@.subrange(a2 as int, b2 as int),
            i <= x.len(),
            i <= y.len(),
            bytes_less(x, y) == bytes_less(x.skip(i as int), y.skip(i as int)),
        decreases b1 - a1 - i,
    {
        let c1 = s[a1 + i];
        let c2 = s[a2 + i];
        assert(x.skip(i as int)[0] == c1);
        assert(y.skip(i as int)[0] == c2);
        if c1 != c2 {
            return c1 < c2;
        }
        assert(x.skip(i as int).drop_first() == x.skip(i + 1));
        assert(y.skip(i as int).drop_first() == y.skip(i + 1));
        i += 1;
    }
    assert(x.skip(i as int).len() == 0 || y.skip(i as int).len() == 0);
    b1 - a1 - i == 0 && b2 - a2 - i > 0
}

/// The end of the value starting at `p`, containers nesting at most `d` deep.
pub fn scan_value(s: &[u8], p: usize, d: usize) -> (r: Option<usize>)
    requires
        p <= s@.len(),
    ensures
        match r {
            Some(q) => value_end(s@, p as int, d as nat) == Some(q as int),
            None => value_end(s@, p as int, d as nat) is None,
        },
    decreases s@.len() - p,
{
    if p >= s.len() {
        return None;
    }
    let c = s[p];
    if c == 105 {
        match scan_int_body(s, p + 1) {
            Some(q) => Some(q + 1),
            None => None,
        }
    } else if c >= 48 && c <= 57 {
        match scan_string(s, p) {
            Some(span) => Some(span.1),
            None => None,
        }
    } else if c == 108 {
        if d == 0 {
            return None;
        }
        let dd = d - 1;
        let mut q = p + 1;
        loop
            invariant
                p < q <= s@.len(),
                dd == d - 1,
                list_end(s@, q as int, dd as nat) == value_end(s@, p as int, d as nat),
            decreases s@.len() - q,
        {
            if q >= s.len() {
                return None;
            }
            if s[q] == 101 {
                return Some(q + 1);
            }
            match scan_value(s, q, dd) {
                Some(e) => {
                    if q < e && e <= s.len() {
                        q = e;
                    } else {
                        return None;
                    }
                },
                None => {
                    return None;
                },
            }
        }
    } else if c == 100 {
        if d == 0 {
            return None;
        }
        let dd = d - 1;
        let mut q = p + 1;
        let mut prev: Option<(usize, usize)> = None;
        loop
            invariant
                p < q <= s@.len(),
                dd == d - 1,
                prev matches Some(k) ==> k.0 <= k.1 <= s@.len(),
                dict_end(
                    s@,
                    q as int,
                    dd as nat,
                    match prev {
                        Some(k) => Some(s@.subrange(k.0 as int, k.1 as int)),
                        None => None,
                    },
                ) == value_end(s@, p as int, d as nat),
            decreases s@.len() - q,
        {
            if q >= s.len() {
                return None;
            }
            if s[q] == 101 {
                return Some(q + 1);
            }
            let k = match scan_string(s, q) {
                Some(k) => k,
                None => {
                    return None;
                },
            };
            if !(q < k.0 && k.0 <= k.1 && k.1 <= s.len()) {
                return None;
            }
            let follows = match prev {
                Some(pk) => slice_less(s, pk.0, pk.1, k.0, k.1),
                None => true,
            };
            if !follows {
                return None;
            }
            match scan_value(s, k.1, dd) {
                Some(e) => {
                    if k.1 < e && e <= s.len() {
                        q = e;
                        prev = Some(k);
                    } else {
                        return None;
                    }
                },
                None => {
                    return None;
                },
            }
        }
    } else {
        None
    }
}

/// The unsigned integer token at `p`, when it fits in 64 bits.
pub open spec fn uint_at(s: Seq<u8>, p: int) -> Option<u64> {
    if 0 <= p < s.len() && s[p] == 105 {
        match canonical_end(s, p + 1, 101) {
            Some(q) => {
                let v = digits_value(s, p + 1, q);
                if v <= u64::MAX {
                    Some(v as u64)
                } else {
                    None
                }
            },
            None => None,
        }
    } else {
        None
    }
}

/// The bytes of the byte string token at `p`.
pub open spec fn bytes_at(s: Seq<u8>, p: int) -> Option<Seq<u8>> {
    match string_span(s, p) {
        Some(span) => Some(s.subrange(span.0, span.1)),
        None => None,
    }
}

/// The text of the byte string token at `p`, when it is UTF-8.
pub open spec fn text_at(s: Seq<u8>, p: int) -> Option<Seq<char>> {
    match bytes_at(s, p) {
        Some(b) => if valid_utf8(b) {
            Some(decode_utf8(b))
        } else {
            None
        },
        None => None,
    }
}

/// The texts of the list items starting at `p`, appended to `acc`.
pub open spec fn text_items(s: Seq<u8>, p: int, acc: Seq<Seq<char>>) -> Option<Seq<Seq<char>>>
    decreases s.len() - p,
{
    if p < 0 || p >= s.len() {
        None
    } else if s[p] == 101 {
        Some(acc)
    } else {
        match (string_span(s, p), text_at(s, p)) {
            (Some(span), Some(t)) => if p < span.1 <= s.len() {
                text_items(s, span.1, acc.push(t))
            } else {
                None
            },
            _ => None,
        }
    }
}

/// The list of texts at `p`, the list nesting within `d`.
pub open spec fn text_list_at(s: Seq<u8>, p: int, d: nat) -> Option<Seq<Seq<char>>> {
    if 0 <= p < s.len() && s[p] == 108 && d >= 1 {
        text_items(s, p + 1, Seq::empty())
    } else {
        None
    }
}

/// The lists of texts of the list items starting at `p`, appended to `acc`.
pub open spec fn text_list_items(s: Seq<u8>, p: int, d: nat, acc: Seq<Seq<Seq<char>>>) -> Option<
    Seq<Seq<Seq<char>>>,
>
    decreases s.len() - p,
{
    if p < 0 || p >= s.len() {
        None
    } else if s[p] == 101 {
        Some(acc)
    } else {
        match (text_list_at(s, p, d), value_end(s, p, d)) {
            (Some(l), Some(q)) => if p < q <= s.len() {
                text_list_items(s, q, d, acc.push(l))
            } else {
                None
            },
            _ => None,
        }
    }
}

/// The list of lists of texts at `p`, the lists nesting within `d`.
pub open spec fn text_lists_at(s: Seq<u8>, p: int, d: nat) -> Option<Seq<Seq<Seq<char>>>> {
    if 0 <= p < s.len() && s[p] == 108 && d >= 1 {
        text_list_items(s, p + 1, (d - 1) as nat, Seq::empty())
    } else {
        None
    }
}

/// The texts held by strings.
pub open spec fn texts(v: Seq<String>) -> Seq<Seq<char>> {
    v.map_values(|x: String| x@)
}

/// `String::from_utf8`: the text the bytes encode, or `None` when they are not UTF-8.
#[verifier::external_body]
fn utf8_string(bytes: Vec<u8>) -> (r: Option<String>)
    ensures
        r is Some <==> valid_utf8(bytes@),
        r matches Some(t) ==> t@ == decode_utf8(bytes@),
{
    String::from_utf8(bytes).ok()
}

/// The unsigned integer token at `p`.
pub fn read_uint(s: &[u8], p: usize) -> (r: Option<u64>)
    ensures
        r == uint_at(s@, p as int),
{
    if p < s.len() && s[p] == 105 {
        match scan_canonical(s, p + 1, 101) {
            Some(q) => {
                proof {
                    lemma_digit_run(s@, p + 2);
                }
                digits_value_upto(s, p + 1, q, u64::MAX)
            },
            None => None,
        }
    } else {
        None
    }
}

/// The bytes of the byte string token at `p`.
pub fn read_bytes(s: &[u8], p: usize) -> (r: Option<Vec<u8>>)
    requires
        p <= s@.len(),
    ensures
        match r {
            Some(v) => bytes_at(s@, p as int) == Some(v@),
            None => bytes_at(s@, p as int) is None,
        },
{
    match scan_string(s, p) {
        Some(span) => {
            proof {
                lemma_string_span(s@, p as int);
            }
            Some(vstd::slice::slice_to_vec(&s[span.0..span.1]))
        },
        None => None,
    }
}

/// The text of the byte string token at `p`.
pub fn read_text(s: &[u8], p: usize) -> (r: Option<String>)
    requires
        p <= s@.len(),
    ensures
        match r {
            Some(t) => text_at(s@, p as int) == Some(t@),
            None => text_at(s@, p as int) is None,
        },
{
    match read_bytes(s, p) {
        Some(b) => utf8_string(b),
        None => None,
    }
}

/// The list of texts at `p`.
pub fn read_text_list(s: &[u8], p: usize, d: usize) -> (r: Option<Vec<String>>)
    requires
        p <= s@.len(),
    ensures
        match r {
            Some(v) => text_list_at(s@, p as int, d as nat) == Some(texts(v@)),
            None => text_list_at(s@, p as int, d as nat) is None,
        },
{
    if !(p < s.len() && s[p] == 108 && d >= 1) {
        return None;
    }
    let mut out: Vec<String> = Vec::new();
    let mut q = p + 1;
    assert(texts(out@) == Seq::<Seq<char>>::empty());
    loop
        invariant
            p < q <= s@.len(),
            text_items(s@, q as int, texts(out@)) == text_list_at(s@, p as int, d as nat),
        decreases s@.len() - q,
    {
        if q >= s.len() {
            return None;
        }
        if s[q] == 101 {
            return Some(out);
        }
        let span = match scan_string(s, q) {
            Some(span) => span,
            None => {
                return None;
            },
        };
        let t = match read_text(s, q) {
            Some(t) => t,
            None => {
                return None;
            },
        };
        if !(q < span.1 && span.1 <= s.len()) {
            return None;
        }
        let ghost before = out@;
        out.push(t);
        proof {
            assert(texts(out@) == texts(before).push(t@));
        }
        q = span.1;
    }
}

/// The list of lists of texts at `p`.
pub fn read_text_lists(s: &[u8], p: usize, d: usize) -> (r: Option<Vec<Vec<String>>>)
    requires
        p <= s@.len(),
    ensures
        match r {
            Some(v) => text_lists_at(s@, p as int, d as nat) == Some(
                v@.map_values(|l: Vec<String>| texts(l@)),
            ),
            None => text_lists_at(s@, p as int, d as nat) is None,
        },
{
    if !(p < s.len() && s[p] == 108 && d >= 1) {
        return None;
    }
    let dd = d - 1;
    let mut out: Vec<Vec<String>> = Vec::new();
    let mut q = p + 1;
    assert(out@.map_values(|l: Vec<String>| texts(l@)) == Seq::<Seq<Seq<char>>>::empty());
    loop
        invariant
            p < q <= s@.len(),
            dd == d - 1,
            text_list_items(s@, q as int, dd as nat, out@.map_values(|l: Vec<String>| texts(l@)))
                == text_lists_at(s@, p as int, d as nat),
        decreases s@.len() - q,
    {
        if q >= s.len() {
            return None;
        }
        if s[q] == 101 {
            return Some(out);
        }
        let l = match read_text_list(s, q, dd) {
            Some(l) => l,
            None => {
                return None;
            },
        };
        let e = match scan_value(s, q, dd) {
            Some(e) => e,
            None => {
                return None;
            },
        };
        if !(q < e && e <= s.len()) {
            return None;
        }
        let ghost before = out@;
        let ghost lv = texts(l@);
        out.push(l);
        proof {
            assert(out@.map_values(|l: Vec<String>| texts(l@)) == before.map_values(
                |l: Vec<String>| texts(l@),
            ).push(lv));
        }
        q = e;
    }
}

proof fn lemma_string_span(s: Seq<u8>, p: int)
    requires
        0 <= p <= s.len(),
    ensures
        string_span(s, p) matches Some(span) ==> p < span.0 <= span.1 <= s.len(),
{
    if p < s.len() {
        lemma_digit_run(s, p + 1);
    }
}

/// The dictionary entry at `q`: its key's span and the end of its value, when the key is a
/// byte string that may follow `prev` and the value is well formed.
pub open spec fn entry_at(s: Seq<u8>, q: int, d: nat, prev: Option<Seq<u8>>) -> Option<(int, int, int)> {
    match string_span(s, q) {
        Some(k) => if !(q < k.0 <= k.1 <= s.len()) || !key_may_follow(prev, s.subrange(k.0, k.1)) {
            None
        } else {
            match value_end(s, k.1, d) {
                Some(e) => if k.1 < e <= s.len() {
                    Some((k.0, k.1, e))
                } else {
                    None
                },
                None => None,
            }
        },
        None => None,
    }
}

/// Walks the dictionary entries from `p` to the closing `e`, handing each key, the position
/// of its value and the accumulator to `f`; `None` as soon as an entry is malformed or `f`
/// refuses it.
pub open spec fn dict_fold<A>(
    s: Seq<u8>,
    p: int,
    d: nat,
    prev: Option<Seq<u8>>,
    acc: A,
    f: spec_fn(Seq<u8>, int, A) -> Option<A>,
) -> Option<A>
    decreases s.len() - p,
{
    if p < 0 || p >= s.len() {
        None
    } else if s[p] == 101 {
        Some(acc)
    } else {
        match entry_at(s, p, d, prev) {
            Some(e) => if p < e.2 <= s.len() {
                match f(s.subrange(e.0, e.1), e.1, acc) {
                    Some(a) => dict_fold(s, e.2, d, Some(s.subrange(e.0, e.1)), a, f),
                    None => None,
                }
            } else {
                None
            },
            None => None,
        }
    }
}

/// Walks the list items from `p` to the closing `e`, handing the position of each item and
/// the accumulator to `f`; `None` as soon as an item is malformed or `f` refuses it.
pub open spec fn list_fold<A>(s: Seq<u8>, p: int, d: nat, acc: A, f: spec_fn(int, A) -> Option<A>) -> Option<A>
    decreases s.len() - p,
{
    if p < 0 || p >= s.len() {
        None
    } else if s[p] == 101 {
        Some(acc)
    } else {
        match value_end(s, p, d) {
            Some(q) => if p < q <= s.len() {
                match f(p, acc) {
                    Some(a) => list_fold(s, q, d, a, f),
                    None => None,
                }
            } else {
                None
            },
            None => None,
        }
    }
}

/// The dictionary entry at `q`: key start, key end and value end.
pub fn next_entry(s: &[u8], q: usize, d: usize, prev: Option<(usize, usize)>) -> (r: Option<(usize, usize, usize)>)
    requires
        q <= s@.len(),
        prev matches Some(k) ==> k.0 <= k.1 <= s@.len(),
    ensures
        match r {
            Some(e) => entry_at(
                s@,
                q as int,
                d as nat,
                match prev {
                    Some(k) => Some(s@.subrange(k.0 as int, k.1 as int)),
                    None => None,
                },
            ) == Some((e.0 as int, e.1 as int, e.2 as int)),
            None => entry_at(
                s@,
                q as int,
                d as nat,
                match prev {
                    Some(k) => Some(s@.subrange(k.0 as int, k.1 as int)),
                    None => None,
                },
            ) is None,
        },
{
    let k = match scan_string(s, q) {
        Some(k) => k,
        None => {
            return None;
        },
    };
    if !(q < k.0 && k.0 <= k.1 && k.1 <= s.len()) {
        return None;
    }
    let follows = match prev {
        Some(pk) => slice_less(s, pk.0, pk.1, k.0, k.1),
        None => true,
    };
    if !follows {
        return None;
    }
    match scan_value(s, k.1, d) {
        Some(e) => if k.1 < e && e <= s.len() {
            Some((k.0, k.1, e))
        } else {
            None
        },
        None => None,
    }
}

/// `s[a..b]` holds exactly the bytes of `key`.
pub fn key_is(s: &[u8], a: usize, b: usize, key: &[u8]) -> (r: bool)
    requires
        a <= b <= s@.len(),
    ensures
        r == (s@.subrange(a as int, b as int) == key@),
{
    if b - a != key.len() {
        return false;
    }
    let mut i: usize = 0;
    while i < key.len()
        invariant
            a <= b <= s@.len(),
            b - a == key@.len(),
            0 <= i <= key@.len(),
            forall|k: int| 0 <= k < i ==> s@[a + k] == key@[k],
        decreases key@.len() - i,
    {
        if s[a + i] != key[i] {
            assert(s@.subrange(a as int, b as int)[i as int] != key@[i as int]);
            return false;
        }
        i += 1;
    }
    assert(s@.subrange(a as int, b as int) =~= key@);
    true
}

/// The previous key of a dictionary walk, from its span.
pub open spec fn prev_key(s: Seq<u8>, prev: Option<(usize, usize)>) -> Option<Seq<u8>> {
    match prev {
        Some(k) => Some(s.subrange(k.0 as int, k.1 as int)),
        None => None,
    }
}

} // verus!
