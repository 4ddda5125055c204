//! Reading back what is written: a KRPC message, once encoded, decodes to itself (up to
//! what the wire cannot tell apart).
use vstd::prelude::*;
use crate::bencode::{
    is_digit, is_nonzero_digit, digit_run_end, digits_value, canonical_end, int_body_end, string_span,
    value_end, list_end, dict_end, bytes_at, text_at, uint_at, entry_at, dict_fold, list_fold,
    bytes_less, key_may_follow,
};
use crate::krpc_decode::{
    message_of, msg_handler, msg_field, empty_msg, MessageV, KRPC_DEPTH, MsgAcc, type_at,
    resp_at, resp_variant, resp_handler, empty_resp, ResponseV, ValuesOrNodesV,
    args_at, args_variant, arguments_v, args_handler, empty_args,
    peers_at, peers_handler, peer_of, errors_at, errors_handler, error_item_at, error_v, errors_v, ErrorV,
    nodes_of, node_of, NodeV, NodesV,
};
use crate::peer::{Peer, compact_of, lemma_compact_roundtrip};
use crate::routing_table::{Node, Nodes};
use crate::id::ID;
use crate::peer_message::NoSizeBytes;
use vstd::utf8::{encode_utf8, decode_utf8, valid_utf8};
use crate::krpc_decode::ArgumentsV;
use crate::krpc::{
    Message, MessageType, encode_message, type_letter,
    Arguments, encode_arguments, Response, ValuesOrNodes, encode_response,
    Error, encode_peers, encode_errors, encode_nodes, node_compact, nodes_compact,
    decimal_bytes, bstr, bint, k_id, k_info_hash, k_port, k_target, k_token, k_nodes, k_values, k_a, k_q,
    k_t, k_y, k_r, k_e,
};

verus! {

/// The bytes `t` stand in `s` from position `p` on.
pub open spec fn at(s: Seq<u8>, p: int, t: Seq<u8>) -> bool {
    &&& 0 <= p
    &&& p + t.len() <= s.len()
    &&& s.subrange(p, p + t.len()) == t
}

proof fn lemma_at_split(s: Seq<u8>, p: int, a: Seq<u8>, b: Seq<u8>)
    requires
        at(s, p, a + b),
    ensures
        at(s, p, a),
        at(s, p + a.len(), b),
{
    let w = s.subrange(p, p + (a + b).len());
    assert forall|i: int| 0 <= i < a.len() implies s.subrange(p, p + a.len())[i] == a[i] by {
        assert(w[i] == (a + b)[i]);
    }
    assert(s.subrange(p, p + a.len()) =~= a);
    assert forall|i: int| 0 <= i < b.len() implies s.subrange(p + a.len(), p + a.len() + b.len())[i] == b[i] by {
        assert(w[a.len() + i] == (a + b)[a.len() + i]);
    }
    assert(s.subrange(p + a.len(), p + a.len() + b.len()) =~= b);
}

proof fn lemma_at_index(s: Seq<u8>, p: int, t: Seq<u8>, i: int)
    requires
        at(s, p, t),
        0 <= i < t.len(),
    ensures
        s[p + i] == t[i],
{
    assert(s.subrange(p, p + t.len())[i] == s[p + i]);
}

proof fn lemma_digits_value_shift(s: Seq<u8>, t: Seq<u8>, p: int, k: int)
    requires
        0 <= k <= t.len(),
        at(s, p, t),
    ensures
        digits_value(s, p, p + k) == digits_value(t, 0, k),
    decreases k,
{
    if k > 0 {
        lemma_digits_value_shift(s, t, p, k - 1);
        lemma_at_index(s, p, t, k - 1);
    }
}

/// The decimal notation of `n`: digits, none leading unless `n` is zero, worth `n`.
proof fn lemma_decimal(n: nat)
    ensures
        decimal_bytes(n).len() >= 1,
        forall|i: int| 0 <= i < decimal_bytes(n).len() ==> #[trigger] is_digit(decimal_bytes(n)[i]),
        n == 0 ==> decimal_bytes(n) == seq![48u8],
        n != 0 ==> is_nonzero_digit(decimal_bytes(n)[0]),
        digits_value(decimal_bytes(n), 0, decimal_bytes(n).len() as int) == n,
    decreases n,
{
    if n < 10 {
        let d = decimal_bytes(n);
        assert(d[0] == (48 + n) as u8);
        assert(digits_value(d, 0, 0) == 0);
        assert(digits_value(d, 0, 1) == digits_value(d, 0, 0) * 10 + (d[0] - 48) as nat);
    } else {
        let prev = decimal_bytes(n / 10);
        let d = decimal_bytes(n);
        lemma_decimal(n / 10);
        assert(d == prev.push((48 + n % 10) as u8));
        assert(at(d, 0, prev)) by {
            assert(d.subrange(0, prev.len() as int) =~= prev);
        }
        lemma_digits_value_shift(d, prev, 0, prev.len() as int);
        assert(d[d.len() - 1] == (48 + n % 10) as u8);
        assert(digits_value(d, 0, d.len() as int) == digits_value(d, 0, prev.len() as int) * 10 + (d[d.len() - 1] - 48) as nat);
        assert((n / 10) * 10 + n % 10 == n);
        assert(d[0] == prev[0]);
    }
}

proof fn lemma_digit_run(s: Seq<u8>, p: int, k: int)
    requires
        0 <= p,
        0 <= k,
        p + k <= s.len(),
        forall|i: int| p <= i < p + k ==> #[trigger] is_digit(s[i]),
        p + k == s.len() || !is_digit(s[p + k]),
    ensures
        digit_run_end(s, p) == p + k,
    decreases k,
{
    if k > 0 {
        lemma_digit_run(s, p + 1, k - 1);
    }
}

/// A decimal number ended by a non-digit `term` reads as that number.
proof fn lemma_canonical_at(s: Seq<u8>, p: int, n: nat, term: u8)
    requires
        at(s, p, decimal_bytes(n) + seq![term]),
        !is_digit(term),
    ensures
        canonical_end(s, p, term) == Some(p + decimal_bytes(n).len()),
        digits_value(s, p, p + decimal_bytes(n).len()) == n,
{
    let d = decimal_bytes(n);
    lemma_decimal(n);
    lemma_at_split(s, p, d, seq![term]);
    lemma_at_index(s, p + d.len(), seq![term], 0);
    lemma_at_index(s, p, d, 0);
    lemma_digits_value_shift(s, d, p, d.len() as int);
    if n != 0 {
        assert forall|i: int| p + 1 <= i < p + d.len() implies #[trigger] is_digit(s[i]) by {
            lemma_at_index(s, p, d, i - p);
        }
        lemma_digit_run(s, p + 1, d.len() - 1);
    }
}

/// A byte string token: its span, its bytes, and where it ends.
pub proof fn lemma_bstr_at(s: Seq<u8>, p: int, b: Seq<u8>, d: nat)
    requires
        at(s, p, bstr(b)),
    ensures
        string_span(s, p) == Some((p + decimal_bytes(b.len()).len() + 1, p + bstr(b).len())),
        bytes_at(s, p) == Some(b),
        value_end(s, p, d) == Some(p + bstr(b).len()),
        uint_at(s, p) is None,
        s[p] != 101 && s[p] != 105 && s[p] != 108 && s[p] != 100,
{
    let dl = decimal_bytes(b.len());
    lemma_decimal(b.len());
    assert(bstr(b) == (dl + seq![58u8]) + b);
    lemma_at_split(s, p, dl + seq![58u8], b);
    lemma_canonical_at(s, p, b.len(), 58);
    lemma_at_index(s, p, dl + seq![58u8], 0);
    assert(s.subrange(p + dl.len() + 1, p + dl.len() + 1 + b.len()) == b);
}

/// An integer token: where it ends, and the number it holds.
pub proof fn lemma_bint_at(s: Seq<u8>, p: int, n: nat, d: nat)
    requires
        at(s, p, bint(n)),
    ensures
        value_end(s, p, d) == Some(p + bint(n).len()),
        n <= u64::MAX ==> uint_at(s, p) == Some(n as u64),
        s[p] == 105,
{
    let dl = decimal_bytes(n);
    lemma_decimal(n);
    assert(bint(n) == seq![105u8] + (dl + seq![101u8]));
    lemma_at_split(s, p, seq![105u8], dl + seq![101u8]);
    lemma_at_index(s, p, seq![105u8], 0);
    lemma_canonical_at(s, p + 1, n, 101);
    lemma_at_split(s, p + 1, dl, seq![101u8]);
    lemma_at_index(s, p + 1, dl, 0);
}

/// At `q` stands the entry `key`, which may follow `prev`, with a value of `vlen` bytes.
pub open spec fn entry_ok(s: Seq<u8>, q: int, d: nat, prev: Option<Seq<u8>>, key: Seq<u8>, vlen: int) -> bool {
    &&& at(s, q, bstr(key))
    &&& key_may_follow(prev, key)
    &&& vlen > 0
    &&& q + bstr(key).len() + vlen <= s.len()
    &&& value_end(s, q + bstr(key).len(), d) == Some(q + bstr(key).len() + vlen)
}

proof fn lemma_entry(s: Seq<u8>, q: int, d: nat, prev: Option<Seq<u8>>, key: Seq<u8>, vlen: int)
    requires
        entry_ok(s, q, d, prev, key, vlen),
    ensures
        entry_at(s, q, d, prev) == Some((q + decimal_bytes(key.len()).len() + 1, q + bstr(key).len(), q + bstr(key).len() + vlen)),
        s.subrange(q + decimal_bytes(key.len()).len() + 1, q + bstr(key).len()) == key,
        0 <= q < s.len(),
        s[q] != 101,
{
    lemma_bstr_at(s, q, key, d);
    lemma_decimal(key.len());
}

/// Past one entry, the rest of a dictionary is walked from the next.
proof fn lemma_dict_end_step(s: Seq<u8>, q: int, d: nat, prev: Option<Seq<u8>>, key: Seq<u8>, vlen: int)
    requires
        entry_ok(s, q, d, prev, key, vlen),
    ensures
        dict_end(s, q, d, prev) == dict_end(s, q + bstr(key).len() + vlen, d, Some(key)),
{
    lemma_entry(s, q, d, prev, key, vlen);
    lemma_bstr_at(s, q, key, d);
}

/// Past one entry, the fold goes on from the next with what `f` made of it.
proof fn lemma_dict_fold_step<A>(
    s: Seq<u8>,
    q: int,
    d: nat,
    prev: Option<Seq<u8>>,
    key: Seq<u8>,
    vlen: int,
    acc: A,
    f: spec_fn(Seq<u8>, int, A) -> Option<A>,
)
    requires
        entry_ok(s, q, d, prev, key, vlen),
    ensures
        dict_fold(s, q, d, prev, acc, f) == match f(key, q + bstr(key).len(), acc) {
            Some(a) => dict_fold(s, q + bstr(key).len() + vlen, d, Some(key), a, f),
            None => None,
        },
{
    lemma_entry(s, q, d, prev, key, vlen);
}

/// A dictionary closes at an `e`.
proof fn lemma_dict_close<A>(s: Seq<u8>, q: int, d: nat, prev: Option<Seq<u8>>, acc: A, f: spec_fn(Seq<u8>, int, A) -> Option<A>)
    requires
        at(s, q, seq![101u8]),
    ensures
        dict_end(s, q, d, prev) == Some(q + 1),
        dict_fold(s, q, d, prev, acc, f) == Some(acc),
{
    lemma_at_index(s, q, seq![101u8], 0);
}

/// Past one item, the rest of a list is walked from the next.
proof fn lemma_list_step<A>(s: Seq<u8>, p: int, d: nat, vlen: int, acc: A, f: spec_fn(int, A) -> Option<A>)
    requires
        0 <= p,
        vlen > 0,
        value_end(s, p, d) == Some(p + vlen),
        p + vlen <= s.len(),
    ensures
        list_end(s, p, d) == list_end(s, p + vlen, d),
        list_fold(s, p, d, acc, f) == match f(p, acc) {
            Some(a) => list_fold(s, p + vlen, d, a, f),
            None => None,
        },
{
}

/// A list closes at an `e`.
proof fn lemma_list_close<A>(s: Seq<u8>, p: int, d: nat, acc: A, f: spec_fn(int, A) -> Option<A>)
    requires
        at(s, p, seq![101u8]),
    ensures
        list_end(s, p, d) == Some(p + 1),
        list_fold(s, p, d, acc, f) == Some(acc),
{
    lemma_at_index(s, p, seq![101u8], 0);
}

/// The keys are sent in the order the dictionaries require, and are told apart.
proof fn lemma_keys()
    ensures
        bytes_less(k_id(), k_info_hash()),
        bytes_less(k_info_hash(), k_port()),
        bytes_less(k_port(), k_token()),
        bytes_less(k_id(), k_target()),
        bytes_less(k_id(), k_nodes()),
        bytes_less(k_nodes(), k_token()),
        bytes_less(k_id(), k_token()),
        bytes_less(k_token(), k_values()),
        bytes_less(k_a(), k_q()),
        bytes_less(k_q(), k_t()),
        bytes_less(k_t(), k_y()),
        bytes_less(k_r(), k_t()),
        bytes_less(k_e(), k_t()),
        k_id().len() == 2,
        k_info_hash().len() == 9,
        k_port().len() == 4,
        k_target().len() == 6,
        k_token().len() == 5,
        k_nodes().len() == 5,
        k_values().len() == 6,
        k_a().len() == 1 && k_q().len() == 1 && k_t().len() == 1 && k_y().len() == 1 && k_r().len() == 1 && k_e().len() == 1,
        k_a()[0] == 97 && k_q()[0] == 113 && k_t()[0] == 116 && k_y()[0] == 121 && k_r()[0] == 114 && k_e()[0] == 101,
        k_target()[0] == 116 && k_token()[0] == 116 && k_target()[1] == 97 && k_token()[1] == 111,
        k_nodes()[0] == 110 && k_token()[0] == 116,
{
    reveal_with_fuel(bytes_less, 3);
    assert(k_id().drop_first()[0] == 100 && k_info_hash().drop_first()[0] == 110);
    assert(bytes_less(k_id().drop_first(), k_info_hash().drop_first()));
}

proof fn lemma_at_trans(s: Seq<u8>, p: int, t: Seq<u8>, u: Seq<u8>)
    requires
        at(s, p, t),
        at(t, 0, u),
    ensures
        at(s, p, u),
{
    assert forall|i: int| 0 <= i < u.len() implies s.subrange(p, p + u.len())[i] == u[i] by {
        lemma_at_index(s, p, t, i);
        lemma_at_index(t, 0, u, i);
    }
    assert(s.subrange(p, p + u.len()) =~= u);
}

/// The peers before `j` are sent first.
proof fn lemma_peers_prefix(vs: Seq<Peer>, j: int)
    requires
        0 <= j <= vs.len(),
    ensures
        at(encode_peers(vs), 0, encode_peers(vs.take(j))),
    decreases vs.len(),
{
    if j == vs.len() {
        assert(vs.take(j) == vs);
        assert(encode_peers(vs).subrange(0, encode_peers(vs).len() as int) =~= encode_peers(vs));
    } else {
        lemma_peers_prefix(vs.drop_last(), j);
        assert(vs.drop_last().take(j) == vs.take(j));
        let t = encode_peers(vs);
        let a = encode_peers(vs.drop_last());
        assert(t == a + bstr(compact_of(vs.last().ip, vs.last().port)));
        assert(at(t, 0, a)) by {
            assert(t.subrange(0, a.len() as int) =~= a);
        }
        lemma_at_trans(t, 0, a, encode_peers(vs.take(j)));
    }
}

/// A list of compact peers: where it ends, and the peers read from it.
proof fn lemma_peers_items(s: Seq<u8>, p0: int, d: nat, vs: Seq<Peer>, k: int)
    requires
        at(s, p0, encode_peers(vs) + seq![101u8]),
        0 <= k <= vs.len(),
    ensures
        list_end(s, p0 + encode_peers(vs.take(k)).len(), d) == Some(p0 + encode_peers(vs).len() + 1),
        list_fold(s, p0 + encode_peers(vs.take(k)).len(), d, vs.take(k), peers_handler(s)) == Some(vs),
    decreases vs.len() - k,
{
    lemma_at_split(s, p0, encode_peers(vs), seq![101u8]);
    if k == vs.len() {
        assert(vs.take(k) == vs);
        lemma_list_close(s, p0 + encode_peers(vs).len(), d, vs, peers_handler(s));
    } else {
        let x = vs[k];
        let c = compact_of(x.ip, x.port);
        let q = p0 + encode_peers(vs.take(k)).len();
        assert(vs.take(k + 1).drop_last() == vs.take(k));
        assert(vs.take(k + 1).last() == x);
        assert(encode_peers(vs.take(k + 1)) == encode_peers(vs.take(k)) + bstr(c));
        lemma_peers_prefix(vs, k + 1);
        lemma_at_trans(s, p0, encode_peers(vs), encode_peers(vs.take(k + 1)));
        lemma_at_split(s, p0, encode_peers(vs.take(k)), bstr(c));
        lemma_bstr_at(s, q, c, d);
        lemma_compact_roundtrip(x);
        assert(peer_of(c) == x);
        assert(vs.take(k).push(x) == vs.take(k + 1));
        lemma_list_step(s, q, d, bstr(c).len() as int, vs.take(k), peers_handler(s));
        lemma_peers_items(s, p0, d, vs, k + 1);
    }
}

/// A list of compact peers as a value: where it ends, and the peers read from it.
pub proof fn lemma_peers_read(s: Seq<u8>, p: int, d: nat, vs: Seq<Peer>)
    requires
        at(s, p, seq![108u8] + encode_peers(vs) + seq![101u8]),
        d >= 1,
    ensures
        value_end(s, p, d) == Some(p + (seq![108u8] + encode_peers(vs) + seq![101u8]).len()),
        peers_at(s, p, d) == Some(vs),
{
    assert(seq![108u8] + encode_peers(vs) + seq![101u8] == seq![108u8] + (encode_peers(vs) + seq![101u8]));
    lemma_at_split(s, p, seq![108u8], encode_peers(vs) + seq![101u8]);
    lemma_at_index(s, p, seq![108u8], 0);
    assert(vs.take(0) == Seq::<Peer>::empty());
    lemma_peers_items(s, p + 1, (d - 1) as nat, vs, 0);
}

/// The bytes an error item is sent as.
pub open spec fn error_bytes(e: Error) -> Seq<u8> {
    match e {
        Error::Code(c) => bint(c as nat),
        Error::Desc(d) => bstr(encode_utf8(d@)),
    }
}

/// The errors before `j` are sent first.
proof fn lemma_errors_prefix(es: Seq<Error>, j: int)
    requires
        0 <= j <= es.len(),
    ensures
        at(encode_errors(es), 0, encode_errors(es.take(j))),
    decreases es.len(),
{
    if j == es.len() {
        assert(es.take(j) == es);
        assert(encode_errors(es).subrange(0, encode_errors(es).len() as int) =~= encode_errors(es));
    } else {
        lemma_errors_prefix(es.drop_last(), j);
        assert(es.drop_last().take(j) == es.take(j));
        let t = encode_errors(es);
        let a = encode_errors(es.drop_last());
        assert(t == a + error_bytes(es.last()));
        assert(at(t, 0, a)) by {
            assert(t.subrange(0, a.len() as int) =~= a);
        }
        lemma_at_trans(t, 0, a, encode_errors(es.take(j)));
    }
}

/// One error item: where it ends, and what is read from it.
proof fn lemma_error_item(s: Seq<u8>, q: int, d: nat, e: Error)
    requires
        at(s, q, error_bytes(e)),
    ensures
        value_end(s, q, d) == Some(q + error_bytes(e).len()),
        error_item_at(s, q) == Some(error_v(e)),
        error_bytes(e).len() > 0,
{
    broadcast use vstd::utf8::encode_utf8_valid_utf8, vstd::utf8::encode_utf8_decode_utf8;
    match e {
        Error::Code(c) => {
            lemma_bint_at(s, q, c as nat, d);
        },
        Error::Desc(t) => {
            lemma_bstr_at(s, q, encode_utf8(t@), d);
            assert(valid_utf8(encode_utf8(t@)));
            assert(decode_utf8(encode_utf8(t@)) == t@);
        },
    }
}

proof fn lemma_errors_items(s: Seq<u8>, p0: int, d: nat, es: Seq<Error>, k: int)
    requires
        at(s, p0, encode_errors(es) + seq![101u8]),
        0 <= k <= es.len(),
    ensures
        list_end(s, p0 + encode_errors(es.take(k)).len(), d) == Some(p0 + encode_errors(es).len() + 1),
        list_fold(s, p0 + encode_errors(es.take(k)).len(), d, errors_v(es.take(k)), errors_handler(s)) == Some(errors_v(es)),
    decreases es.len() - k,
{
    lemma_at_split(s, p0, encode_errors(es), seq![101u8]);
    if k == es.len() {
        assert(es.take(k) == es);
        lemma_list_close(s, p0 + encode_errors(es).len(), d, errors_v(es), errors_handler(s));
    } else {
        let x = es[k];
        let q = p0 + encode_errors(es.take(k)).len();
        assert(es.take(k + 1).drop_last() == es.take(k));
        assert(es.take(k + 1).last() == x);
        assert(encode_errors(es.take(k + 1)) == encode_errors(es.take(k)) + error_bytes(x));
        lemma_errors_prefix(es, k + 1);
        lemma_at_trans(s, p0, encode_errors(es), encode_errors(es.take(k + 1)));
        lemma_at_split(s, p0, encode_errors(es.take(k)), error_bytes(x));
        lemma_error_item(s, q, d, x);
        assert(errors_v(es.take(k)).push(error_v(x)) =~= errors_v(es.take(k + 1)));
        lemma_list_step(s, q, d, error_bytes(x).len() as int, errors_v(es.take(k)), errors_handler(s));
        lemma_errors_items(s, p0, d, es, k + 1);
    }
}

/// A list of errors as a value: where it ends, and the errors read from it.
pub proof fn lemma_errors_read(s: Seq<u8>, p: int, d: nat, es: Seq<Error>)
    requires
        at(s, p, seq![108u8] + encode_errors(es) + seq![101u8]),
        d >= 1,
    ensures
        value_end(s, p, d) == Some(p + (seq![108u8] + encode_errors(es) + seq![101u8]).len()),
        errors_at(s, p, d) == Some(errors_v(es)),
{
    assert(seq![108u8] + encode_errors(es) + seq![101u8] == seq![108u8] + (encode_errors(es) + seq![101u8]));
    lemma_at_split(s, p, seq![108u8], encode_errors(es) + seq![101u8]);
    lemma_at_index(s, p, seq![108u8], 0);
    assert(es.take(0) == Seq::<Error>::empty());
    assert(errors_v(es.take(0)) =~= Seq::<ErrorV>::empty());
    lemma_errors_items(s, p + 1, (d - 1) as nat, es, 0);
}

/// What a node is read back as: its identifier and address, not when it was last seen.
pub open spec fn node_read(n: Node) -> NodeV {
    NodeV { id: n.id@, addr: n.addr, last_seen: None }
}

/// What nodes are read back as: a single node of a list reads as the exact node.
pub open spec fn nodes_read(n: Nodes) -> NodesV {
    match n {
        Nodes::Exact(x) => NodesV::Exact(node_read(x)),
        Nodes::Closest(v) => if v@.len() == 1 {
            NodesV::Exact(node_read(v@[0]))
        } else {
            NodesV::Closest(v@.map_values(|x: Node| node_read(x)))
        },
    }
}

proof fn lemma_node_compact(x: Node)
    ensures
        node_compact(x).len() == 26,
        node_of(node_compact(x)) == node_read(x),
{
    let b = node_compact(x);
    lemma_compact_roundtrip(x.addr);
    assert(b.subrange(0, 20) =~= x.id@);
    assert(b.subrange(20, 26) =~= compact_of(x.addr.ip, x.addr.port));
}

proof fn lemma_nodes_compact(v: Seq<Node>)
    ensures
        nodes_compact(v).len() == 26 * v.len(),
        forall|i: int| 0 <= i < v.len() ==> #[trigger] nodes_compact(v).subrange(26 * i, 26 * i + 26) == node_compact(v[i]),
    decreases v.len(),
{
    if v.len() > 0 {
        lemma_nodes_compact(v.drop_last());
        lemma_node_compact(v.last());
        let a = nodes_compact(v.drop_last());
        let t = nodes_compact(v);
        assert(t == a + node_compact(v.last()));
        assert forall|i: int| 0 <= i < v.len() implies #[trigger] t.subrange(26 * i, 26 * i + 26) == node_compact(v[i]) by {
            if i < v.len() - 1 {
                assert(a.subrange(26 * i, 26 * i + 26) == node_compact(v.drop_last()[i]));
                assert(t.subrange(26 * i, 26 * i + 26) =~= a.subrange(26 * i, 26 * i + 26));
            } else {
                assert(t.subrange(26 * i, 26 * i + 26) =~= node_compact(v.last()));
            }
        }
    }
}

/// Nodes sent compact are read back as `nodes_read` says.
pub proof fn lemma_nodes_read(n: Nodes)
    ensures
        nodes_of(encode_nodes(n)) == Some(nodes_read(n)),
{
    match n {
        Nodes::Exact(x) => {
            lemma_node_compact(x);
        },
        Nodes::Closest(v) => {
            lemma_nodes_compact(v@);
            let b = nodes_compact(v@);
            assert(b.len() % 26 == 0 && b.len() / 26 == v@.len()) by (nonlinear_arith)
                requires b.len() == 26 * v@.len();
            if v@.len() == 1 {
                assert(b.subrange(0, 26) == node_compact(v@[0]));
                assert(b.subrange(0, 26) =~= b);
                lemma_node_compact(v@[0]);
            } else {
                assert forall|i: int| 0 <= i < v@.len() implies node_of(b.subrange(26 * i, 26 * i + 26)) == node_read(v@[i]) by {
                    assert(b.subrange(26 * i, 26 * i + 26) == node_compact(v@[i]));
                    lemma_node_compact(v@[i]);
                }
                assert(Seq::new(b.len() / 26, |i: int| node_of(b.subrange(26 * i, 26 * i + 26))) =~= v@.map_values(|x: Node| node_read(x)));
            }
        },
    }
}

#[verifier::spinoff_prover]
#[verifier::rlimit(40)]
proof fn lemma_args_read_ping(s: Seq<u8>, p: int, d: nat, id: ID)
    requires
        at(s, p, encode_arguments((Arguments::Ping { id }))),
        d >= 1,
    ensures
        value_end(s, p, d) == Some(p + encode_arguments((Arguments::Ping { id })).len()),
        args_at(s, p, d) matches Some(acc) && args_variant(acc) == Some(arguments_v((Arguments::Ping { id }))),
{
    lemma_keys();
    let dd = (d - 1) as nat;
    let f = args_handler(s);
    let enc = encode_arguments((Arguments::Ping { id }));
    let m = bstr(k_id()) + bstr(id@);
    assert(enc == (seq![100u8] + m) + seq![101u8]);
    lemma_at_split(s, p, seq![100u8] + m, seq![101u8]);
    lemma_at_split(s, p, seq![100u8], m);
    lemma_at_index(s, p, seq![100u8], 0);
    let q0 = p + 1;
    lemma_at_split(s, q0, bstr(k_id()), bstr(id@));
    let pos1 = q0;
    let pos2 = pos1 + (bstr(k_id())).len();
    let pos_end = pos2 + (bstr(id@)).len();
    lemma_bstr_at(s, pos2, id@, dd);
    lemma_dict_end_step(s, pos1, dd, None, k_id(), (bstr(id@)).len() as int);
    lemma_dict_fold_step(s, pos1, dd, None, k_id(), (bstr(id@)).len() as int, empty_args(), f);
    let acc1 = f(k_id(), pos2, empty_args())->0;
    lemma_dict_close(s, pos_end, dd, Some(k_id()), acc1, f);
}

#[verifier::spinoff_prover]
#[verifier::rlimit(40)]
proof fn lemma_args_read_find_node(s: Seq<u8>, p: int, d: nat, id: ID, target: ID)
    requires
        at(s, p, encode_arguments((Arguments::FindNode { id, target }))),
        d >= 1,
    ensures
        value_end(s, p, d) == Some(p + encode_arguments((Arguments::FindNode { id, target })).len()),
        args_at(s, p, d) matches Some(acc) && args_variant(acc) == Some(arguments_v((Arguments::FindNode { id, target }))),
{
    lemma_keys();
    let dd = (d - 1) as nat;
    let f = args_handler(s);
    let enc = encode_arguments((Arguments::FindNode { id, target }));
    let m = bstr(k_id()) + bstr(id@) + bstr(k_target()) + bstr(target@);
    assert(enc == (seq![100u8] + m) + seq![101u8]);
    lemma_at_split(s, p, seq![100u8] + m, seq![101u8]);
    lemma_at_split(s, p, seq![100u8], m);
    lemma_at_index(s, p, seq![100u8], 0);
    let q0 = p + 1;
    lemma_at_split(s, q0, bstr(k_id()) + bstr(id@) + bstr(k_target()), bstr(target@));
    lemma_at_split(s, q0, bstr(k_id()) + bstr(id@), bstr(k_target()));
    lemma_at_split(s, q0, bstr(k_id()), bstr(id@));
    let pos1 = q0;
    let pos2 = pos1 + (bstr(k_id())).len();
    let pos3 = pos2 + (bstr(id@)).len();
    let pos4 = pos3 + (bstr(k_target())).len();
    let pos_end = pos4 + (bstr(target@)).len();
    lemma_bstr_at(s, pos2, id@, dd);
    lemma_dict_end_step(s, pos1, dd, None, k_id(), (bstr(id@)).len() as int);
    lemma_dict_fold_step(s, pos1, dd, None, k_id(), (bstr(id@)).len() as int, empty_args(), f);
    let acc1 = f(k_id(), pos2, empty_args())->0;
    lemma_bstr_at(s, pos4, target@, dd);
    lemma_dict_end_step(s, pos3, dd, Some(k_id()), k_target(), (bstr(target@)).len() as int);
    lemma_dict_fold_step(s, pos3, dd, Some(k_id()), k_target(), (bstr(target@)).len() as int, acc1, f);
    let acc2 = f(k_target(), pos4, acc1)->0;
    lemma_dict_close(s, pos_end, dd, Some(k_target()), acc2, f);
}

#[verifier::spinoff_prover]
#[verifier::rlimit(40)]
proof fn lemma_args_read_get_peers(s: Seq<u8>, p: int, d: nat, id: ID, info_hash: ID)
    requires
        at(s, p, encode_arguments((Arguments::GetPeers { id, info_hash }))),
        d >= 1,
    ensures
        value_end(s, p, d) == Some(p + encode_arguments((Arguments::GetPeers { id, info_hash })).len()),
        args_at(s, p, d) matches Some(acc) && args_variant(acc) == Some(arguments_v((Arguments::GetPeers { id, info_hash }))),
{
    lemma_keys();
    let dd = (d - 1) as nat;
    let f = args_handler(s);
    let enc = encode_arguments((Arguments::GetPeers { id, info_hash }));
    let m = bstr(k_id()) + bstr(id@) + bstr(k_info_hash()) + bstr(info_hash@);
    assert(enc == (seq![100u8] + m) + seq![101u8]);
    lemma_at_split(s, p, seq![100u8] + m, seq![101u8]);
    lemma_at_split(s, p, seq![100u8], m);
    lemma_at_index(s, p, seq![100u8], 0);
    let q0 = p + 1;
    lemma_at_split(s, q0, bstr(k_id()) + bstr(id@) + bstr(k_info_hash()), bstr(info_hash@));
    lemma_at_split(s, q0, bstr(k_id()) + bstr(id@), bstr(k_info_hash()));
    lemma_at_split(s, q0, bstr(k_id()), bstr(id@));
    let pos1 = q0;
    let pos2 = pos1 + (bstr(k_id())).len();
    let pos3 = pos2 + (bstr(id@)).len();
    let pos4 = pos3 + (bstr(k_info_hash())).len();
    let pos_end = pos4 + (bstr(info_hash@)).len();
    lemma_bstr_at(s, pos2, id@, dd);
    lemma_dict_end_step(s, pos1, dd, None, k_id(), (bstr(id@)).len() as int);
    lemma_dict_fold_step(s, pos1, dd, None, k_id(), (bstr(id@)).len() as int, empty_args(), f);
    let acc1 = f(k_id(), pos2, empty_args())->0;
    lemma_bstr_at(s, pos4, info_hash@, dd);
    lemma_dict_end_step(s, pos3, dd, Some(k_id()), k_info_hash(), (bstr(info_hash@)).len() as int);
    lemma_dict_fold_step(s, pos3, dd, Some(k_id()), k_info_hash(), (bstr(info_hash@)).len() as int, acc1, f);
    let acc2 = f(k_info_hash(), pos4, acc1)->0;
    lemma_dict_close(s, pos_end, dd, Some(k_info_hash()), acc2, f);
}

#[verifier::spinoff_prover]
#[verifier::rlimit(40)]
proof fn lemma_args_read_announce(s: Seq<u8>, p: int, d: nat, id: ID, info_hash: ID, port: u16, token: NoSizeBytes)
    requires
        at(s, p, encode_arguments((Arguments::AnnouncePeer { id, info_hash, port, token }))),
        d >= 1,
    ensures
        value_end(s, p, d) == Some(p + encode_arguments((Arguments::AnnouncePeer { id, info_hash, port, token })).len()),
        args_at(s, p, d) matches Some(acc) && args_variant(acc) == Some(arguments_v((Arguments::AnnouncePeer { id, info_hash, port, token }))),
{
    lemma_keys();
    let dd = (d - 1) as nat;
    let f = args_handler(s);
    let enc = encode_arguments((Arguments::AnnouncePeer { id, info_hash, port, token }));
    let m = bstr(k_id()) + bstr(id@) + bstr(k_info_hash()) + bstr(info_hash@) + bstr(k_port()) + bint(port as nat) + bstr(k_token()) + bstr(token.0@);
    assert(enc == (seq![100u8] + m) + seq![101u8]);
    lemma_at_split(s, p, seq![100u8] + m, seq![101u8]);
    lemma_at_split(s, p, seq![100u8], m);
    lemma_at_index(s, p, seq![100u8], 0);
    let q0 = p + 1;
    lemma_at_split(s, q0, bstr(k_id()) + bstr(id@) + bstr(k_info_hash()) + bstr(info_hash@) + bstr(k_port()) + bint(port as nat) + bstr(k_token()), bstr(token.0@));
    lemma_at_split(s, q0, bstr(k_id()) + bstr(id@) + bstr(k_info_hash()) + bstr(info_hash@) + bstr(k_port()) + bint(port as nat), bstr(k_token()));
    lemma_at_split(s, q0, bstr(k_id()) + bstr(id@) + bstr(k_info_hash()) + bstr(info_hash@) + bstr(k_port()), bint(port as nat));
    lemma_at_split(s, q0, bstr(k_id()) + bstr(id@) + bstr(k_info_hash()) + bstr(info_hash@), bstr(k_port()));
    lemma_at_split(s, q0, bstr(k_id()) + bstr(id@) + bstr(k_info_hash()), bstr(info_hash@));
    lemma_at_split(s, q0, bstr(k_id()) + bstr(id@), bstr(k_info_hash()));
    lemma_at_split(s, q0, bstr(k_id()), bstr(id@));
    let pos1 = q0;
    let pos2 = pos1 + (bstr(k_id())).len();
    let pos3 = pos2 + (bstr(id@)).len();
    let pos4 = pos3 + (bstr(k_info_hash())).len();
    let pos5 = pos4 + (bstr(info_hash@)).len();
    let pos6 = pos5 + (bstr(k_port())).len();
    let pos7 = pos6 + (bint(port as nat)).len();
    let pos8 = pos7 + (bstr(k_token())).len();
    let pos_end = pos8 + (bstr(token.0@)).len();
    lemma_bstr_at(s, pos2, id@, dd);
    lemma_dict_end_step(s, pos1, dd, None, k_id(), (bstr(id@)).len() as int);
    lemma_dict_fold_step(s, pos1, dd, None, k_id(), (bstr(id@)).len() as int, empty_args(), f);
    let acc1 = f(k_id(), pos2, empty_args())->0;
    lemma_bstr_at(s, pos4, info_hash@, dd);
    lemma_dict_end_step(s, pos3, dd, Some(k_id()), k_info_hash(), (bstr(info_hash@)).len() as int);
    lemma_dict_fold_step(s, pos3, dd, Some(k_id()), k_info_hash(), (bstr(info_hash@)).len() as int, acc1, f);
    let acc2 = f(k_info_hash(), pos4, acc1)->0;
    lemma_bint_at(s, pos6, port as nat, dd);
    lemma_dict_end_step(s, pos5, dd, Some(k_info_hash()), k_port(), (bint(port as nat)).len() as int);
    lemma_dict_fold_step(s, pos5, dd, Some(k_info_hash()), k_port(), (bint(port as nat)).len() as int, acc2, f);
    let acc3 = f(k_port(), pos6, acc2)->0;
    lemma_bstr_at(s, pos8, token.0@, dd);
    lemma_dict_end_step(s, pos7, dd, Some(k_port()), k_token(), (bstr(token.0@)).len() as int);
    lemma_dict_fold_step(s, pos7, dd, Some(k_port()), k_token(), (bstr(token.0@)).len() as int, acc3, f);
    let acc4 = f(k_token(), pos8, acc3)->0;
    lemma_dict_close(s, pos_end, dd, Some(k_token()), acc4, f);
}

/// An argument dictionary: where it ends, and the arguments read from it.
pub proof fn lemma_args_read(s: Seq<u8>, p: int, d: nat, a: Arguments)
    requires
        at(s, p, encode_arguments(a)),
        d >= 1,
    ensures
        value_end(s, p, d) == Some(p + encode_arguments(a).len()),
        args_at(s, p, d) matches Some(acc) && args_variant(acc) == Some(arguments_v(a)),
{
    match a {
        Arguments::Ping { id } => lemma_args_read_ping(s, p, d, id),
        Arguments::FindNode { id, target } => lemma_args_read_find_node(s, p, d, id, target),
        Arguments::GetPeers { id, info_hash } => lemma_args_read_get_peers(s, p, d, id, info_hash),
        Arguments::AnnouncePeer { id, info_hash, port, token } => lemma_args_read_announce(s, p, d, id, info_hash, port, token),
    }
}


/// What a response is read back as: an announce answer reads as a ping answer, and nodes as
/// `nodes_read` says.
pub open spec fn response_read(r: Response) -> ResponseV {
    match r {
        Response::GetPeers { id, token, values_or_nodes } => ResponseV::GetPeers {
            id: id@,
            token: token.0@,
            values_or_nodes: match values_or_nodes {
                ValuesOrNodes::Values { values } => ValuesOrNodesV::Values(values@),
                ValuesOrNodes::Nodes { nodes } => ValuesOrNodesV::Nodes(nodes_read(nodes)),
            },
        },
        Response::FindNode { id, nodes } => ResponseV::FindNode { id: id@, nodes: nodes_read(nodes) },
        Response::Ping { id } => ResponseV::Ping { id: id@ },
        Response::AnnouncePeer { id } => ResponseV::Ping { id: id@ },
    }
}

#[verifier::spinoff_prover]
#[verifier::rlimit(40)]
proof fn lemma_resp_read_ping(s: Seq<u8>, p: int, d: nat, id: ID)
    requires
        at(s, p, encode_response((Response::Ping { id }))),
        d >= 2,
    ensures
        value_end(s, p, d) == Some(p + encode_response((Response::Ping { id })).len()),
        resp_at(s, p, d) matches Some(acc) && resp_variant(acc) == Some(response_read((Response::Ping { id }))),
{
    lemma_keys();
    let dd = (d - 1) as nat;
    let f = resp_handler(s, dd);
    let enc = encode_response((Response::Ping { id }));
    let m = bstr(k_id()) + bstr(id@);
    assert(enc == (seq![100u8] + m) + seq![101u8]);
    lemma_at_split(s, p, seq![100u8] + m, seq![101u8]);
    lemma_at_split(s, p, seq![100u8], m);
    lemma_at_index(s, p, seq![100u8], 0);
    let q0 = p + 1;
    lemma_at_split(s, q0, bstr(k_id()), bstr(id@));
    let pos1 = q0;
    let pos2 = pos1 + (bstr(k_id())).len();
    let pos_end = pos2 + (bstr(id@)).len();
    lemma_bstr_at(s, pos2, id@, dd);
    lemma_dict_end_step(s, pos1, dd, None, k_id(), (bstr(id@)).len() as int);
    lemma_dict_fold_step(s, pos1, dd, None, k_id(), (bstr(id@)).len() as int, empty_resp(), f);
    let acc1 = f(k_id(), pos2, empty_resp())->0;
    lemma_dict_close(s, pos_end, dd, Some(k_id()), acc1, f);
}

#[verifier::spinoff_prover]
#[verifier::rlimit(40)]
proof fn lemma_resp_read_announce(s: Seq<u8>, p: int, d: nat, id: ID)
    requires
        at(s, p, encode_response((Response::AnnouncePeer { id }))),
        d >= 2,
    ensures
        value_end(s, p, d) == Some(p + encode_response((Response::AnnouncePeer { id })).len()),
        resp_at(s, p, d) matches Some(acc) && resp_variant(acc) == Some(response_read((Response::AnnouncePeer { id }))),
{
    lemma_keys();
    let dd = (d - 1) as nat;
    let f = resp_handler(s, dd);
    let enc = encode_response((Response::AnnouncePeer { id }));
    let m = bstr(k_id()) + bstr(id@);
    assert(enc == (seq![100u8] + m) + seq![101u8]);
    lemma_at_split(s, p, seq![100u8] + m, seq![101u8]);
    lemma_at_split(s, p, seq![100u8], m);
    lemma_at_index(s, p, seq![100u8], 0);
    let q0 = p + 1;
    lemma_at_split(s, q0, bstr(k_id()), bstr(id@));
    let pos1 = q0;
    let pos2 = pos1 + (bstr(k_id())).len();
    let pos_end = pos2 + (bstr(id@)).len();
    lemma_bstr_at(s, pos2, id@, dd);
    lemma_dict_end_step(s, pos1, dd, None, k_id(), (bstr(id@)).len() as int);
    lemma_dict_fold_step(s, pos1, dd, None, k_id(), (bstr(id@)).len() as int, empty_resp(), f);
    let acc1 = f(k_id(), pos2, empty_resp())->0;
    lemma_dict_close(s, pos_end, dd, Some(k_id()), acc1, f);
}

#[verifier::spinoff_prover]
#[verifier::rlimit(40)]
proof fn lemma_resp_read_find_node(s: Seq<u8>, p: int, d: nat, id: ID, nodes: Nodes)
    requires
        at(s, p, encode_response((Response::FindNode { id, nodes }))),
        d >= 2,
    ensures
        value_end(s, p, d) == Some(p + encode_response((Response::FindNode { id, nodes })).len()),
        resp_at(s, p, d) matches Some(acc) && resp_variant(acc) == Some(response_read((Response::FindNode { id, nodes }))),
{
    lemma_keys();
    let dd = (d - 1) as nat;
    let f = resp_handler(s, dd);
    let enc = encode_response((Response::FindNode { id, nodes }));
    let m = bstr(k_id()) + bstr(id@) + bstr(k_nodes()) + bstr(encode_nodes(nodes));
    assert(enc == (seq![100u8] + m) + seq![101u8]);
    lemma_at_split(s, p, seq![100u8] + m, seq![101u8]);
    lemma_at_split(s, p, seq![100u8], m);
    lemma_at_index(s, p, seq![100u8], 0);
    let q0 = p + 1;
    lemma_at_split(s, q0, bstr(k_id()) + bstr(id@) + bstr(k_nodes()), bstr(encode_nodes(nodes)));
    lemma_at_split(s, q0, bstr(k_id()) + bstr(id@), bstr(k_nodes()));
    lemma_at_split(s, q0, bstr(k_id()), bstr(id@));
    let pos1 = q0;
    let pos2 = pos1 + (bstr(k_id())).len();
    let pos3 = pos2 + (bstr(id@)).len();
    let pos4 = pos3 + (bstr(k_nodes())).len();
    let pos_end = pos4 + (bstr(encode_nodes(nodes))).len();
    lemma_bstr_at(s, pos2, id@, dd);
    lemma_dict_end_step(s, pos1, dd, None, k_id(), (bstr(id@)).len() as int);
    lemma_dict_fold_step(s, pos1, dd, None, k_id(), (bstr(id@)).len() as int, empty_resp(), f);
    let acc1 = f(k_id(), pos2, empty_resp())->0;
    lemma_bstr_at(s, pos4, encode_nodes(nodes), dd); lemma_nodes_read(nodes);
    lemma_dict_end_step(s, pos3, dd, Some(k_id()), k_nodes(), (bstr(encode_nodes(nodes))).len() as int);
    lemma_dict_fold_step(s, pos3, dd, Some(k_id()), k_nodes(), (bstr(encode_nodes(nodes))).len() as int, acc1, f);
    let acc2 = f(k_nodes(), pos4, acc1)->0;
    lemma_dict_close(s, pos_end, dd, Some(k_nodes()), acc2, f);
}

#[verifier::spinoff_prover]
#[verifier::rlimit(100)]
proof fn lemma_resp_read_values(s: Seq<u8>, p: int, d: nat, id: ID, token: NoSizeBytes, values: Vec<Peer>)
    requires
        at(s, p, encode_response((Response::GetPeers { id, token, values_or_nodes: ValuesOrNodes::Values { values } }))),
        d >= 2,
    ensures
        value_end(s, p, d) == Some(p + encode_response((Response::GetPeers { id, token, values_or_nodes: ValuesOrNodes::Values { values } })).len()),
        resp_at(s, p, d) matches Some(acc) && resp_variant(acc) == Some(response_read((Response::GetPeers { id, token, values_or_nodes: ValuesOrNodes::Values { values } }))),
{
    lemma_keys();
    let dd = (d - 1) as nat;
    let f = resp_handler(s, dd);
    let enc = encode_response((Response::GetPeers { id, token, values_or_nodes: ValuesOrNodes::Values { values } }));
    let m = bstr(k_id()) + bstr(id@) + bstr(k_token()) + bstr(token.0@) + bstr(k_values()) + seq![108u8] + encode_peers(values@) + seq![101u8];
    assert(enc == (seq![100u8] + m) + seq![101u8]);
    lemma_at_split(s, p, seq![100u8] + m, seq![101u8]);
    lemma_at_split(s, p, seq![100u8], m);
    lemma_at_index(s, p, seq![100u8], 0);
    let q0 = p + 1;
    assert(bstr(k_id()) + bstr(id@) + bstr(k_token()) + bstr(token.0@) + bstr(k_values()) + seq![108u8] + encode_peers(values@) + seq![101u8] =~= (bstr(k_id()) + bstr(id@) + bstr(k_token()) + bstr(token.0@) + bstr(k_values())) + (seq![108u8] + encode_peers(values@) + seq![101u8]));
    lemma_at_split(s, q0, bstr(k_id()) + bstr(id@) + bstr(k_token()) + bstr(token.0@) + bstr(k_values()), seq![108u8] + encode_peers(values@) + seq![101u8]);
    lemma_at_split(s, q0, bstr(k_id()) + bstr(id@) + bstr(k_token()) + bstr(token.0@), bstr(k_values()));
    lemma_at_split(s, q0, bstr(k_id()) + bstr(id@) + bstr(k_token()), bstr(token.0@));
    lemma_at_split(s, q0, bstr(k_id()) + bstr(id@), bstr(k_token()));
    lemma_at_split(s, q0, bstr(k_id()), bstr(id@));
    let pos1 = q0;
    let pos2 = pos1 + (bstr(k_id())).len();
    let pos3 = pos2 + (bstr(id@)).len();
    let pos4 = pos3 + (bstr(k_token())).len();
    let pos5 = pos4 + (bstr(token.0@)).len();
    let pos6 = pos5 + (bstr(k_values())).len();
    let pos_end = pos6 + (seq![108u8] + encode_peers(values@) + seq![101u8]).len();
    lemma_bstr_at(s, pos2, id@, dd);
    lemma_dict_end_step(s, pos1, dd, None, k_id(), (bstr(id@)).len() as int);
    lemma_dict_fold_step(s, pos1, dd, None, k_id(), (bstr(id@)).len() as int, empty_resp(), f);
    let acc1 = f(k_id(), pos2, empty_resp())->0;
    lemma_bstr_at(s, pos4, token.0@, dd);
    lemma_dict_end_step(s, pos3, dd, Some(k_id()), k_token(), (bstr(token.0@)).len() as int);
    lemma_dict_fold_step(s, pos3, dd, Some(k_id()), k_token(), (bstr(token.0@)).len() as int, acc1, f);
    let acc2 = f(k_token(), pos4, acc1)->0;
    lemma_peers_read(s, pos6, dd, values@);
    lemma_dict_end_step(s, pos5, dd, Some(k_token()), k_values(), (seq![108u8] + encode_peers(values@) + seq![101u8]).len() as int);
    lemma_dict_fold_step(s, pos5, dd, Some(k_token()), k_values(), (seq![108u8] + encode_peers(values@) + seq![101u8]).len() as int, acc2, f);
    let acc3 = f(k_values(), pos6, acc2)->0;
    lemma_dict_close(s, pos_end, dd, Some(k_values()), acc3, f);
}

#[verifier::spinoff_prover]
#[verifier::rlimit(40)]
proof fn lemma_resp_read_nodes(s: Seq<u8>, p: int, d: nat, id: ID, token: NoSizeBytes, nodes: Nodes)
    requires
        at(s, p, encode_response((Response::GetPeers { id, token, values_or_nodes: ValuesOrNodes::Nodes { nodes } }))),
        d >= 2,
    ensures
        value_end(s, p, d) == Some(p + encode_response((Response::GetPeers { id, token, values_or_nodes: ValuesOrNodes::Nodes { nodes } })).len()),
        resp_at(s, p, d) matches Some(acc) && resp_variant(acc) == Some(response_read((Response::GetPeers { id, token, values_or_nodes: ValuesOrNodes::Nodes { nodes } }))),
{
    lemma_keys();
    let dd = (d - 1) as nat;
    let f = resp_handler(s, dd);
    let enc = encode_response((Response::GetPeers { id, token, values_or_nodes: ValuesOrNodes::Nodes { nodes } }));
    let m = bstr(k_id()) + bstr(id@) + bstr(k_nodes()) + bstr(encode_nodes(nodes)) + bstr(k_token()) + bstr(token.0@);
    assert(enc == (seq![100u8] + m) + seq![101u8]);
    lemma_at_split(s, p, seq![100u8] + m, seq![101u8]);
    lemma_at_split(s, p, seq![100u8], m);
    lemma_at_index(s, p, seq![100u8], 0);
    let q0 = p + 1;
    lemma_at_split(s, q0, bstr(k_id()) + bstr(id@) + bstr(k_nodes()) + bstr(encode_nodes(nodes)) + bstr(k_token()), bstr(token.0@));
    lemma_at_split(s, q0, bstr(k_id()) + bstr(id@) + bstr(k_nodes()) + bstr(encode_nodes(nodes)), bstr(k_token()));
    lemma_at_split(s, q0, bstr(k_id()) + bstr(id@) + bstr(k_nodes()), bstr(encode_nodes(nodes)));
    lemma_at_split(s, q0, bstr(k_id()) + bstr(id@), bstr(k_nodes()));
    lemma_at_split(s, q0, bstr(k_id()), bstr(id@));
    let pos1 = q0;
    let pos2 = pos1 + (bstr(k_id())).len();
    let pos3 = pos2 + (bstr(id@)).len();
    let pos4 = pos3 + (bstr(k_nodes())).len();
    let pos5 = pos4 + (bstr(encode_nodes(nodes))).len();
    let pos6 = pos5 + (bstr(k_token())).len();
    let pos_end = pos6 + (bstr(token.0@)).len();
    lemma_bstr_at(s, pos2, id@, dd);
    lemma_dict_end_step(s, pos1, dd, None, k_id(), (bstr(id@)).len() as int);
    lemma_dict_fold_step(s, pos1, dd, None, k_id(), (bstr(id@)).len() as int, empty_resp(), f);
    let acc1 = f(k_id(), pos2, empty_resp())->0;
    lemma_bstr_at(s, pos4, encode_nodes(nodes), dd); lemma_nodes_read(nodes);
    lemma_dict_end_step(s, pos3, dd, Some(k_id()), k_nodes(), (bstr(encode_nodes(nodes))).len() as int);
    lemma_dict_fold_step(s, pos3, dd, Some(k_id()), k_nodes(), (bstr(encode_nodes(nodes))).len() as int, acc1, f);
    let acc2 = f(k_nodes(), pos4, acc1)->0;
    lemma_bstr_at(s, pos6, token.0@, dd);
    lemma_dict_end_step(s, pos5, dd, Some(k_nodes()), k_token(), (bstr(token.0@)).len() as int);
    lemma_dict_fold_step(s, pos5, dd, Some(k_nodes()), k_token(), (bstr(token.0@)).len() as int, acc2, f);
    let acc3 = f(k_token(), pos6, acc2)->0;
    lemma_dict_close(s, pos_end, dd, Some(k_token()), acc3, f);
}

/// A response dictionary: where it ends, and the response read from it.
pub proof fn lemma_resp_read(s: Seq<u8>, p: int, d: nat, r: Response)
    requires
        at(s, p, encode_response(r)),
        d >= 2,
    ensures
        value_end(s, p, d) == Some(p + encode_response(r).len()),
        resp_at(s, p, d) matches Some(acc) && resp_variant(acc) == Some(response_read(r)),
{
    match r {
        Response::Ping { id } => lemma_resp_read_ping(s, p, d, id),
        Response::AnnouncePeer { id } => lemma_resp_read_announce(s, p, d, id),
        Response::FindNode { id, nodes } => lemma_resp_read_find_node(s, p, d, id, nodes),
        Response::GetPeers { id, token, values_or_nodes: ValuesOrNodes::Values { values } } => lemma_resp_read_values(s, p, d, id, token, values),
        Response::GetPeers { id, token, values_or_nodes: ValuesOrNodes::Nodes { nodes } } => lemma_resp_read_nodes(s, p, d, id, token, nodes),
    }
}



/// What a message is read back as: its type letter as sent (`e` for any type but a query or
/// a response), its response as `response_read` says, everything else as it is.
pub open spec fn message_read(m: Message) -> MessageV {
    match m {
        Message::Query { transaction_id, msg_type, method_name, arguments } => MessageV::Query {
            tid: transaction_id.0@,
            y: type_letter(msg_type),
            method: method_name@,
            arguments: arguments_v(arguments),
        },
        Message::Response { transaction_id, msg_type, response } => MessageV::Response {
            tid: transaction_id.0@,
            y: type_letter(msg_type),
            response: response_read(response),
        },
        Message::Error { transaction_id, msg_type, error } => MessageV::Error {
            tid: transaction_id.0@,
            y: type_letter(msg_type),
            errors: errors_v(error@),
        },
    }
}

proof fn lemma_msg_field_a(s: Seq<u8>, d: nat, v: int, acc: MsgAcc)
    ensures
        msg_field(s, d, k_a(), v, acc) == (Some(MsgAcc {
            a: Some(
                match args_at(s, v, d) {
                    Some(x) => args_variant(x),
                    None => None,
                },
            ),
            ..acc
        })),
{
    reveal(msg_field);
}

proof fn lemma_msg_field_e(s: Seq<u8>, d: nat, v: int, acc: MsgAcc)
    ensures
        msg_field(s, d, k_e(), v, acc) == (Some(MsgAcc { e: Some(errors_at(s, v, d)), ..acc })),
{
    reveal(msg_field);
    assert(k_e() != seq![97u8]) by {
        assert(k_e()[0] != seq![97u8][0]);
    }
}

proof fn lemma_msg_field_q(s: Seq<u8>, d: nat, v: int, acc: MsgAcc)
    ensures
        msg_field(s, d, k_q(), v, acc) == (Some(MsgAcc { q: Some(text_at(s, v)), ..acc })),
{
    reveal(msg_field);
    assert(k_q() != seq![97u8] && k_q() != seq![101u8]) by {
        assert(k_q()[0] != seq![97u8][0] && k_q()[0] != seq![101u8][0]);
    }
}

proof fn lemma_msg_field_r(s: Seq<u8>, d: nat, v: int, acc: MsgAcc)
    ensures
        msg_field(s, d, k_r(), v, acc) == (Some(MsgAcc {
            r: Some(
                match resp_at(s, v, d) {
                    Some(x) => resp_variant(x),
                    None => None,
                },
            ),
            ..acc
        })),
{
    reveal(msg_field);
    assert(k_r() != seq![97u8] && k_r() != seq![101u8] && k_r() != seq![113u8]) by {
        assert(k_r()[0] != seq![97u8][0] && k_r()[0] != seq![101u8][0] && k_r()[0] != seq![113u8][0]);
    }
}

proof fn lemma_msg_field_t(s: Seq<u8>, d: nat, v: int, acc: MsgAcc)
    ensures
        msg_field(s, d, k_t(), v, acc) == (Some(MsgAcc { t: Some(bytes_at(s, v)), ..acc })),
{
    reveal(msg_field);
    assert(k_t() != seq![97u8] && k_t() != seq![101u8] && k_t() != seq![113u8] && k_t() != seq![114u8]) by {
        assert(k_t()[0] != seq![97u8][0] && k_t()[0] != seq![101u8][0] && k_t()[0] != seq![113u8][0]
            && k_t()[0] != seq![114u8][0]);
    }
}

proof fn lemma_msg_field_y(s: Seq<u8>, d: nat, v: int, acc: MsgAcc)
    ensures
        msg_field(s, d, k_y(), v, acc) == (Some(MsgAcc { y: Some(type_at(s, v)), ..acc })),
{
    reveal(msg_field);
    assert(k_y() != seq![97u8] && k_y() != seq![101u8] && k_y() != seq![113u8] && k_y() != seq![114u8]
        && k_y() != seq![116u8]) by {
        assert(k_y()[0] != seq![97u8][0] && k_y()[0] != seq![101u8][0] && k_y()[0] != seq![113u8][0]
            && k_y()[0] != seq![114u8][0] && k_y()[0] != seq![116u8][0]);
    }
}

/// Where the parts of a query's dictionary stand.
pub open spec fn query_parts(a_bytes: Seq<u8>, mb: Seq<u8>, tid: Seq<u8>, yl: u8) -> Seq<Seq<u8>> {
    seq![bstr(k_a()), a_bytes, bstr(k_q()), bstr(mb), bstr(k_t()), bstr(tid), bstr(k_y()), bstr(seq![yl])]
}

/// The position of part `k` of a dictionary whose parts start at 1.
pub open spec fn part_pos(parts: Seq<Seq<u8>>, k: int) -> int
    decreases k,
{
    if k <= 0 {
        1
    } else {
        part_pos(parts, k - 1) + parts[k - 1].len()
    }
}

#[verifier::spinoff_prover]
#[verifier::rlimit(60)]
proof fn lemma_query_layout(s: Seq<u8>, a_bytes: Seq<u8>, mb: Seq<u8>, tid: Seq<u8>, yl: u8)
    requires
        s == seq![100u8] + (bstr(k_a()) + a_bytes + bstr(k_q()) + bstr(mb) + bstr(k_t()) + bstr(tid) + bstr(k_y())
            + bstr(seq![yl])) + seq![101u8],
    ensures
        ({
            let parts = query_parts(a_bytes, mb, tid, yl);
            &&& s.len() > 0 && s[0] == 100
            &&& forall|k: int| 0 <= k < 8 ==> #[trigger] at(s, part_pos(parts, k), parts[k])
            &&& at(s, part_pos(parts, 8), seq![101u8])
        }),
{
    let parts = query_parts(a_bytes, mb, tid, yl);
    assert(at(s, 0, s)) by {
        assert(s.subrange(0, s.len() as int) =~= s);
    }
    let m = bstr(k_a()) + a_bytes + bstr(k_q()) + bstr(mb) + bstr(k_t()) + bstr(tid) + bstr(k_y()) + bstr(seq![yl]);
    lemma_at_split(s, 0, seq![100u8] + m, seq![101u8]);
    lemma_at_split(s, 0, seq![100u8], m);
    lemma_at_index(s, 0, seq![100u8], 0);
    lemma_at_split(s, 1, bstr(k_a()) + a_bytes + bstr(k_q()) + bstr(mb) + bstr(k_t()) + bstr(tid) + bstr(k_y()), bstr(seq![yl]));
    lemma_at_split(s, 1, bstr(k_a()) + a_bytes + bstr(k_q()) + bstr(mb) + bstr(k_t()) + bstr(tid), bstr(k_y()));
    lemma_at_split(s, 1, bstr(k_a()) + a_bytes + bstr(k_q()) + bstr(mb) + bstr(k_t()), bstr(tid));
    lemma_at_split(s, 1, bstr(k_a()) + a_bytes + bstr(k_q()) + bstr(mb), bstr(k_t()));
    lemma_at_split(s, 1, bstr(k_a()) + a_bytes + bstr(k_q()), bstr(mb));
    lemma_at_split(s, 1, bstr(k_a()) + a_bytes, bstr(k_q()));
    lemma_at_split(s, 1, bstr(k_a()), a_bytes);
    assert(part_pos(parts, 0) == 1);
    assert(part_pos(parts, 1) == 1 + bstr(k_a()).len());
    assert(part_pos(parts, 2) == part_pos(parts, 1) + a_bytes.len());
    assert(part_pos(parts, 3) == part_pos(parts, 2) + bstr(k_q()).len());
    assert(part_pos(parts, 4) == part_pos(parts, 3) + bstr(mb).len());
    assert(part_pos(parts, 5) == part_pos(parts, 4) + bstr(k_t()).len());
    assert(part_pos(parts, 6) == part_pos(parts, 5) + bstr(tid).len());
    assert(part_pos(parts, 7) == part_pos(parts, 6) + bstr(k_y()).len());
    assert(part_pos(parts, 8) == part_pos(parts, 7) + bstr(seq![yl]).len());
}

/// The walk over a query's dictionary, its arguments standing as any bytes that read as `av`.
#[verifier::spinoff_prover]
#[verifier::rlimit(60)]
proof fn lemma_query_walk(s: Seq<u8>, a_bytes: Seq<u8>, av: ArgumentsV, mb: Seq<u8>, tid: Seq<u8>, yl: u8)
    requires
        s.len() > 0 && s[0] == 100,
        forall|k: int| 0 <= k < 8 ==> #[trigger] at(s, part_pos(query_parts(a_bytes, mb, tid, yl), k), query_parts(a_bytes, mb, tid, yl)[k]),
        at(s, part_pos(query_parts(a_bytes, mb, tid, yl), 8), seq![101u8]),
        a_bytes.len() > 0,
        value_end(s, part_pos(query_parts(a_bytes, mb, tid, yl), 1), KRPC_DEPTH as nat) == Some(
            part_pos(query_parts(a_bytes, mb, tid, yl), 1) + a_bytes.len(),
        ),
        args_at(s, part_pos(query_parts(a_bytes, mb, tid, yl), 1), KRPC_DEPTH as nat) matches Some(x) && args_variant(x) == Some(av),
        valid_utf8(mb),
        yl == 113 || yl == 114 || yl == 101,
    ensures
        message_of(s) == Some((MessageV::Query { tid, y: yl, method: decode_utf8(mb), arguments: av })),
{
    lemma_keys();
    let parts = query_parts(a_bytes, mb, tid, yl);
    let dd = KRPC_DEPTH as nat;
    let f = msg_handler(s, dd);
    let pos1 = part_pos(parts, 0);
    let pos2 = part_pos(parts, 1);
    let pos3 = part_pos(parts, 2);
    let pos4 = part_pos(parts, 3);
    let pos5 = part_pos(parts, 4);
    let pos6 = part_pos(parts, 5);
    let pos7 = part_pos(parts, 6);
    let pos8 = part_pos(parts, 7);
    let pos_end = part_pos(parts, 8);
    assert(at(s, pos1, parts[0]) && at(s, pos2, parts[1]) && at(s, pos3, parts[2]) && at(s, pos4, parts[3]));
    assert(at(s, pos5, parts[4]) && at(s, pos6, parts[5]) && at(s, pos7, parts[6]) && at(s, pos8, parts[7]));
    assert(pos2 == pos1 + bstr(k_a()).len() && pos3 == pos2 + a_bytes.len() && pos4 == pos3 + bstr(k_q()).len());
    assert(pos5 == pos4 + bstr(mb).len() && pos6 == pos5 + bstr(k_t()).len() && pos7 == pos6 + bstr(tid).len());
    assert(pos8 == pos7 + bstr(k_y()).len() && pos_end == pos8 + bstr(seq![yl]).len());
    lemma_msg_field_a(s, dd, pos2, empty_msg());
    lemma_dict_fold_step(s, pos1, dd, None, k_a(), a_bytes.len() as int, empty_msg(), f);
    let acc1 = f(k_a(), pos2, empty_msg())->0;
    lemma_bstr_at(s, pos4, mb, dd);
    lemma_msg_field_q(s, dd, pos4, acc1);
    lemma_dict_fold_step(s, pos3, dd, Some(k_a()), k_q(), bstr(mb).len() as int, acc1, f);
    let acc2 = f(k_q(), pos4, acc1)->0;
    lemma_bstr_at(s, pos6, tid, dd);
    lemma_msg_field_t(s, dd, pos6, acc2);
    lemma_dict_fold_step(s, pos5, dd, Some(k_q()), k_t(), bstr(tid).len() as int, acc2, f);
    let acc3 = f(k_t(), pos6, acc2)->0;
    lemma_bstr_at(s, pos8, seq![yl], dd);
    lemma_msg_field_y(s, dd, pos8, acc3);
    lemma_dict_fold_step(s, pos7, dd, Some(k_t()), k_y(), bstr(seq![yl]).len() as int, acc3, f);
    let acc4 = f(k_y(), pos8, acc3)->0;
    lemma_dict_close(s, pos_end, dd, Some(k_y()), acc4, f);
}

proof fn lemma_message_read_query(transaction_id: NoSizeBytes, msg_type: MessageType, method_name: String, arguments: Arguments)
    ensures
        message_of(encode_message((Message::Query { transaction_id, msg_type, method_name, arguments }))) == Some(
            message_read((Message::Query { transaction_id, msg_type, method_name, arguments })),
        ),
{
    broadcast use vstd::utf8::encode_utf8_valid_utf8, vstd::utf8::encode_utf8_decode_utf8;
    let s = encode_message((Message::Query { transaction_id, msg_type, method_name, arguments }));
    let a_bytes = encode_arguments(arguments);
    let mb = encode_utf8(method_name@);
    let tid = transaction_id.0@;
    let yl = type_letter(msg_type);
    assert(s == seq![100u8] + (bstr(k_a()) + a_bytes + bstr(k_q()) + bstr(mb) + bstr(k_t()) + bstr(tid) + bstr(k_y())
        + bstr(seq![yl])) + seq![101u8]);
    lemma_query_layout(s, a_bytes, mb, tid, yl);
    let parts = query_parts(a_bytes, mb, tid, yl);
    assert(at(s, part_pos(parts, 1), parts[1]));
    lemma_args_read(s, part_pos(parts, 1), KRPC_DEPTH as nat, arguments);
    assert(a_bytes.len() > 0) by {
        lemma_at_index(s, part_pos(parts, 1), a_bytes, 0);
    }
    lemma_query_walk(s, a_bytes, arguments_v(arguments), mb, tid, yl);
}

#[verifier::spinoff_prover]
#[verifier::rlimit(100)]
proof fn lemma_message_read_response(transaction_id: NoSizeBytes, msg_type: MessageType, response: Response)
    ensures
        message_of(encode_message((Message::Response { transaction_id, msg_type, response }))) == Some(message_read((Message::Response { transaction_id, msg_type, response }))),
{
    broadcast use vstd::utf8::encode_utf8_valid_utf8, vstd::utf8::encode_utf8_decode_utf8;
    lemma_keys();
    let s = encode_message((Message::Response { transaction_id, msg_type, response }));
    let p = 0int;
    assert(at(s, 0, s)) by {
        assert(s.subrange(0, s.len() as int) =~= s);
    }
    let dd = KRPC_DEPTH as nat;
    let f = msg_handler(s, dd);
    let enc = s;
    let m = bstr(k_r()) + encode_response(response) + bstr(k_t()) + bstr(transaction_id.0@) + bstr(k_y()) + bstr(seq![type_letter(msg_type)]);
    assert(enc == (seq![100u8] + m) + seq![101u8]);
    lemma_at_split(s, p, seq![100u8] + m, seq![101u8]);
    lemma_at_split(s, p, seq![100u8], m);
    lemma_at_index(s, p, seq![100u8], 0);
    let q0 = p + 1;
    lemma_at_split(s, q0, bstr(k_r()) + encode_response(response) + bstr(k_t()) + bstr(transaction_id.0@) + bstr(k_y()), bstr(seq![type_letter(msg_type)]));
    lemma_at_split(s, q0, bstr(k_r()) + encode_response(response) + bstr(k_t()) + bstr(transaction_id.0@), bstr(k_y()));
    lemma_at_split(s, q0, bstr(k_r()) + encode_response(response) + bstr(k_t()), bstr(transaction_id.0@));
    lemma_at_split(s, q0, bstr(k_r()) + encode_response(response), bstr(k_t()));
    lemma_at_split(s, q0, bstr(k_r()), encode_response(response));
    let pos1 = q0;
    let pos2 = pos1 + (bstr(k_r())).len();
    let pos3 = pos2 + (encode_response(response)).len();
    let pos4 = pos3 + (bstr(k_t())).len();
    let pos5 = pos4 + (bstr(transaction_id.0@)).len();
    let pos6 = pos5 + (bstr(k_y())).len();
    let pos_end = pos6 + (bstr(seq![type_letter(msg_type)])).len();
    lemma_resp_read(s, pos2, dd, response); lemma_msg_field_r(s, dd, pos2, empty_msg());
    lemma_dict_end_step(s, pos1, dd, None, k_r(), (encode_response(response)).len() as int);
    lemma_dict_fold_step(s, pos1, dd, None, k_r(), (encode_response(response)).len() as int, empty_msg(), f);
    let acc1 = f(k_r(), pos2, empty_msg())->0;
    lemma_bstr_at(s, pos4, transaction_id.0@, dd); lemma_msg_field_t(s, dd, pos4, acc1);
    lemma_dict_end_step(s, pos3, dd, Some(k_r()), k_t(), (bstr(transaction_id.0@)).len() as int);
    lemma_dict_fold_step(s, pos3, dd, Some(k_r()), k_t(), (bstr(transaction_id.0@)).len() as int, acc1, f);
    let acc2 = f(k_t(), pos4, acc1)->0;
    lemma_bstr_at(s, pos6, seq![type_letter(msg_type)], dd); lemma_msg_field_y(s, dd, pos6, acc2);
    lemma_dict_end_step(s, pos5, dd, Some(k_t()), k_y(), (bstr(seq![type_letter(msg_type)])).len() as int);
    lemma_dict_fold_step(s, pos5, dd, Some(k_t()), k_y(), (bstr(seq![type_letter(msg_type)])).len() as int, acc2, f);
    let acc3 = f(k_y(), pos6, acc2)->0;
    lemma_dict_close(s, pos_end, dd, Some(k_y()), acc3, f);
}

#[verifier::spinoff_prover]
#[verifier::rlimit(100)]
proof fn lemma_message_read_error(transaction_id: NoSizeBytes, msg_type: MessageType, error: Vec<Error>)
    ensures
        message_of(encode_message((Message::Error { transaction_id, msg_type, error }))) == Some(message_read((Message::Error { transaction_id, msg_type, error }))),
{
    broadcast use vstd::utf8::encode_utf8_valid_utf8, vstd::utf8::encode_utf8_decode_utf8;
    lemma_keys();
    let s = encode_message((Message::Error { transaction_id, msg_type, error }));
    let p = 0int;
    assert(at(s, 0, s)) by {
        assert(s.subrange(0, s.len() as int) =~= s);
    }
    let dd = KRPC_DEPTH as nat;
    let f = msg_handler(s, dd);
    let enc = s;
    let m = bstr(k_e()) + seq![108u8] + encode_errors(error@) + seq![101u8] + bstr(k_t()) + bstr(transaction_id.0@) + bstr(k_y()) + bstr(seq![type_letter(msg_type)]);
    assert(enc == (seq![100u8] + m) + seq![101u8]);
    lemma_at_split(s, p, seq![100u8] + m, seq![101u8]);
    lemma_at_split(s, p, seq![100u8], m);
    lemma_at_index(s, p, seq![100u8], 0);
    let q0 = p + 1;
    lemma_at_split(s, q0, bstr(k_e()) + seq![108u8] + encode_errors(error@) + seq![101u8] + bstr(k_t()) + bstr(transaction_id.0@) + bstr(k_y()), bstr(seq![type_letter(msg_type)]));
    lemma_at_split(s, q0, bstr(k_e()) + seq![108u8] + encode_errors(error@) + seq![101u8] + bstr(k_t()) + bstr(transaction_id.0@), bstr(k_y()));
    lemma_at_split(s, q0, bstr(k_e()) + seq![108u8] + encode_errors(error@) + seq![101u8] + bstr(k_t()), bstr(transaction_id.0@));
    lemma_at_split(s, q0, bstr(k_e()) + seq![108u8] + encode_errors(error@) + seq![101u8], bstr(k_t()));
    assert(bstr(k_e()) + seq![108u8] + encode_errors(error@) + seq![101u8] =~= (bstr(k_e())) + (seq![108u8] + encode_errors(error@) + seq![101u8]));
    lemma_at_split(s, q0, bstr(k_e()), seq![108u8] + encode_errors(error@) + seq![101u8]);
    let pos1 = q0;
    let pos2 = pos1 + (bstr(k_e())).len();
    let pos3 = pos2 + (seq![108u8] + encode_errors(error@) + seq![101u8]).len();
    let pos4 = pos3 + (bstr(k_t())).len();
    let pos5 = pos4 + (bstr(transaction_id.0@)).len();
    let pos6 = pos5 + (bstr(k_y())).len();
    let pos_end = pos6 + (bstr(seq![type_letter(msg_type)])).len();
    lemma_errors_read(s, pos2, dd, error@); lemma_msg_field_e(s, dd, pos2, empty_msg());
    lemma_dict_end_step(s, pos1, dd, None, k_e(), (seq![108u8] + encode_errors(error@) + seq![101u8]).len() as int);
    lemma_dict_fold_step(s, pos1, dd, None, k_e(), (seq![108u8] + encode_errors(error@) + seq![101u8]).len() as int, empty_msg(), f);
    let acc1 = f(k_e(), pos2, empty_msg())->0;
    lemma_bstr_at(s, pos4, transaction_id.0@, dd); lemma_msg_field_t(s, dd, pos4, acc1);
    lemma_dict_end_step(s, pos3, dd, Some(k_e()), k_t(), (bstr(transaction_id.0@)).len() as int);
    lemma_dict_fold_step(s, pos3, dd, Some(k_e()), k_t(), (bstr(transaction_id.0@)).len() as int, acc1, f);
    let acc2 = f(k_t(), pos4, acc1)->0;
    lemma_bstr_at(s, pos6, seq![type_letter(msg_type)], dd); lemma_msg_field_y(s, dd, pos6, acc2);
    lemma_dict_end_step(s, pos5, dd, Some(k_t()), k_y(), (bstr(seq![type_letter(msg_type)])).len() as int);
    lemma_dict_fold_step(s, pos5, dd, Some(k_t()), k_y(), (bstr(seq![type_letter(msg_type)])).len() as int, acc2, f);
    let acc3 = f(k_y(), pos6, acc2)->0;
    lemma_dict_close(s, pos_end, dd, Some(k_y()), acc3, f);
}

/// Decoding the bytes a message is encoded as gives the message back, but for what its bytes
/// do not carry (see `message_read`).
pub proof fn lemma_decode_encode_message(m: Message)
    ensures
        message_of(encode_message(m)) == Some(message_read(m)),
{
    match m {
        Message::Query { transaction_id, msg_type, method_name, arguments } => lemma_message_read_query(transaction_id, msg_type, method_name, arguments),
        Message::Response { transaction_id, msg_type, response } => lemma_message_read_response(transaction_id, msg_type, response),
        Message::Error { transaction_id, msg_type, error } => lemma_message_read_error(transaction_id, msg_type, error),
    }
}


} // verus!
