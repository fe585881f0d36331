use vstd::prelude::*;
use vstd::string::StrSliceExecFns;
use crate::types::{Address, Message, NetworkData, PeerInfo, WireModel, DecodeError};
use crate::digits::{spec_dec, spec_parse_num, is_digit, lemma_digit_run_end, push_dec_u64,
    parse_num_u64};
use crate::escape::{spec_escape, spec_parse_content, push_escaped, parse_content};
use crate::utils::{str_chars, chars_string};

verus! {

// ---------------------------------------------------------------------------
// The fixed parts of the wire format. One envelope occupies one line:
//   {"type":"Message","data":{"content":<string>,"from":"<ip:port>","timestamp":<u64>}}
//   {"type":"PeerInfo","data":{"port":<u16>,"known_peers":["<ip:port>",...]}}
// ---------------------------------------------------------------------------

pub open spec fn lit_msg_head() -> Seq<char> {
    "{\"type\":\"Message\",\"data\":{\"content\":\""@
}

pub open spec fn lit_msg_from() -> Seq<char> {
    ",\"from\":\""@
}

pub open spec fn lit_msg_ts() -> Seq<char> {
    "\",\"timestamp\":"@
}

pub open spec fn lit_obj_end() -> Seq<char> {
    "}}"@
}

pub open spec fn lit_pi_head() -> Seq<char> {
    "{\"type\":\"PeerInfo\",\"data\":{\"port\":"@
}

pub open spec fn lit_pi_peers() -> Seq<char> {
    ",\"known_peers\":["@
}

pub open spec fn lit_pi_end() -> Seq<char> {
    "]}}"@
}

/// The wire rendering of an address: dotted octets, a colon, the port.
pub open spec fn spec_addr(a: Address) -> Seq<char> {
    spec_dec(a.o0 as nat) + seq!['.'] + spec_dec(a.o1 as nat) + seq!['.'] + spec_dec(a.o2 as nat)
        + seq!['.'] + spec_dec(a.o3 as nat) + seq![':'] + spec_dec(a.port as nat)
}

/// The elements of a peer list after the first: each preceded by a comma.
pub open spec fn spec_peers_rest(ps: Seq<Address>) -> Seq<char>
    decreases ps.len(),
{
    if ps.len() == 0 {
        Seq::empty()
    } else {
        seq![','] + (seq!['"'] + spec_addr(ps[0]) + seq!['"']) + spec_peers_rest(
            ps.subrange(1, ps.len() as int),
        )
    }
}

/// The body of a peer list: quoted addresses joined by commas.
pub open spec fn spec_peers(ps: Seq<Address>) -> Seq<char> {
    if ps.len() == 0 {
        Seq::empty()
    } else {
        (seq!['"'] + spec_addr(ps[0]) + seq!['"']) + spec_peers_rest(ps.subrange(1, ps.len() as int))
    }
}

/// The one line an envelope occupies on the wire, without its newline.
pub open spec fn spec_encode(m: WireModel) -> Seq<char> {
    match m {
        WireModel::Message { content, from, timestamp } => lit_msg_head() + (spec_escape(content)
            + seq!['"']) + lit_msg_from() + spec_addr(from) + lit_msg_ts() + spec_dec(
            timestamp as nat,
        ) + lit_obj_end(),
        WireModel::PeerInfo { port, known_peers } => lit_pi_head() + spec_dec(port as nat)
            + lit_pi_peers() + spec_peers(known_peers) + lit_pi_end(),
    }
}

/// Whether the characters `x` stand in `s` at position `i`.
pub open spec fn lit_at(s: Seq<char>, i: int, x: Seq<char>) -> bool {
    &&& 0 <= i
    &&& i + x.len() <= s.len()
    &&& s.subrange(i, i + x.len() as int) == x
}

// ---------------------------------------------------------------------------
// The grammar, as a deterministic specification-level parser. `spec_decode`
// is the reference meaning of a line: decoding succeeds exactly on the lines
// it accepts, with the envelope it yields.
// ---------------------------------------------------------------------------

/// Parse an address: four octets and a port, each a canonical decimal.
pub open spec fn spec_parse_addr(s: Seq<char>, i: int) -> Option<(Address, int)>
    recommends
        0 <= i <= s.len(),
{
    match spec_parse_num(s, i, 255) {
        None => None,
        Some((o0, i1)) => if i1 < s.len() && s[i1] == '.' {
            match spec_parse_num(s, i1 + 1, 255) {
                None => None,
                Some((o1, i2)) => if i2 < s.len() && s[i2] == '.' {
                    match spec_parse_num(s, i2 + 1, 255) {
                        None => None,
                        Some((o2, i3)) => if i3 < s.len() && s[i3] == '.' {
                            match spec_parse_num(s, i3 + 1, 255) {
                                None => None,
                                Some((o3, i4)) => if i4 < s.len() && s[i4] == ':' {
                                    match spec_parse_num(s, i4 + 1, 65535) {
                                        None => None,
                                        Some((port, i5)) => Some(
                                            (
                                                Address {
                                                    o0: o0 as u8,
                                                    o1: o1 as u8,
                                                    o2: o2 as u8,
                                                    o3: o3 as u8,
                                                    port: port as u16,
                                                },
                                                i5,
                                            ),
                                        ),
                                    }
                                } else {
                                    None
                                },
                            }
                        } else {
                            None
                        },
                    }
                } else {
                    None
                },
            }
        } else {
            None
        },
    }
}

pub proof fn lemma_parse_num_bounds(s: Seq<char>, i: int, max: nat)
    requires
        0 <= i <= s.len(),
        spec_parse_num(s, i, max) is Some,
    ensures
        i < spec_parse_num(s, i, max)->Some_0.1 <= s.len(),
{
    lemma_digit_run_end(s, i);
}

pub proof fn lemma_parse_addr_bounds(s: Seq<char>, i: int)
    requires
        0 <= i <= s.len(),
        spec_parse_addr(s, i) is Some,
    ensures
        i < spec_parse_addr(s, i)->Some_0.1 <= s.len(),
{
    let (o0, i1) = spec_parse_num(s, i, 255)->Some_0;
    lemma_parse_num_bounds(s, i, 255);
    let (o1, i2) = spec_parse_num(s, i1 + 1, 255)->Some_0;
    lemma_parse_num_bounds(s, i1 + 1, 255);
    let (o2, i3) = spec_parse_num(s, i2 + 1, 255)->Some_0;
    lemma_parse_num_bounds(s, i2 + 1, 255);
    let (o3, i4) = spec_parse_num(s, i3 + 1, 255)->Some_0;
    lemma_parse_num_bounds(s, i3 + 1, 255);
    let (port, i5) = spec_parse_num(s, i4 + 1, 65535)->Some_0;
    lemma_parse_num_bounds(s, i4 + 1, 65535);
}

/// Parse the peer-list elements after the first: a comma then a quoted
/// address, repeatedly, stopping (without consuming it) at the closing
/// bracket.
pub open spec fn spec_parse_peers_rest(s: Seq<char>, i: int) -> Option<(Seq<Address>, int)>
    decreases s.len() - i when 0 <= i <= s.len()
    via spec_parse_peers_rest_dec
{
    if i < s.len() && s[i] == ']' {
        Some((Seq::empty(), i))
    } else if i < s.len() && s[i] == ',' && i + 2 <= s.len() && s[i + 1] == '"' {
        match spec_parse_addr(s, i + 2) {
            None => None,
            Some((a, j)) => if j < s.len() && s[j] == '"' {
                match spec_parse_peers_rest(s, j + 1) {
                    None => None,
                    Some((ps, k)) => Some((seq![a] + ps, k)),
                }
            } else {
                None
            },
        }
    } else {
        None
    }
}

#[via_fn]
proof fn spec_parse_peers_rest_dec(s: Seq<char>, i: int) {
    if !(i < s.len() && s[i] == ']') && i < s.len() && s[i] == ',' && i + 2 <= s.len() && s[i + 1]
        == '"' {
        if spec_parse_addr(s, i + 2) is Some {
            lemma_parse_addr_bounds(s, i + 2);
        }
    }
}

/// Parse a peer list body, stopping (without consuming it) at the closing
/// bracket.
pub open spec fn spec_parse_peers(s: Seq<char>, i: int) -> Option<(Seq<Address>, int)>
    recommends
        0 <= i <= s.len(),
{
    if i < s.len() && s[i] == ']' {
        Some((Seq::empty(), i))
    } else if i < s.len() && s[i] == '"' {
        match spec_parse_addr(s, i + 1) {
            None => None,
            Some((a, j)) => if j < s.len() && s[j] == '"' {
                match spec_parse_peers_rest(s, j + 1) {
                    None => None,
                    Some((ps, k)) => Some((seq![a] + ps, k)),
                }
            } else {
                None
            },
        }
    } else {
        None
    }
}

/// The meaning of one line: the envelope it denotes, or nothing if it is not
/// a well-formed envelope of either variant. Decoding and encoding are exact
/// inverses over this definition.
pub open spec fn spec_decode(s: Seq<char>) -> Option<WireModel> {
    if lit_at(s, 0, lit_msg_head()) {
        let i0 = lit_msg_head().len() as int;
        match spec_parse_content(s, i0) {
            None => None,
            Some((content, i1)) => if lit_at(s, i1, lit_msg_from()) {
                let i2 = i1 + lit_msg_from().len();
                match spec_parse_addr(s, i2) {
                    None => None,
                    Some((from, i3)) => if lit_at(s, i3, lit_msg_ts()) {
                        let i4 = i3 + lit_msg_ts().len();
                        match spec_parse_num(s, i4, u64::MAX as nat) {
                            None => None,
                            Some((ts, i5)) => if lit_at(s, i5, lit_obj_end()) && i5
                                + lit_obj_end().len() == s.len() {
                                Some(
                                    WireModel::Message {
                                        content,
                                        from,
                                        timestamp: ts as u64,
                                    },
                                )
                            } else {
                                None
                            },
                        }
                    } else {
                        None
                    },
                }
            } else {
                None
            },
        }
    } else if lit_at(s, 0, lit_pi_head()) {
        let i0 = lit_pi_head().len() as int;
        match spec_parse_num(s, i0, 65535) {
            None => None,
            Some((port, i1)) => if lit_at(s, i1, lit_pi_peers()) {
                let i2 = i1 + lit_pi_peers().len();
                match spec_parse_peers(s, i2) {
                    None => None,
                    Some((peers, i3)) => if lit_at(s, i3, lit_pi_end()) && i3 + lit_pi_end().len()
                        == s.len() {
                        Some(WireModel::PeerInfo { port: port as u16, known_peers: peers })
                    } else {
                        None
                    },
                }
            } else {
                None
            },
        }
    } else {
        None
    }
}

// ---------------------------------------------------------------------------
// Round trip: the parser accepts exactly what the encoder produced.
// ---------------------------------------------------------------------------

pub proof fn lemma_at_split(s: Seq<char>, i: int, x: Seq<char>, y: Seq<char>)
    requires
        lit_at(s, i, x + y),
    ensures
        lit_at(s, i, x),
        lit_at(s, i + x.len(), y),
{
    assert(s.subrange(i, i + x.len() as int) =~= x) by {
        assert forall|k: int| 0 <= k < x.len() implies s.subrange(i, i + x.len() as int)[k]
            == x[k] by {
            assert(s.subrange(i, i + (x + y).len() as int)[k] == s[i + k]);
            assert(s.subrange(i, i + x.len() as int)[k] == s[i + k]);
        }
    }
    assert(s.subrange(i + x.len(), i + x.len() + y.len() as int) =~= y) by {
        assert forall|k: int| 0 <= k < y.len() implies s.subrange(
            i + x.len() as int,
            i + x.len() + y.len(),
        )[k] == y[k] by {
            assert(s.subrange(i, i + (x + y).len() as int)[x.len() + k] == s[i + x.len() + k]);
            assert(s.subrange(i + x.len() as int, i + x.len() + y.len())[k] == s[i + x.len() + k]);
        }
    }
}

pub proof fn lemma_at_char(s: Seq<char>, i: int, x: Seq<char>, k: int)
    requires
        lit_at(s, i, x),
        0 <= k < x.len(),
    ensures
        s[i + k] == x[k],
{
    assert(s.subrange(i, i + x.len() as int)[k] == s[i + k]);
}

/// Completeness for addresses: where the rendering of `a` stands at `i`,
/// terminated by a non-digit or the end, parsing yields exactly `a`.
pub proof fn lemma_parse_addr_complete(s: Seq<char>, i: int, a: Address)
    requires
        lit_at(s, i, spec_addr(a)),
        i + spec_addr(a).len() == s.len() || !is_digit(s[i + spec_addr(a).len()]),
    ensures
        spec_parse_addr(s, i) == Some((a, i + spec_addr(a).len())),
{
    let d0 = spec_dec(a.o0 as nat);
    let d1 = spec_dec(a.o1 as nat);
    let d2 = spec_dec(a.o2 as nat);
    let d3 = spec_dec(a.o3 as nat);
    let dp = spec_dec(a.port as nat);
    let dot = seq!['.'];
    let col = seq![':'];
    lemma_at_split(s, i, d0 + dot + d1 + dot + d2 + dot + d3 + col, dp);
    lemma_at_split(s, i, d0 + dot + d1 + dot + d2 + dot + d3, col);
    lemma_at_split(s, i, d0 + dot + d1 + dot + d2 + dot, d3);
    lemma_at_split(s, i, d0 + dot + d1 + dot + d2, dot);
    lemma_at_split(s, i, d0 + dot + d1 + dot, d2);
    lemma_at_split(s, i, d0 + dot + d1, dot);
    lemma_at_split(s, i, d0 + dot, d1);
    lemma_at_split(s, i, d0, dot);
    let q0 = i + d0.len();
    let p1 = q0 + 1;
    let q1 = p1 + d1.len();
    let p2 = q1 + 1;
    let q2 = p2 + d2.len();
    let p3 = q2 + 1;
    let q3 = p3 + d3.len();
    let p4 = q3 + 1;
    let e = p4 + dp.len();
    lemma_at_char(s, q0, dot, 0);
    lemma_at_char(s, q1, dot, 0);
    lemma_at_char(s, q2, dot, 0);
    lemma_at_char(s, q3, col, 0);
    assert(s[q0] == '.' && s[q1] == '.' && s[q2] == '.' && s[q3] == ':');
    assert(!is_digit('.') && !is_digit(':'));
    crate::digits::lemma_parse_num_complete(s, i, a.o0 as nat, 255);
    crate::digits::lemma_parse_num_complete(s, p1, a.o1 as nat, 255);
    crate::digits::lemma_parse_num_complete(s, p2, a.o2 as nat, 255);
    crate::digits::lemma_parse_num_complete(s, p3, a.o3 as nat, 255);
    crate::digits::lemma_parse_num_complete(s, p4, a.port as nat, 65535);
    assert(e == i + spec_addr(a).len());
    assert(spec_parse_addr(s, i) == Some((a, e)));
}

/// Completeness for the tail of a peer list.
pub proof fn lemma_parse_peers_rest_complete(s: Seq<char>, i: int, ps: Seq<Address>)
    requires
        lit_at(s, i, spec_peers_rest(ps)),
        i + spec_peers_rest(ps).len() < s.len(),
        s[i + spec_peers_rest(ps).len()] == ']',
    ensures
        spec_parse_peers_rest(s, i) == Some((ps, i + spec_peers_rest(ps).len())),
    decreases ps.len(),
{
    if ps.len() == 0 {
        assert(spec_peers_rest(ps).len() == 0);
    } else {
        let a = ps[0];
        let tail = ps.subrange(1, ps.len() as int);
        let quoted = seq!['"'] + spec_addr(a) + seq!['"'];
        lemma_at_split(s, i, seq![','] + quoted, spec_peers_rest(tail));
        lemma_at_split(s, i, seq![','], quoted);
        lemma_at_split(s, i + 1, seq!['"'] + spec_addr(a), seq!['"']);
        lemma_at_split(s, i + 1, seq!['"'], spec_addr(a));
        lemma_at_char(s, i, seq![','], 0);
        lemma_at_char(s, i + 1, seq!['"'], 0);
        assert(s[i] == ',' && s[i + 1] == '"');
        let j = i + 2 + spec_addr(a).len();
        lemma_at_char(s, i + 1 + (seq!['"'] + spec_addr(a)).len(), seq!['"'], 0);
        assert(s[j] == '"');
        assert(!is_digit('"'));
        lemma_parse_addr_complete(s, i + 2, a);
        assert(i + spec_peers_rest(ps).len() == j + 1 + spec_peers_rest(tail).len());
        lemma_parse_peers_rest_complete(s, j + 1, tail);
        assert(seq![a] + tail =~= ps);
    }
}

/// Completeness for a whole peer list.
pub proof fn lemma_parse_peers_complete(s: Seq<char>, i: int, ps: Seq<Address>)
    requires
        lit_at(s, i, spec_peers(ps)),
        i + spec_peers(ps).len() < s.len(),
        s[i + spec_peers(ps).len()] == ']',
    ensures
        spec_parse_peers(s, i) == Some((ps, i + spec_peers(ps).len())),
{
    if ps.len() == 0 {
        assert(spec_peers(ps).len() == 0);
        assert(ps =~= Seq::<Address>::empty());
    } else {
        let a = ps[0];
        let tail = ps.subrange(1, ps.len() as int);
        let quoted = seq!['"'] + spec_addr(a) + seq!['"'];
        lemma_at_split(s, i, quoted, spec_peers_rest(tail));
        lemma_at_split(s, i, seq!['"'] + spec_addr(a), seq!['"']);
        lemma_at_split(s, i, seq!['"'], spec_addr(a));
        lemma_at_char(s, i, seq!['"'], 0);
        assert(s[i] == '"');
        let j = i + 1 + spec_addr(a).len();
        lemma_at_char(s, i + (seq!['"'] + spec_addr(a)).len(), seq!['"'], 0);
        assert(s[j] == '"');
        assert(!is_digit('"'));
        lemma_parse_addr_complete(s, i + 1, a);
        assert(i + spec_peers(ps).len() == j + 1 + spec_peers_rest(tail).len());
        lemma_parse_peers_rest_complete(s, j + 1, tail);
        assert(seq![a] + tail =~= ps);
    }
}

/// The round trip: every envelope decodes from its own encoding. Together
/// with `lemma_decode_sound` this makes encoding and decoding exact
/// inverses.
pub proof fn lemma_encode_decode(m: WireModel)
    ensures
        spec_decode(spec_encode(m)) == Some(m),
{
    reveal_strlit("{\"type\":\"Message\",\"data\":{\"content\":\"");
    reveal_strlit(",\"from\":\"");
    reveal_strlit("\",\"timestamp\":");
    reveal_strlit("}}");
    reveal_strlit("{\"type\":\"PeerInfo\",\"data\":{\"port\":");
    reveal_strlit(",\"known_peers\":[");
    reveal_strlit("]}}");
    let s = spec_encode(m);
    assert(s.subrange(0, s.len() as int) =~= s);
    assert(lit_at(s, 0, spec_encode(m)));
    match m {
        WireModel::Message { content, from, timestamp } => {
            let e1 = spec_escape(content) + seq!['"'];
            let ad = spec_addr(from);
            let dt = spec_dec(timestamp as nat);
            lemma_at_split(
                s,
                0,
                lit_msg_head() + e1 + lit_msg_from() + ad + lit_msg_ts() + dt,
                lit_obj_end(),
            );
            lemma_at_split(s, 0, lit_msg_head() + e1 + lit_msg_from() + ad + lit_msg_ts(), dt);
            lemma_at_split(s, 0, lit_msg_head() + e1 + lit_msg_from() + ad, lit_msg_ts());
            lemma_at_split(s, 0, lit_msg_head() + e1 + lit_msg_from(), ad);
            lemma_at_split(s, 0, lit_msg_head() + e1, lit_msg_from());
            lemma_at_split(s, 0, lit_msg_head(), e1);
            let i0 = lit_msg_head().len() as int;
            let i1 = i0 + e1.len();
            let i2 = i1 + lit_msg_from().len();
            let i3 = i2 + ad.len();
            let i4 = i3 + lit_msg_ts().len();
            let i5 = i4 + dt.len();
            crate::escape::lemma_parse_content_complete(s, i0, content);
            assert(spec_parse_content(s, i0) == Some((content, i1)));
            lemma_at_char(s, i3, lit_msg_ts(), 0);
            assert(s[i3] == '"');
            assert(!is_digit('"'));
            lemma_parse_addr_complete(s, i2, from);
            lemma_at_char(s, i5, lit_obj_end(), 0);
            assert(s[i5] == '}');
            assert(!is_digit('}'));
            crate::digits::lemma_parse_num_complete(s, i4, timestamp as nat, u64::MAX as nat);
            assert(i5 + lit_obj_end().len() == s.len());
            assert(spec_decode(s) == Some(m));
        },
        WireModel::PeerInfo { port, known_peers } => {
            let dp = spec_dec(port as nat);
            let pe = spec_peers(known_peers);
            lemma_at_split(s, 0, lit_pi_head() + dp + lit_pi_peers() + pe, lit_pi_end());
            lemma_at_split(s, 0, lit_pi_head() + dp + lit_pi_peers(), pe);
            lemma_at_split(s, 0, lit_pi_head() + dp, lit_pi_peers());
            lemma_at_split(s, 0, lit_pi_head(), dp);
            let i0 = lit_pi_head().len() as int;
            let i1 = i0 + dp.len();
            let i2 = i1 + lit_pi_peers().len();
            let i3 = i2 + pe.len();
            if lit_at(s, 0, lit_msg_head()) {
                lemma_at_char(s, 0, lit_msg_head(), 9);
                lemma_at_char(s, 0, lit_pi_head(), 9);
                assert(lit_msg_head()[9] == 'M');
                assert(lit_pi_head()[9] == 'P');
                assert(false);
            }
            lemma_at_char(s, i1, lit_pi_peers(), 0);
            assert(s[i1] == ',');
            assert(!is_digit(','));
            crate::digits::lemma_parse_num_complete(s, i0, port as nat, 65535);
            lemma_at_char(s, i3, lit_pi_end(), 0);
            assert(s[i3] == ']');
            lemma_parse_peers_complete(s, i2, known_peers);
            assert(i3 + lit_pi_end().len() == s.len());
            assert(spec_decode(s) == Some(m));
        },
    }
}

/// Encoding is injective: distinct envelopes never share a wire line.
pub proof fn lemma_encode_injective(m1: WireModel, m2: WireModel)
    requires
        spec_encode(m1) == spec_encode(m2),
    ensures
        m1 == m2,
{
    lemma_encode_decode(m1);
    lemma_encode_decode(m2);
}

// ---------------------------------------------------------------------------
// Soundness: the parser accepts nothing but what the encoder produces.
// Together with the round trip above, encoding and decoding are exact
// inverses: a line decodes to an envelope exactly when it is that
// envelope's encoding.
// ---------------------------------------------------------------------------

proof fn lemma_at_single(s: Seq<char>, p: int, c: char)
    requires
        0 <= p < s.len(),
        s[p] == c,
    ensures
        lit_at(s, p, seq![c]),
{
    assert(s.subrange(p, p + 1) =~= seq![c]);
}

pub proof fn lemma_at_join(s: Seq<char>, i: int, x: Seq<char>, y: Seq<char>)
    requires
        lit_at(s, i, x),
        lit_at(s, i + x.len(), y),
    ensures
        lit_at(s, i, x + y),
{
    assert(s.subrange(i, i + (x + y).len() as int) =~= x + y) by {
        assert forall|k: int| 0 <= k < (x + y).len() implies s.subrange(
            i,
            i + (x + y).len() as int,
        )[k] == (x + y)[k] by {
            assert(s.subrange(i, i + (x + y).len() as int)[k] == s[i + k]);
            if k < x.len() {
                assert(s.subrange(i, i + x.len() as int)[k] == s[i + k]);
            } else {
                assert(s.subrange(i + x.len() as int, i + x.len() + y.len())[k - x.len()] == s[i
                    + k]);
            }
        }
    }
}

/// Soundness for addresses: a successful parse consumed exactly the wire
/// rendering of its result.
pub proof fn lemma_parse_addr_sound(s: Seq<char>, i: int)
    requires
        0 <= i <= s.len(),
        spec_parse_addr(s, i) is Some,
    ensures
        ({
            let (a, j) = spec_parse_addr(s, i)->Some_0;
            &&& i < j <= s.len()
            &&& s.subrange(i, j) == spec_addr(a)
        }),
{
    let (a, j) = spec_parse_addr(s, i)->Some_0;
    let (o0, i1) = spec_parse_num(s, i, 255)->Some_0;
    crate::digits::lemma_parse_num_sound(s, i, 255);
    let (o1, i2) = spec_parse_num(s, i1 + 1, 255)->Some_0;
    crate::digits::lemma_parse_num_sound(s, i1 + 1, 255);
    let (o2, i3) = spec_parse_num(s, i2 + 1, 255)->Some_0;
    crate::digits::lemma_parse_num_sound(s, i2 + 1, 255);
    let (o3, i4) = spec_parse_num(s, i3 + 1, 255)->Some_0;
    crate::digits::lemma_parse_num_sound(s, i3 + 1, 255);
    let (port, i5) = spec_parse_num(s, i4 + 1, 65535)->Some_0;
    crate::digits::lemma_parse_num_sound(s, i4 + 1, 65535);
    let d0 = spec_dec(o0);
    let d1 = spec_dec(o1);
    let d2 = spec_dec(o2);
    let d3 = spec_dec(o3);
    let dp = spec_dec(port);
    let dot = seq!['.'];
    let col = seq![':'];
    lemma_at_single(s, i1, '.');
    lemma_at_single(s, i2, '.');
    lemma_at_single(s, i3, '.');
    lemma_at_single(s, i4, ':');
    lemma_at_join(s, i, d0, dot);
    lemma_at_join(s, i, d0 + dot, d1);
    lemma_at_join(s, i, d0 + dot + d1, dot);
    lemma_at_join(s, i, d0 + dot + d1 + dot, d2);
    lemma_at_join(s, i, d0 + dot + d1 + dot + d2, dot);
    lemma_at_join(s, i, d0 + dot + d1 + dot + d2 + dot, d3);
    lemma_at_join(s, i, d0 + dot + d1 + dot + d2 + dot + d3, col);
    lemma_at_join(s, i, d0 + dot + d1 + dot + d2 + dot + d3 + col, dp);
    assert(spec_dec(a.o0 as nat) == d0);
    assert(spec_dec(a.o1 as nat) == d1);
    assert(spec_dec(a.o2 as nat) == d2);
    assert(spec_dec(a.o3 as nat) == d3);
    assert(spec_dec(a.port as nat) == dp);
    assert(s.subrange(i, j) == spec_addr(a));
}

/// Soundness for the tail of a peer list: a successful parse consumed
/// exactly the wire form of its elements and stopped on the closing
/// bracket.
pub proof fn lemma_parse_peers_rest_sound(s: Seq<char>, i: int)
    requires
        0 <= i <= s.len(),
        spec_parse_peers_rest(s, i) is Some,
    ensures
        ({
            let (ps, k) = spec_parse_peers_rest(s, i)->Some_0;
            &&& i <= k < s.len()
            &&& s[k] == ']'
            &&& s.subrange(i, k) == spec_peers_rest(ps)
        }),
    decreases s.len() - i,
{
    let (ps, k) = spec_parse_peers_rest(s, i)->Some_0;
    if s[i] == ']' {
        assert(s.subrange(i, i) =~= spec_peers_rest(ps));
    } else {
        let (a, j) = spec_parse_addr(s, i + 2)->Some_0;
        lemma_parse_addr_sound(s, i + 2);
        let (ps2, k2) = spec_parse_peers_rest(s, j + 1)->Some_0;
        lemma_parse_peers_rest_sound(s, j + 1);
        assert(ps == seq![a] + ps2);
        assert(ps[0] == a);
        assert(ps.subrange(1, ps.len() as int) =~= ps2);
        let ad = spec_addr(a);
        let q = seq!['"'];
        lemma_at_single(s, i, ',');
        lemma_at_single(s, i + 1, '"');
        lemma_at_single(s, j, '"');
        lemma_at_join(s, i + 1, q, ad);
        lemma_at_join(s, i + 1, q + ad, q);
        lemma_at_join(s, i, seq![','], (q + ad) + q);
        lemma_at_join(s, i, seq![','] + ((q + ad) + q), spec_peers_rest(ps2));
        assert(seq![','] + ((q + ad) + q) + spec_peers_rest(ps2) == spec_peers_rest(ps));
        assert(s.subrange(i, k) == spec_peers_rest(ps));
    }
}

/// Soundness for a whole peer list.
pub proof fn lemma_parse_peers_sound(s: Seq<char>, i: int)
    requires
        0 <= i <= s.len(),
        spec_parse_peers(s, i) is Some,
    ensures
        ({
            let (ps, k) = spec_parse_peers(s, i)->Some_0;
            &&& i <= k < s.len()
            &&& s[k] == ']'
            &&& s.subrange(i, k) == spec_peers(ps)
        }),
{
    let (ps, k) = spec_parse_peers(s, i)->Some_0;
    if s[i] == ']' {
        assert(s.subrange(i, i) =~= spec_peers(ps));
    } else {
        let (a, j) = spec_parse_addr(s, i + 1)->Some_0;
        lemma_parse_addr_sound(s, i + 1);
        let (ps2, k2) = spec_parse_peers_rest(s, j + 1)->Some_0;
        lemma_parse_peers_rest_sound(s, j + 1);
        assert(ps == seq![a] + ps2);
        assert(ps[0] == a);
        assert(ps.subrange(1, ps.len() as int) =~= ps2);
        let ad = spec_addr(a);
        let q = seq!['"'];
        lemma_at_single(s, i, '"');
        lemma_at_single(s, j, '"');
        lemma_at_join(s, i, q, ad);
        lemma_at_join(s, i, q + ad, q);
        lemma_at_join(s, i, (q + ad) + q, spec_peers_rest(ps2));
        assert((q + ad) + q + spec_peers_rest(ps2) == spec_peers(ps));
        assert(s.subrange(i, k) == spec_peers(ps));
    }
}

/// Soundness of decoding: a line that decodes at all is exactly the
/// encoding of the envelope it decodes to. No other line is accepted.
pub proof fn lemma_decode_sound(s: Seq<char>)
    requires
        spec_decode(s) is Some,
    ensures
        spec_encode(spec_decode(s)->Some_0) == s,
{
    let m = spec_decode(s)->Some_0;
    assert(s.subrange(0, s.len() as int) =~= s);
    if lit_at(s, 0, lit_msg_head()) {
        let i0 = lit_msg_head().len() as int;
        let (content, i1) = spec_parse_content(s, i0)->Some_0;
        crate::escape::lemma_parse_content_sound(s, i0);
        let e1 = spec_escape(content) + seq!['"'];
        assert(lit_at(s, i0, e1));
        let i2 = i1 + lit_msg_from().len();
        let (from, i3) = spec_parse_addr(s, i2)->Some_0;
        lemma_parse_addr_sound(s, i2);
        let i4 = i3 + lit_msg_ts().len();
        let (ts, i5) = spec_parse_num(s, i4, u64::MAX as nat)->Some_0;
        crate::digits::lemma_parse_num_sound(s, i4, u64::MAX as nat);
        let ad = spec_addr(from);
        let dt = spec_dec(ts);
        lemma_at_join(s, 0, lit_msg_head(), e1);
        lemma_at_join(s, 0, lit_msg_head() + e1, lit_msg_from());
        lemma_at_join(s, 0, lit_msg_head() + e1 + lit_msg_from(), ad);
        lemma_at_join(s, 0, lit_msg_head() + e1 + lit_msg_from() + ad, lit_msg_ts());
        lemma_at_join(s, 0, lit_msg_head() + e1 + lit_msg_from() + ad + lit_msg_ts(), dt);
        lemma_at_join(
            s,
            0,
            lit_msg_head() + e1 + lit_msg_from() + ad + lit_msg_ts() + dt,
            lit_obj_end(),
        );
        let whole = lit_msg_head() + e1 + lit_msg_from() + ad + lit_msg_ts() + dt + lit_obj_end();
        assert(whole.len() == s.len());
        assert(s.subrange(0, s.len() as int) == whole);
        assert(spec_dec((ts as u64) as nat) == dt);
        assert(spec_encode(m) == whole);
    } else {
        let i0 = lit_pi_head().len() as int;
        let (port, i1) = spec_parse_num(s, i0, 65535)->Some_0;
        crate::digits::lemma_parse_num_sound(s, i0, 65535);
        let i2 = i1 + lit_pi_peers().len();
        let (peers, i3) = spec_parse_peers(s, i2)->Some_0;
        lemma_parse_peers_sound(s, i2);
        let dp = spec_dec(port);
        let pe = spec_peers(peers);
        lemma_at_join(s, 0, lit_pi_head(), dp);
        lemma_at_join(s, 0, lit_pi_head() + dp, lit_pi_peers());
        lemma_at_join(s, 0, lit_pi_head() + dp + lit_pi_peers(), pe);
        lemma_at_join(s, 0, lit_pi_head() + dp + lit_pi_peers() + pe, lit_pi_end());
        let whole = lit_pi_head() + dp + lit_pi_peers() + pe + lit_pi_end();
        assert(whole.len() == s.len());
        assert(s.subrange(0, s.len() as int) == whole);
        assert(spec_dec((port as u16) as nat) == dp);
        assert(spec_encode(m) == whole);
    }
}

// ---------------------------------------------------------------------------
// Executable encoding and decoding. Both agree exactly with `spec_encode`
// and `spec_decode`.
// ---------------------------------------------------------------------------

/// Whether the characters of `lit` stand in `v` at position `i`.
fn match_lit(v: &Vec<char>, i: usize, lit: &str) -> (r: bool)
    requires
        i <= v@.len(),
    ensures
        r == lit_at(v@, i as int, lit@),
{
    let n = lit.unicode_len();
    if n > v.len() || i > v.len() - n {
        return false;
    }
    let mut k: usize = 0;
    while k < n
        invariant
            k <= n,
            i + n <= v@.len(),
            v@.len() <= usize::MAX,
            n == lit@.len(),
            forall|t: int| 0 <= t < k ==> v@[i + t] == lit@[t],
        decreases n - k,
    {
        assert(i + k < v@.len());
        if v[i + k] != lit.get_char(k) {
            proof {
                if lit_at(v@, i as int, lit@) {
                    assert(v@.subrange(i as int, i + lit@.len() as int)[k as int] == v@[i + k]);
                    assert(false);
                }
            }
            return false;
        }
        k = k + 1;
    }
    proof {
        assert(v@.subrange(i as int, i + lit@.len() as int) =~= lit@);
    }
    true
}

/// Append the characters of `lit` to `out`.
fn push_lit(out: &mut Vec<char>, lit: &str)
    ensures
        final(out)@ == old(out)@ + lit@,
{
    let n = lit.unicode_len();
    let mut k: usize = 0;
    assert(out@ =~= old(out)@ + lit@.subrange(0, 0));
    while k < n
        invariant
            k <= n,
            n == lit@.len(),
            out@ == old(out)@ + lit@.subrange(0, k as int),
        decreases n - k,
    {
        out.push(lit.get_char(k));
        proof {
            assert(lit@.subrange(0, k + 1) =~= lit@.subrange(0, k as int).push(lit@[k as int]));
            assert(out@ =~= old(out)@ + lit@.subrange(0, k + 1));
        }
        k = k + 1;
    }
    proof {
        assert(lit@.subrange(0, lit@.len() as int) =~= lit@);
    }
}

/// Append the wire rendering of an address to `out`.
fn push_addr(out: &mut Vec<char>, a: &Address)
    ensures
        final(out)@ == old(out)@ + spec_addr(*a),
{
    push_dec_u64(out, a.o0 as u64);
    out.push('.');
    push_dec_u64(out, a.o1 as u64);
    out.push('.');
    push_dec_u64(out, a.o2 as u64);
    out.push('.');
    push_dec_u64(out, a.o3 as u64);
    out.push(':');
    push_dec_u64(out, a.port as u64);
    assert(out@ =~= old(out)@ + spec_addr(*a));
}

/// The text form of an address, exactly as it stands on the wire.
pub fn address_string(a: &Address) -> (r: String)
    ensures
        r@ == spec_addr(*a),
{
    let mut out: Vec<char> = Vec::new();
    push_addr(&mut out, a);
    chars_string(&out)
}

/// Parse a whole string as one address; succeeds exactly when the string
/// is the wire rendering of an address and nothing more.
pub fn parse_address(s: &str) -> (r: Option<Address>)
    ensures
        ({
            let p = spec_parse_addr(s@, 0);
            match r {
                Some(a) => p == Some((a, s@.len() as int)),
                None => p is None || p->Some_0.1 != s@.len(),
            }
        }),
{
    let v = str_chars(s);
    match parse_addr(&v, 0) {
        Some((a, j)) => {
            if j == v.len() {
                Some(a)
            } else {
                None
            }
        },
        None => None,
    }
}

/// One quoted address as it stands inside a peer list.
pub open spec fn quoted_addr(a: Address) -> Seq<char> {
    seq!['"'] + spec_addr(a) + seq!['"']
}

proof fn lemma_peers_rest_snoc(ps: Seq<Address>, a: Address)
    ensures
        spec_peers_rest(ps.push(a)) == spec_peers_rest(ps) + (seq![','] + quoted_addr(a)),
    decreases ps.len(),
{
    let w = ps.push(a);
    let sub = w.subrange(1, w.len() as int);
    assert(w[0] == if ps.len() == 0 { a } else { ps[0] });
    if ps.len() == 0 {
        assert(sub.len() == 0);
        assert(spec_peers_rest(sub) == Seq::<char>::empty());
        assert(spec_peers_rest(ps) == Seq::<char>::empty());
        assert(spec_peers_rest(w) == seq![','] + (seq!['"'] + spec_addr(a) + seq!['"'])
            + spec_peers_rest(sub));
        assert(spec_peers_rest(w) =~= spec_peers_rest(ps) + (seq![','] + quoted_addr(a)));
    } else {
        let tail = ps.subrange(1, ps.len() as int);
        assert(sub =~= tail.push(a));
        assert(spec_peers_rest(sub) == spec_peers_rest(tail.push(a)));
        lemma_peers_rest_snoc(tail, a);
        assert(spec_peers_rest(w) == seq![','] + (seq!['"'] + spec_addr(ps[0]) + seq!['"'])
            + spec_peers_rest(sub));
        assert(spec_peers_rest(ps) == seq![','] + (seq!['"'] + spec_addr(ps[0]) + seq!['"'])
            + spec_peers_rest(tail));
        assert(spec_peers_rest(w) =~= spec_peers_rest(ps) + (seq![','] + quoted_addr(a)));
    }
}

proof fn lemma_peers_snoc(ps: Seq<Address>, a: Address)
    ensures
        ps.len() == 0 ==> spec_peers(ps.push(a)) == quoted_addr(a),
        ps.len() > 0 ==> spec_peers(ps.push(a)) == spec_peers(ps) + (seq![','] + quoted_addr(a)),
{
    let w = ps.push(a);
    let sub = w.subrange(1, w.len() as int);
    assert(w[0] == if ps.len() == 0 { a } else { ps[0] });
    if ps.len() == 0 {
        assert(sub.len() == 0);
        assert(spec_peers_rest(sub) == Seq::<char>::empty());
        assert(spec_peers(w) == (seq!['"'] + spec_addr(a) + seq!['"']) + spec_peers_rest(sub));
        assert(spec_peers(w) =~= quoted_addr(a));
    } else {
        let tail = ps.subrange(1, ps.len() as int);
        assert(sub =~= tail.push(a));
        assert(spec_peers_rest(sub) == spec_peers_rest(tail.push(a)));
        lemma_peers_rest_snoc(tail, a);
        assert(spec_peers(w) == (seq!['"'] + spec_addr(ps[0]) + seq!['"']) + spec_peers_rest(sub));
        assert(spec_peers(ps) == (seq!['"'] + spec_addr(ps[0]) + seq!['"']) + spec_peers_rest(
            tail,
        ));
        assert(spec_peers(w) =~= spec_peers(ps) + (seq![','] + quoted_addr(a)));
    }
}

/// Encode an envelope as its one wire line, newline included.
pub fn encode(d: &NetworkData) -> (r: String)
    ensures
        r@ == spec_encode(d@) + seq!['\n'],
{
    let mut out: Vec<char> = Vec::new();
    match d {
        NetworkData::Message(m) => {
            push_lit(&mut out, "{\"type\":\"Message\",\"data\":{\"content\":\"");
            let cs = str_chars(m.content.as_str());
            push_escaped(&mut out, &cs);
            out.push('"');
            push_lit(&mut out, ",\"from\":\"");
            push_addr(&mut out, &m.from);
            push_lit(&mut out, "\",\"timestamp\":");
            push_dec_u64(&mut out, m.timestamp);
            push_lit(&mut out, "}}");
            assert(out@ =~= spec_encode(d@));
        },
        NetworkData::PeerInfo(p) => {
            push_lit(&mut out, "{\"type\":\"PeerInfo\",\"data\":{\"port\":");
            push_dec_u64(&mut out, p.port as u64);
            push_lit(&mut out, ",\"known_peers\":[");
            let ghost before = out@;
            let n = p.known_peers.len();
            let mut idx: usize = 0;
            assert(p.known_peers@.subrange(0, 0) =~= Seq::<Address>::empty());
            assert(out@ =~= before + spec_peers(p.known_peers@.subrange(0, 0)));
            while idx < n
                invariant
                    idx <= n,
                    n == p.known_peers@.len(),
                    out@ == before + spec_peers(p.known_peers@.subrange(0, idx as int)),
                decreases n - idx,
            {
                let ghost pre = p.known_peers@.subrange(0, idx as int);
                let a = p.known_peers[idx];
                let ghost mid = out@;
                if idx > 0 {
                    out.push(',');
                }
                out.push('"');
                push_addr(&mut out, &a);
                out.push('"');
                proof {
                    lemma_peers_snoc(pre, a);
                    assert(p.known_peers@.subrange(0, idx + 1) =~= pre.push(a));
                    if idx == 0 {
                        assert(out@ =~= mid + quoted_addr(a));
                        assert(spec_peers(pre).len() == 0);
                        assert(out@ =~= before + spec_peers(p.known_peers@.subrange(0, idx + 1)));
                    } else {
                        assert(out@ =~= mid + (seq![','] + quoted_addr(a)));
                        assert(out@ =~= before + spec_peers(p.known_peers@.subrange(0, idx + 1)));
                    }
                }
                idx = idx + 1;
            }
            assert(p.known_peers@.subrange(0, n as int) =~= p.known_peers@);
            push_lit(&mut out, "]}}");
            assert(out@ =~= spec_encode(d@));
        },
    }
    out.push('\n');
    let r = chars_string(&out);
    assert(r@ =~= spec_encode(d@) + seq!['\n']);
    r
}

/// Parse an address, agreeing exactly with `spec_parse_addr`.
fn parse_addr(v: &Vec<char>, i: usize) -> (r: Option<(Address, usize)>)
    requires
        i <= v@.len(),
    ensures
        match r {
            Some((a, j)) => spec_parse_addr(v@, i as int) == Some((a, j as int)) && i < j
                <= v@.len(),
            None => spec_parse_addr(v@, i as int) is None,
        },
{
    match parse_num_u64(v, i, 255) {
        None => None,
        Some((o0, i1)) => {
            if i1 < v.len() && v[i1] == '.' {
                match parse_num_u64(v, i1 + 1, 255) {
                    None => None,
                    Some((o1, i2)) => {
                        if i2 < v.len() && v[i2] == '.' {
                            match parse_num_u64(v, i2 + 1, 255) {
                                None => None,
                                Some((o2, i3)) => {
                                    if i3 < v.len() && v[i3] == '.' {
                                        match parse_num_u64(v, i3 + 1, 255) {
                                            None => None,
                                            Some((o3, i4)) => {
                                                if i4 < v.len() && v[i4] == ':' {
                                                    match parse_num_u64(v, i4 + 1, 65535) {
                                                        None => None,
                                                        Some((port, i5)) => Some(
                                                            (
                                                                Address {
                                                                    o0: o0 as u8,
                                                                    o1: o1 as u8,
                                                                    o2: o2 as u8,
                                                                    o3: o3 as u8,
                                                                    port: port as u16,
                                                                },
                                                                i5,
                                                            ),
                                                        ),
                                                    }
                                                } else {
                                                    None
                                                }
                                            },
                                        }
                                    } else {
                                        None
                                    }
                                },
                            }
                        } else {
                            None
                        }
                    },
                }
            } else {
                None
            }
        },
    }
}

/// Combine a remaining peer-list parse with the elements already read.
pub open spec fn peers_from(s: Seq<char>, i: int, acc: Seq<Address>) -> Option<(Seq<Address>, int)> {
    match spec_parse_peers_rest(s, i) {
        Some((ps, k)) => Some((acc + ps, k)),
        None => None,
    }
}

/// Parse a peer list body, agreeing exactly with `spec_parse_peers`.
fn parse_peers(v: &Vec<char>, i0: usize) -> (r: Option<(Vec<Address>, usize)>)
    requires
        i0 <= v@.len(),
    ensures
        match r {
            Some((ps, j)) => spec_parse_peers(v@, i0 as int) == Some((ps@, j as int)) && i0 <= j
                <= v@.len(),
            None => spec_parse_peers(v@, i0 as int) is None,
        },
{
    if i0 < v.len() && v[i0] == ']' {
        let empty: Vec<Address> = Vec::new();
        assert(empty@ =~= Seq::<Address>::empty());
        return Some((empty, i0));
    }
    if !(i0 < v.len() && v[i0] == '"') {
        return None;
    }
    match parse_addr(v, i0 + 1) {
        None => None,
        Some((a0, j0)) => {
            if !(j0 < v.len() && v[j0] == '"') {
                return None;
            }
            let mut acc: Vec<Address> = Vec::new();
            acc.push(a0);
            let mut i: usize = j0 + 1;
            assert(acc@ =~= seq![a0]);
            proof {
                if spec_parse_peers_rest(v@, i as int) is Some {
                    let (ps, k) = spec_parse_peers_rest(v@, i as int)->Some_0;
                    assert(seq![a0] + ps =~= acc@ + ps);
                }
            }
            loop
                invariant
                    i0 <= i <= v@.len(),
                    spec_parse_peers(v@, i0 as int) == peers_from(v@, i as int, acc@),
                decreases v@.len() - i,
            {
                if i < v.len() && v[i] == ']' {
                    assert(acc@ + Seq::<Address>::empty() =~= acc@);
                    return Some((acc, i));
                }
                if !(i < v.len() && v[i] == ',' && v.len() - i >= 2 && v[i + 1] == '"') {
                    return None;
                }
                match parse_addr(v, i + 2) {
                    None => {
                        return None;
                    },
                    Some((a, j)) => {
                        if !(j < v.len() && v[j] == '"') {
                            return None;
                        }
                        proof {
                            if spec_parse_peers_rest(v@, j + 1) is Some {
                                let (ps, k) = spec_parse_peers_rest(v@, j + 1)->Some_0;
                                assert(acc@ + (seq![a] + ps) =~= acc@.push(a) + ps);
                            }
                        }
                        acc.push(a);
                        i = j + 1;
                    },
                }
            }
        },
    }
}

/// Decode one line (without its newline) into an envelope. Succeeds exactly
/// on the lines that `spec_decode` accepts, with the envelope it denotes;
/// every other line is a `DecodeError`.
pub fn decode(line: &str) -> (r: Result<NetworkData, DecodeError>)
    ensures
        match r {
            Ok(d) => spec_decode(line@) == Some(d@),
            Err(e) => spec_decode(line@) is None,
        },
{
    let v = str_chars(line);
    let vlen = v.len();
    assert(v@.len() <= usize::MAX);
    let msg_head: &str = "{\"type\":\"Message\",\"data\":{\"content\":\"";
    let pi_head: &str = "{\"type\":\"PeerInfo\",\"data\":{\"port\":";
    if match_lit(&v, 0, msg_head) {
        let i0 = msg_head.unicode_len();
        match parse_content(&v, i0) {
            None => Err(DecodeError),
            Some((content, i1)) => {
                let from_lit: &str = ",\"from\":\"";
                if match_lit(&v, i1, from_lit) {
                    let i2 = i1 + from_lit.unicode_len();
                    match parse_addr(&v, i2) {
                        None => Err(DecodeError),
                        Some((from, i3)) => {
                            let ts_lit: &str = "\",\"timestamp\":";
                            if match_lit(&v, i3, ts_lit) {
                                let i4 = i3 + ts_lit.unicode_len();
                                match parse_num_u64(&v, i4, u64::MAX) {
                                    None => Err(DecodeError),
                                    Some((ts, i5)) => {
                                        let end_lit: &str = "}}";
                                        if match_lit(&v, i5, end_lit) && i5
                                            + end_lit.unicode_len() == vlen {
                                            Ok(
                                                NetworkData::Message(
                                                    Message {
                                                        content: chars_string(&content),
                                                        from,
                                                        timestamp: ts,
                                                    },
                                                ),
                                            )
                                        } else {
                                            Err(DecodeError)
                                        }
                                    },
                                }
                            } else {
                                Err(DecodeError)
                            }
                        },
                    }
                } else {
                    Err(DecodeError)
                }
            },
        }
    } else if match_lit(&v, 0, pi_head) {
        let i0 = pi_head.unicode_len();
        match parse_num_u64(&v, i0, 65535) {
            None => Err(DecodeError),
            Some((port, i1)) => {
                let peers_lit: &str = ",\"known_peers\":[";
                if match_lit(&v, i1, peers_lit) {
                    let i2 = i1 + peers_lit.unicode_len();
                    match parse_peers(&v, i2) {
                        None => Err(DecodeError),
                        Some((peers, i3)) => {
                            let end_lit: &str = "]}}";
                            if match_lit(&v, i3, end_lit) && i3 + end_lit.unicode_len()
                                == vlen {
                                Ok(
                                    NetworkData::PeerInfo(
                                        PeerInfo { port: port as u16, known_peers: peers },
                                    ),
                                )
                            } else {
                                Err(DecodeError)
                            }
                        },
                    }
                } else {
                    Err(DecodeError)
                }
            },
        }
    } else {
        Err(DecodeError)
    }
}

} // verus!
