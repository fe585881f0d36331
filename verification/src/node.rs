use vstd::prelude::*;
use vstd::string::StrSliceExecFns;
use vstd::string::StringExecFns;
use crate::types::{Address, Message, NetworkData, PeerInfo, WireModel};
use crate::codec::{encode, decode, spec_encode, spec_decode, lemma_encode_decode};
use crate::directory::{Directory, insert_spec, merge_spec, lemma_merge_spec_membership};
use crate::digits::spec_dec;
use crate::utils::chars_string;

verus! {

/// One item on the relay hub: the exact line to put on the wire, newline
/// included, and the address it came from. The origin exists only so that
/// a link's writer never echoes an item back down the link that produced
/// it.
pub struct RelayItem {
    pub line: String,
    pub origin: Address,
}

/// Whether a link's writer forwards an item: exactly when the item did not
/// originate from that link's peer.
pub fn should_forward(item_origin: &Address, link_peer: &Address) -> (r: bool)
    ensures
        r == (*item_origin != *link_peer),
{
    !(*item_origin == *link_peer)
}

/// Relies on rand::random for a fresh random draw. Nothing is assumed of
/// the value.
#[verifier::external_body]
fn random_u32() -> u32 {
    rand::random::<u32>()
}

/// Fresh gossip content: a random number rendered as decimal text.
pub fn fresh_content() -> (r: String)
    ensures
        exists|v: u32| r@ == spec_dec(v as nat),
{
    let v = random_u32();
    let mut cs: Vec<char> = Vec::new();
    crate::digits::push_dec_u64(&mut cs, v as u64);
    proof {
        assert(cs@ =~= spec_dec(v as nat));
    }
    chars_string(&cs)
}

/// The wire line announcing a gossip message.
pub fn message_line(content: &String, from: Address, timestamp: u64) -> (r: String)
    ensures
        r@ == spec_encode(WireModel::Message { content: content@, from, timestamp })
            + seq!['\n'],
{
    let d = NetworkData::Message(Message { content: content.clone(), from, timestamp });
    encode(&d)
}

/// The wire line announcing this node's listening port and known peers.
pub fn peer_info_line(port: u16, known_peers: Vec<Address>) -> (r: String)
    ensures
        r@ == spec_encode(WireModel::PeerInfo { port, known_peers: known_peers@ })
            + seq!['\n'],
{
    let d = NetworkData::PeerInfo(PeerInfo { port, known_peers });
    encode(&d)
}

fn copy_addrs(src: &Vec<Address>) -> (r: Vec<Address>)
    ensures
        r@ == src@,
{
    let n = src.len();
    let mut r: Vec<Address> = Vec::new();
    let mut k: usize = 0;
    while k < n
        invariant
            k <= n,
            n == src@.len(),
            r@ == src@.subrange(0, k as int),
        decreases n - k,
    {
        r.push(src[k]);
        proof {
            assert(r@ =~= src@.subrange(0, k + 1));
        }
        k = k + 1;
    }
    proof {
        assert(r@ =~= src@);
    }
    r
}

/// One gossip tick: the message item first, then one peer-info
/// announcement per currently-known peer, every item tagged with the local
/// address as origin so that every link's writer forwards it.
pub fn gossip_items(me: Address, snapshot: &Vec<Address>, content: &String, now: u64) -> (r: Vec<
    RelayItem,
>)
    ensures
        r@.len() == 1 + snapshot@.len(),
        r@[0].line@ == spec_encode(
            WireModel::Message { content: content@, from: me, timestamp: now },
        ) + seq!['\n'],
        r@[0].origin == me,
        forall|k: int|
            1 <= k < r@.len() ==> (#[trigger] r@[k].line)@ == spec_encode(
                WireModel::PeerInfo { port: me.port, known_peers: snapshot@ },
            ) + seq!['\n'] && r@[k].origin == me,
{
    let mut r: Vec<RelayItem> = Vec::new();
    let msg = message_line(content, me, now);
    r.push(RelayItem { line: msg, origin: me });
    let n = snapshot.len();
    let mut k: usize = 0;
    while k < n
        invariant
            k <= n,
            n == snapshot@.len(),
            r@.len() == 1 + k,
            r@[0].line@ == spec_encode(
                WireModel::Message { content: content@, from: me, timestamp: now },
            ) + seq!['\n'],
            r@[0].origin == me,
            forall|t: int|
                1 <= t < r@.len() ==> (#[trigger] r@[t].line)@ == spec_encode(
                    WireModel::PeerInfo { port: me.port, known_peers: snapshot@ },
                ) + seq!['\n'] && r@[t].origin == me,
        decreases n - k,
    {
        let line = peer_info_line(me.port, copy_addrs(snapshot));
        r.push(RelayItem { line, origin: me });
        k = k + 1;
    }
    r
}

/// The loopback address a handshake reconstructs from a declared port.
pub open spec fn peer_of_port(port: u16) -> Address {
    Address { o0: 127, o1: 0, o2: 0, o3: 1, port }
}

/// Whether a first line is an acceptable handshake: a well-formed
/// peer-info envelope.
pub open spec fn handshake_accepts(line: Seq<char>) -> bool {
    spec_decode(line) matches Some(WireModel::PeerInfo { .. })
}

/// What a handshake line does to the directory: on a peer-info envelope,
/// the declared peer is inserted and its known peers merged; anything else
/// leaves the directory untouched.
pub open spec fn handshake_result(s0: Set<Address>, me: Address, line: Seq<char>) -> Set<
    Address,
> {
    match spec_decode(line) {
        Some(WireModel::PeerInfo { port, known_peers }) => merge_spec(
            insert_spec(s0, me, peer_of_port(port)),
            me,
            known_peers,
        ),
        _ => s0,
    }
}

/// Handle the first line of a freshly accepted connection. On a valid
/// peer-info envelope the peer's addressable endpoint (loopback plus its
/// declared port) is returned and the directory updated; any other first
/// line rejects the connection and leaves the directory untouched.
pub fn accept_handshake(dir: &mut Directory, line: &str) -> (r: Option<Address>)
    requires
        old(dir).wf(),
    ensures
        final(dir).wf(),
        final(dir).self_addr_spec() == old(dir).self_addr_spec(),
        final(dir)@ == handshake_result(old(dir)@, old(dir).self_addr_spec(), line@),
        r is Some <==> handshake_accepts(line@),
        r is Some ==> r->Some_0 == peer_of_port(spec_decode(line@)->Some_0->PeerInfo_port),
        !handshake_accepts(line@) ==> final(dir)@ == old(dir)@,
{
    match decode(line) {
        Ok(d) => match d {
            NetworkData::PeerInfo(p) => {
                let peer = Address::loopback(p.port);
                dir.insert(peer);
                dir.merge(&p.known_peers);
                Some(peer)
            },
            NetworkData::Message(_) => None,
        },
        Err(_) => None,
    }
}

/// The outcome of one line read from an established link.
pub enum LineOutcome {
    /// A data message: relay this item to every other link.
    Relay(RelayItem),
    /// A peer-info digest: its peers were merged into the directory.
    Merged,
    /// An empty line: nothing to do.
    Ignored,
    /// Not a well-formed envelope: the connection must be closed and its
    /// peer pruned.
    Malformed,
}

/// What one mid-session line does to the directory: a message inserts its
/// sender, a peer-info digest merges its peers, anything else changes
/// nothing.
pub open spec fn line_directory_result(s0: Set<Address>, me: Address, line: Seq<char>) -> Set<
    Address,
> {
    if line.len() == 0 {
        s0
    } else {
        match spec_decode(line) {
            Some(WireModel::Message { content, from, timestamp }) => insert_spec(s0, me, from),
            Some(WireModel::PeerInfo { port, known_peers }) => merge_spec(s0, me, known_peers),
            None => s0,
        }
    }
}

/// Handle one line from an established link's reader duty. A well-formed
/// message records its sender and is relayed, tagged with this link's peer
/// so the producing link does not get it back; a peer-info digest merges
/// its peers; a malformed line fails the connection.
pub fn on_peer_line(dir: &mut Directory, link_peer: Address, line: &str) -> (r: LineOutcome)
    requires
        old(dir).wf(),
    ensures
        final(dir).wf(),
        final(dir).self_addr_spec() == old(dir).self_addr_spec(),
        final(dir)@ == line_directory_result(old(dir)@, old(dir).self_addr_spec(), line@),
        (line@.len() == 0) <==> r is Ignored,
        line@.len() != 0 ==> ((spec_decode(line@) is None) <==> r is Malformed),
        line@.len() != 0 ==> ((spec_decode(line@) matches Some(WireModel::PeerInfo { .. }))
            <==> r is Merged),
        line@.len() != 0 ==> ((spec_decode(line@) matches Some(WireModel::Message { .. }))
            <==> r is Relay),
        r matches LineOutcome::Relay(item) ==> item.line@ == line@ + seq!['\n'] && item.origin
            == link_peer,
{
    if line.unicode_len() == 0 {
        return LineOutcome::Ignored;
    }
    match decode(line) {
        Err(_) => LineOutcome::Malformed,
        Ok(d) => match d {
            NetworkData::Message(m) => {
                dir.insert(m.from);
                let mut out = line.to_owned();
                out.append("\n");
                proof {
                    reveal_strlit("\n");
                    assert(out@ =~= line@ + seq!['\n']);
                }
                LineOutcome::Relay(RelayItem { line: out, origin: link_peer })
            },
            NetworkData::PeerInfo(p) => {
                dir.merge(&p.known_peers);
                LineOutcome::Merged
            },
        },
    }
}

/// Directory convergence for the three-node bootstrap: with A as seed and
/// B and C each dialing A with an empty digest, once A has accepted both
/// handshakes and each of B and C has received A's next announcement
/// (which carries exactly A's directory, the set {B, C}), every node's
/// directory holds exactly the other two nodes.
pub proof fn lemma_three_node_convergence(a: Address, b: Address, c: Address, ps: Seq<Address>)
    requires
        a == peer_of_port(a.port),
        b == peer_of_port(b.port),
        c == peer_of_port(c.port),
        a.port != b.port,
        a.port != c.port,
        b.port != c.port,
        forall|x: Address| ps.contains(x) <==> (x == b || x == c),
    ensures
        ({
            let greeting_b = spec_encode(
                WireModel::PeerInfo { port: b.port, known_peers: Seq::empty() },
            );
            let greeting_c = spec_encode(
                WireModel::PeerInfo { port: c.port, known_peers: Seq::empty() },
            );
            let announce_a = spec_encode(WireModel::PeerInfo { port: a.port, known_peers: ps });
            let da = handshake_result(
                handshake_result(Set::empty(), a, greeting_b),
                a,
                greeting_c,
            );
            let db = line_directory_result(insert_spec(Set::empty(), b, a), b, announce_a);
            let dc = line_directory_result(insert_spec(Set::empty(), c, a), c, announce_a);
            &&& da == Set::empty().insert(b).insert(c)
            &&& db == Set::empty().insert(a).insert(c)
            &&& dc == Set::empty().insert(a).insert(b)
        }),
{
    let greeting_b = spec_encode(WireModel::PeerInfo { port: b.port, known_peers: Seq::empty() });
    let greeting_c = spec_encode(WireModel::PeerInfo { port: c.port, known_peers: Seq::empty() });
    let announce_a = spec_encode(WireModel::PeerInfo { port: a.port, known_peers: ps });
    lemma_encode_decode(WireModel::PeerInfo { port: b.port, known_peers: Seq::empty() });
    lemma_encode_decode(WireModel::PeerInfo { port: c.port, known_peers: Seq::empty() });
    lemma_encode_decode(WireModel::PeerInfo { port: a.port, known_peers: ps });
    assert(announce_a.len() != 0) by {
        reveal_strlit("{\"type\":\"PeerInfo\",\"data\":{\"port\":");
        assert(crate::codec::lit_pi_head().len() > 0);
    }
    let da1 = handshake_result(Set::empty(), a, greeting_b);
    lemma_merge_spec_membership(
        insert_spec(Set::empty(), a, peer_of_port(b.port)),
        a,
        Seq::empty(),
    );
    assert(da1 =~= Set::empty().insert(b));
    let da = handshake_result(da1, a, greeting_c);
    lemma_merge_spec_membership(insert_spec(da1, a, peer_of_port(c.port)), a, Seq::empty());
    assert(da =~= Set::empty().insert(b).insert(c));
    assert(a != b && a != c && b != c);
    assert(spec_decode(announce_a) == Some(WireModel::PeerInfo { port: a.port, known_peers: ps }));
    let db = line_directory_result(insert_spec(Set::empty(), b, a), b, announce_a);
    assert(db == merge_spec(insert_spec(Set::empty(), b, a), b, ps));
    lemma_merge_spec_membership(insert_spec(Set::empty(), b, a), b, ps);
    assert forall|x: Address| db.contains(x) <==> (x == a || x == c) by {
        assert(db.contains(x) <==> (insert_spec(Set::empty(), b, a).contains(x) || (ps.contains(x)
            && x != b)));
        assert(ps.contains(x) <==> (x == b || x == c));
    }
    assert(db =~= Set::empty().insert(a).insert(c));
    let dc = line_directory_result(insert_spec(Set::empty(), c, a), c, announce_a);
    assert(dc == merge_spec(insert_spec(Set::empty(), c, a), c, ps));
    lemma_merge_spec_membership(insert_spec(Set::empty(), c, a), c, ps);
    assert forall|x: Address| dc.contains(x) <==> (x == a || x == b) by {
        assert(dc.contains(x) <==> (insert_spec(Set::empty(), c, a).contains(x) || (ps.contains(x)
            && x != c)));
        assert(ps.contains(x) <==> (x == b || x == c));
    }
    assert(dc =~= Set::empty().insert(a).insert(b));
}

} // verus!
