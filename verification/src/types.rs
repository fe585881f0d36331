use vstd::prelude::*;

verus! {

/// An endpoint identifier: an IPv4 address given by its four octets, plus a
/// TCP port. Addresses are the sole notion of peer identity in the overlay.
#[derive(Clone, Copy, PartialEq, Eq, Structural, Debug, Hash)]
pub struct Address {
    pub o0: u8,
    pub o1: u8,
    pub o2: u8,
    pub o3: u8,
    pub port: u16,
}

impl Address {
    /// The loopback address with the given port; every node in this overlay
    /// binds to loopback, and handshakes reconstruct peers as loopback plus
    /// their declared listening port.
    pub fn loopback(port: u16) -> (r: Address)
        ensures
            r == (Address { o0: 127, o1: 0, o2: 0, o3: 1, port }),
    {
        Address { o0: 127, o1: 0, o2: 0, o3: 1, port }
    }
}

/// A gossip payload: application content, the originator's self-declared
/// listening address, and the origination time in seconds since the epoch.
#[derive(Clone, PartialEq, Eq, Debug)]
pub struct Message {
    pub content: String,
    pub from: Address,
    pub timestamp: u64,
}

/// The handshake/advertisement payload: the sender's listening port and its
/// current view of the mesh (its own address excluded).
#[derive(PartialEq, Eq, Debug)]
pub struct PeerInfo {
    pub port: u16,
    pub known_peers: Vec<Address>,
}

/// The tagged union carried on the wire, one envelope per line.
#[derive(PartialEq, Eq, Debug)]
pub enum NetworkData {
    Message(Message),
    PeerInfo(PeerInfo),
}

/// The mathematical model of an envelope: contents as sequences rather than
/// heap values. Contracts about the codec are stated over this type.
pub enum WireModel {
    Message { content: Seq<char>, from: Address, timestamp: u64 },
    PeerInfo { port: u16, known_peers: Seq<Address> },
}

impl View for Message {
    type V = WireModel;

    open spec fn view(&self) -> WireModel {
        WireModel::Message { content: self.content@, from: self.from, timestamp: self.timestamp }
    }
}

impl View for PeerInfo {
    type V = WireModel;

    open spec fn view(&self) -> WireModel {
        WireModel::PeerInfo { port: self.port, known_peers: self.known_peers@ }
    }
}

impl View for NetworkData {
    type V = WireModel;

    open spec fn view(&self) -> WireModel {
        match self {
            NetworkData::Message(m) => m@,
            NetworkData::PeerInfo(p) => p@,
        }
    }
}

/// Decoding failure: the line is not a well-formed envelope of either variant.
#[derive(Clone, Copy, PartialEq, Eq, Structural, Debug)]
pub struct DecodeError;

} // verus!
