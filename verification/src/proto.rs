//! The broker control messages and their building blocks.
//!
//! On the wire these records are protobuf messages under the
//! `carrier.broker.v1` package; serialising them is left to the unverified
//! rim, which converts between these plain values and protobuf bytes.
//! Socket addresses likewise arrive as text and are converted at the rim
//! into [`NetAddr`], a plain numeric form the verified logic can compare.

use vstd::prelude::*;

verus! {

/// A socket address in plain numeric form: the IP bytes widened into one
/// integer (IPv4 addresses occupy the low 32 bits) and the UDP port.
#[derive(Clone, Copy, Debug, PartialEq, Eq, Structural)]
pub struct NetAddr {
    pub ip: u128,
    pub port: u16,
}

/// Path cost tier of a candidate peer address. Lower is preferred.
#[derive(Clone, Copy, Debug, PartialEq, Eq, Structural)]
pub enum Category {
    Local,
    Internet,
    BrokerOrigin,
}

impl Category {
    /// The numeric cost used to compare tiers, and the value carried in
    /// the protobuf `category` field.
    pub open spec fn spec_value(self) -> int {
        match self {
            Category::Local => 0,
            Category::Internet => 1,
            Category::BrokerOrigin => 2,
        }
    }

    pub fn value(self) -> (v: i32)
        ensures
            v == self.spec_value(),
    {
        match self {
            Category::Local => 0,
            Category::Internet => 1,
            Category::BrokerOrigin => 2,
        }
    }

    /// The tier named by a protobuf `category` value, if it names one.
    pub fn from_value(v: i32) -> (r: Option<Category>)
        ensures
            match r {
                Some(c) => c.spec_value() == v,
                None => v != 0 && v != 1 && v != 2,
            },
    {
        if v == 0 {
            Some(Category::Local)
        } else if v == 1 {
            Some(Category::Internet)
        } else if v == 2 {
            Some(Category::BrokerOrigin)
        } else {
            None
        }
    }
}

/// One candidate path to a peer, as relayed during introduction.
#[derive(Clone, Copy, Debug, PartialEq, Eq, Structural)]
pub struct Path {
    pub category: Category,
    pub ipaddr: NetAddr,
}

/// Body of `/carrier.broker.v1/broker/publish`.
#[derive(Clone, Debug)]
pub struct PublishRequest {
    pub xaddr: Vec<u8>,
    pub shadow: Vec<u8>,
}

/// Body of `/carrier.broker.v1/broker/subscribe`.
#[derive(Clone, Debug)]
pub struct SubscribeRequest {
    pub shadow: Vec<u8>,
    pub filter: Vec<u8>,
}

/// Body of `/carrier.broker.v1/broker/connect`: ask the broker to
/// introduce us to `identity`.
#[derive(Clone, Debug)]
pub struct ConnectRequest {
    pub identity: Vec<u8>,
    pub timestamp: u64,
    pub handshake: Vec<u8>,
    pub paths: Vec<Path>,
}

/// The broker's answer on `/broker/connect`.
#[derive(Clone, Debug)]
pub struct ConnectResponse {
    pub ok: bool,
    pub route: u64,
    pub handshake: Vec<u8>,
    pub paths: Vec<Path>,
}

/// A connect request relayed by the broker on `/peer/connect`.
#[derive(Clone, Debug)]
pub struct PeerConnectRequest {
    pub identity: Vec<u8>,
    pub timestamp: u64,
    pub handshake: Vec<u8>,
    pub route: u64,
    pub paths: Vec<Path>,
}

/// Our answer to a relayed connect request.
#[derive(Clone, Debug)]
pub struct PeerConnectResponse {
    pub ok: bool,
    pub handshake: Vec<u8>,
    pub paths: Vec<Path>,
}

/// One change notice on a subscription stream.
#[derive(Clone, Debug)]
pub struct SubscribeChange {
    pub m: Option<SubscribeChangeM>,
}

#[derive(Clone, Debug)]
pub enum SubscribeChangeM {
    Publish(Publish),
    Unpublish(Unpublish),
    Supersede(Supersede),
}

/// A peer appeared under the subscribed shadow.
#[derive(Clone, Debug)]
pub struct Publish {
    pub identity: Vec<u8>,
    pub xaddr: Vec<u8>,
}

/// A peer disappeared from the subscribed shadow.
#[derive(Clone, Debug)]
pub struct Unpublish {
    pub identity: Vec<u8>,
}

/// Another subscriber took over this subscription.
#[derive(Clone, Debug)]
pub struct Supersede {
    pub dummy: bool,
}

} // verus!
