//! The endpoint: the control plane of the multiplexer.
//!
//! The endpoint owns one channel per connected peer, keyed by routing
//! key, tracks connection-setup state on the broker channel, and decides
//! how every engine event is routed. Socket I/O, the reliable channel
//! engine, the Noise handshake, hpack header blocks and protobuf bytes
//! live in an unverified driver loop, which feeds this state machine
//! plain values and performs the actions it decides: the single poll of
//! the driver receives one datagram, updates address state, feeds the
//! engine, and drives every channel to a fixed point through the
//! `on_*` steps below.

use vstd::prelude::*;
use crate::error::Error;
use crate::identity::{Identity, Secret};
use crate::packet::RoutingKey;
use crate::paths::{
    AddressMode, Candidate, addrs_unique, counts_below, datagram_step_ok, spec_migrate,
    spec_upsert, upsert,
};
use crate::proto;
use crate::proto::{Category, NetAddr};

verus! {

/// What the configuration layer hands the endpoint: the caller's secret.
/// Loading and parsing configuration files happens outside this crate.
#[derive(Clone, Debug)]
pub struct Config {
    pub secret: Secret,
}

/// An application-facing handle on one multiplexed stream: the stream's
/// coordinates plus the queue of chunks to be enqueued on the reliable
/// channel. The driver drains the queue to the engine.
#[derive(Debug)]
pub struct Stream {
    pub route: RoutingKey,
    pub stream: u32,
    pub outbox: Vec<Vec<u8>>,
}

/// Bytes each chunk of a long message carries; receivers rely on the
/// length prefix, not on chunk boundaries.
pub const CHUNK_SIZE: usize = 600;

/// The chunks a stream has queued, newest last.
pub open spec fn chunk_views(s: Seq<Vec<u8>>) -> Seq<Seq<u8>> {
    s.map_values(|v: Vec<u8>| v@)
}

/// Protobuf base-128 varint image of a number, least significant group
/// first.
pub open spec fn spec_varint(n: nat) -> Seq<u8>
    decreases n,
{
    if n < 128 {
        seq![n as u8]
    } else {
        seq![(n % 128 + 128) as u8] + spec_varint(n / 128)
    }
}

/// Protobuf image of the length-prefix envelope that introduces a long
/// message: one varint field holding the body length, omitted entirely
/// when the length is zero, as protobuf omits default values.
pub open spec fn spec_proto_header_bytes(len: nat) -> Seq<u8> {
    if len == 0 {
        Seq::empty()
    } else {
        seq![0x08u8] + spec_varint(len)
    }
}

/// `b` cut into pieces of at most `size` bytes, in order.
pub open spec fn spec_chunks(b: Seq<u8>, size: nat) -> Seq<Seq<u8>>
    decreases b.len(),
{
    if size == 0 || b.len() == 0 {
        Seq::empty()
    } else if b.len() <= size {
        seq![b]
    } else {
        seq![b.take(size as int)] + spec_chunks(b.skip(size as int), size)
    }
}

/// The chunks of `b` concatenate back to `b`, and none is longer than
/// `size`: receivers may reassemble by length alone.
pub proof fn lemma_chunks_reassemble(b: Seq<u8>, size: nat)
    requires
        size > 0,
    ensures
        spec_chunks(b, size).flatten() == b,
        forall|i: int|
            0 <= i < spec_chunks(b, size).len() ==> (#[trigger] spec_chunks(b, size)[i]).len()
                <= size,
    decreases b.len(),
{
    let cs = spec_chunks(b, size);
    assert(Seq::<Seq<u8>>::empty().flatten() =~= Seq::<u8>::empty());
    if b.len() == 0 {
        assert(cs =~= Seq::<Seq<u8>>::empty());
        assert(cs.flatten() =~= b);
    } else if b.len() <= size {
        assert(cs =~= seq![b]);
        assert(seq![b].drop_first() =~= Seq::<Seq<u8>>::empty());
        assert(cs.flatten() =~= b);
    } else {
        lemma_chunks_reassemble(b.skip(size as int), size);
        let rest = spec_chunks(b.skip(size as int), size);
        assert(cs =~= seq![b.take(size as int)] + rest);
        assert(cs.drop_first() =~= rest);
        assert(cs.first() == b.take(size as int));
        assert(cs.flatten() =~= b.take(size as int) + rest.flatten());
        assert(b.take(size as int) + b.skip(size as int) =~= b);
        assert forall|i: int| 0 <= i < cs.len() implies (#[trigger] cs[i]).len() <= size by {
            if i > 0 {
                assert(cs[i] == rest[i - 1]);
            }
        }
    }
}

/// Write the varint image of `n`.
fn push_varint(w: &mut Vec<u8>, n: u64)
    ensures
        final(w)@ == old(w)@ + spec_varint(n as nat),
    decreases n,
{
    if n < 128 {
        w.push(n as u8);
        proof {
            assert(w@ =~= old(w)@ + spec_varint(n as nat));
        }
    } else {
        let b: u8 = ((n % 128) + 128) as u8;
        w.push(b);
        let rest = n / 128;
        push_varint(w, rest);
        proof {
            assert(w@ =~= old(w)@ + spec_varint(n as nat));
        }
    }
}

impl Stream {
    pub open spec fn queued(self) -> Seq<Seq<u8>> {
        chunk_views(self.outbox@)
    }

    /// A fresh handle with nothing queued.
    pub fn new(route: RoutingKey, stream: u32) -> (r: Stream)
        ensures
            r.route == route,
            r.stream == stream,
            r.queued() =~= Seq::<Seq<u8>>::empty(),
    {
        Stream { route, stream, outbox: Vec::new() }
    }

    /// Queue raw bytes for the reliable channel under this stream id; no
    /// framing is added.
    pub fn send(&mut self, m: Vec<u8>)
        ensures
            final(self).queued() == old(self).queued().push(m@),
            final(self).route == old(self).route,
            final(self).stream == old(self).stream,
    {
        self.outbox.push(m);
        proof {
            assert(self.queued() =~= old(self).queued().push(m@));
        }
    }

    /// Queue one already-serialised message as a single chunk; meant for
    /// small payloads.
    pub fn small_message(&mut self, m: Vec<u8>)
        ensures
            final(self).queued() == old(self).queued().push(m@),
            final(self).route == old(self).route,
            final(self).stream == old(self).stream,
    {
        self.send(m);
    }

    /// Queue one already-serialised message behind a length-prefix
    /// envelope, the body cut into [`CHUNK_SIZE`]-byte pieces; receivers
    /// reassemble by the envelope's length, not by chunk boundaries.
    pub fn message(&mut self, m: &Vec<u8>)
        ensures
            final(self).queued() == old(self).queued().push(
                spec_proto_header_bytes(m@.len()),
            ) + spec_chunks(m@, CHUNK_SIZE as nat),
            final(self).route == old(self).route,
            final(self).stream == old(self).stream,
    {
        let mut bh: Vec<u8> = Vec::new();
        if m.len() > 0 {
            bh.push(0x08);
            push_varint(&mut bh, m.len() as u64);
        }
        proof {
            assert(bh@ =~= spec_proto_header_bytes(m@.len()));
        }
        self.send(bh);
        let ghost base = self.queued();
        let mut i: usize = 0;
        proof {
            assert(m@.skip(0) =~= m@);
        }
        while i < m.len()
            invariant
                i <= m@.len(),
                self.route == old(self).route,
                self.stream == old(self).stream,
                self.queued() + spec_chunks(m@.skip(i as int), CHUNK_SIZE as nat) == base
                    + spec_chunks(m@, CHUNK_SIZE as nat),
            decreases m@.len() - i,
        {
            let upto = if m.len() - i > CHUNK_SIZE {
                i + CHUNK_SIZE
            } else {
                m.len()
            };
            let mut g: Vec<u8> = Vec::new();
            let mut j: usize = i;
            while j < upto
                invariant
                    i <= j <= upto <= m@.len(),
                    g@ == m@.subrange(i as int, j as int),
                decreases upto - j,
            {
                g.push(m[j]);
                proof {
                    assert(g@ =~= m@.subrange(i as int, j + 1));
                }
                j = j + 1;
            }
            let ghost qpre = self.queued();
            let ghost rest = m@.skip(i as int);
            proof {
                if rest.len() > CHUNK_SIZE {
                    assert(g@ =~= rest.take(CHUNK_SIZE as int));
                    assert(m@.skip(upto as int) =~= rest.skip(CHUNK_SIZE as int));
                    assert(spec_chunks(rest, CHUNK_SIZE as nat) == seq![g@] + spec_chunks(
                        m@.skip(upto as int),
                        CHUNK_SIZE as nat,
                    ));
                } else {
                    assert(g@ =~= rest);
                    assert(m@.skip(upto as int) =~= Seq::<u8>::empty());
                    assert(spec_chunks(rest, CHUNK_SIZE as nat) == seq![g@]);
                    assert(spec_chunks(m@.skip(upto as int), CHUNK_SIZE as nat)
                        =~= Seq::<Seq<u8>>::empty());
                }
                assert((qpre.push(g@)) + spec_chunks(m@.skip(upto as int), CHUNK_SIZE as nat)
                    =~= qpre + (seq![g@] + spec_chunks(m@.skip(upto as int), CHUNK_SIZE as nat)));
            }
            self.send(g);
            i = upto;
        }
        proof {
            assert(m@.skip(m@.len() as int) =~= Seq::<u8>::empty());
            assert(spec_chunks(m@.skip(m@.len() as int), CHUNK_SIZE as nat)
                =~= Seq::<Seq<u8>>::empty());
            assert(self.queued() + Seq::<Seq<u8>>::empty() =~= self.queued());
        }
    }

    /// Hand the queued chunks to the driver, leaving the queue empty.
    pub fn take_outbox(&mut self) -> (r: Vec<Vec<u8>>)
        ensures
            chunk_views(r@) == old(self).queued(),
            final(self).queued() =~= Seq::<Seq<u8>>::empty(),
            final(self).route == old(self).route,
            final(self).stream == old(self).stream,
    {
        let mut out: Vec<Vec<u8>> = Vec::new();
        core::mem::swap(&mut self.outbox, &mut out);
        out
    }
}

/// One channel to a peer: its identity, where to send, which streams
/// have registered handlers, and whether a factory for peer-opened
/// streams was supplied.
#[derive(Debug)]
pub struct UdpChannel {
    pub route: RoutingKey,
    pub identity: Identity,
    pub addrs: AddressMode,
    pub streams: Vec<u32>,
    pub has_factory: bool,
}

/// Where an outgoing connect stands: the broker's stream headers are
/// awaited first, then the `ConnectResponse` body. `noise` is the
/// driver's handle on the half-completed handshake.
#[derive(Debug)]
pub enum ConnectResponseStage {
    WaitingForHeaders { identity: Identity, noise: u64 },
    WaitingForResponse { identity: Identity, noise: u64 },
}

impl ConnectResponseStage {
    pub open spec fn spec_identity(self) -> Identity {
        match self {
            ConnectResponseStage::WaitingForHeaders { identity, .. } => identity,
            ConnectResponseStage::WaitingForResponse { identity, .. } => identity,
        }
    }

    pub open spec fn spec_noise(self) -> u64 {
        match self {
            ConnectResponseStage::WaitingForHeaders { noise, .. } => noise,
            ConnectResponseStage::WaitingForResponse { noise, .. } => noise,
        }
    }
}

/// One entry of the outgoing-connect table, keyed by broker stream id.
#[derive(Debug)]
pub struct OutgoingEntry {
    pub stream: u32,
    pub stage: ConnectResponseStage,
}

/// A validated incoming connect, handed to the caller for `accept_incomming`
/// or `reject`. `responder` is the driver's handle on the half-completed
/// handshake.
#[derive(Debug)]
pub struct ConnectRequest {
    pub qstream: u32,
    pub identity: Identity,
    pub responder: u64,
    pub cr: proto::PeerConnectRequest,
}

/// The outcome of an outgoing connect: the broker's answer and the
/// driver's handshake handle, both absent when the attempt failed.
#[derive(Debug)]
pub struct ConnectResponse {
    pub identity: Identity,
    pub cr: Option<proto::ConnectResponse>,
    pub requester: Option<u64>,
}

/// What a poll of the endpoint surfaces to the caller.
#[derive(Debug)]
pub enum Event {
    IncommingConnect(ConnectRequest),
    OutgoingConnect(ConnectResponse),
    Disconnect { route: RoutingKey, identity: Identity },
}

/// One raw payload queued for the reliable channel engine.
#[derive(Debug)]
pub struct OutFrame {
    pub route: RoutingKey,
    pub stream: u32,
    pub msg: Vec<u8>,
}

/// The header paths the broker channel distinguishes; the driver decodes
/// the hpack block and classifies the `:path` pseudo-header.
#[derive(Clone, Copy, Debug, PartialEq, Eq, Structural)]
pub enum BrokerPath {
    /// `/carrier.broker.v1/peer/connect`
    PeerConnect,
    /// Any other path.
    Other,
}

/// What the driver must do with a stream's opening headers.
#[derive(Clone, Copy, Debug, PartialEq, Eq, Structural)]
pub enum HeaderDisposition {
    /// Broker channel, peer-connect path: the stream is now
    /// incoming-pending; answer with ok headers.
    RecordIncoming,
    /// Broker channel, any other path: answer with not-found headers.
    RejectUnknownPath,
    /// A peer channel with a factory: offer the stream to it, then
    /// either `open` or close the stream.
    ConsultFactory,
    /// A peer channel without a factory: nothing to do.
    NoFactory,
    /// No channel under this route: drop.
    UnknownRoute,
}

/// What the driver must do with a received stream frame.
#[derive(Clone, Copy, Debug, PartialEq, Eq, Structural)]
pub enum StreamDisposition {
    /// Decode the frame as a `PeerConnectRequest` and validate it with
    /// `peer_connect_request`; on failure send a negative
    /// `PeerConnectResponse` and close the stream.
    DecodePeerConnect,
    /// An outgoing connect got its headers; the response body is next.
    OutgoingAdvanced,
    /// An outgoing connect is complete: decode the frame as a
    /// `ConnectResponse`, close the stream, and surface
    /// `Event::OutgoingConnect` with this identity and handshake handle.
    OutgoingComplete { noise: u64 },
    /// Hand the frame to the registered handler's inbox and wake it.
    Deliver,
    /// No handler registered: drop the frame.
    DropFrame,
}

/// A channel holds `route`.
pub open spec fn has_route(s: Seq<UdpChannel>, route: RoutingKey) -> bool {
    exists|i: int| 0 <= i < s.len() && (#[trigger] s[i]).route == route
}

/// No two channels share a route.
pub open spec fn routes_unique(s: Seq<UdpChannel>) -> bool {
    forall|i: int, j: int|
        0 <= i < j < s.len() ==> (#[trigger] s[i]).route != (#[trigger] s[j]).route
}

/// An outgoing-connect entry exists for `stream`.
pub open spec fn outgoing_has(s: Seq<OutgoingEntry>, stream: u32) -> bool {
    exists|i: int| 0 <= i < s.len() && (#[trigger] s[i]).stream == stream
}

/// No two outgoing-connect entries share a stream id.
pub open spec fn outgoing_unique(s: Seq<OutgoingEntry>) -> bool {
    forall|i: int, j: int|
        0 <= i < j < s.len() ==> (#[trigger] s[i]).stream != (#[trigger] s[j]).stream
}

/// No stream id repeats.
pub open spec fn streams_unique(s: Seq<u32>) -> bool {
    forall|i: int, j: int| 0 <= i < j < s.len() ==> (#[trigger] s[i]) != (#[trigger] s[j])
}

/// The endpoint multiplexer's control state.
pub struct Endpoint {
    pub channels: Vec<UdpChannel>,
    pub broker_route: RoutingKey,
    pub secret: Secret,
    pub outstanding_connect_incomming: Vec<u32>,
    pub outstanding_connect_outgoing: Vec<OutgoingEntry>,
    pub publish_secret: Option<Secret>,
    pub outbox: Vec<OutFrame>,
}

impl Endpoint {
    pub open spec fn wf(self) -> bool {
        &&& routes_unique(self.channels@)
        &&& outgoing_unique(self.outstanding_connect_outgoing@)
        &&& streams_unique(self.outstanding_connect_incomming@)
        &&& forall|i: int|
            0 <= i < self.channels@.len() ==> (#[trigger] self.channels@[i]).addrs.wf()
                && streams_unique(self.channels@[i].streams@)
    }

    /// Everything but the channel table is as in `other`.
    pub open spec fn same_but_channels(self, other: Endpoint) -> bool {
        &&& self.broker_route == other.broker_route
        &&& self.secret == other.secret
        &&& self.outstanding_connect_incomming == other.outstanding_connect_incomming
        &&& self.outstanding_connect_outgoing == other.outstanding_connect_outgoing
        &&& self.publish_secret == other.publish_secret
        &&& self.outbox == other.outbox
    }

    /// A fresh endpoint around the completed broker handshake: one
    /// established channel to the broker, nothing else outstanding.
    pub fn new(
        broker_route: RoutingKey,
        identity: Identity,
        addr: NetAddr,
        secret: Secret,
    ) -> (r: Endpoint)
        ensures
            r.wf(),
            r.broker_route == broker_route,
            r.secret == secret,
            r.channels@.len() == 1,
            r.channels@[0].route == broker_route,
            r.channels@[0].identity == identity,
            r.channels@[0].addrs == AddressMode::Established(
                addr,
                r.channels@[0].addrs->Established_1,
            ),
            r.channels@[0].addrs->Established_1@.len() == 0,
            r.channels@[0].streams@.len() == 0,
            !r.channels@[0].has_factory,
            r.outstanding_connect_incomming@.len() == 0,
            r.outstanding_connect_outgoing@.len() == 0,
            r.publish_secret is None,
            r.outbox@.len() == 0,
    {
        let mut channels: Vec<UdpChannel> = Vec::new();
        channels.push(
            UdpChannel {
                route: broker_route,
                identity,
                addrs: AddressMode::Established(addr, Vec::new()),
                streams: Vec::new(),
                has_factory: false,
            },
        );
        Endpoint {
            channels,
            broker_route,
            secret,
            outstanding_connect_incomming: Vec::new(),
            outstanding_connect_outgoing: Vec::new(),
            publish_secret: None,
            outbox: Vec::new(),
        }
    }

    /// The routing key of the broker channel.
    pub fn broker(&self) -> (r: RoutingKey)
        ensures
            r == self.broker_route,
    {
        self.broker_route
    }

    /// Linear search for the channel keyed by `route`.
    fn find_channel(&self, route: RoutingKey) -> (r: Option<usize>)
        ensures
            match r {
                Some(i) => i < self.channels@.len() && self.channels@[i as int].route == route,
                None => !has_route(self.channels@, route),
            },
    {
        let mut i: usize = 0;
        while i < self.channels.len()
            invariant
                i <= self.channels@.len(),
                forall|k: int| 0 <= k < i ==> (#[trigger] self.channels@[k]).route != route,
            decreases self.channels@.len() - i,
        {
            if self.channels[i].route == route {
                return Some(i);
            }
            i = i + 1;
        }
        None
    }

    /// Linear search for the outgoing-connect entry keyed by `stream`.
    fn find_outgoing(&self, stream: u32) -> (r: Option<usize>)
        ensures
            match r {
                Some(i) => i < self.outstanding_connect_outgoing@.len()
                    && self.outstanding_connect_outgoing@[i as int].stream == stream,
                None => !outgoing_has(self.outstanding_connect_outgoing@, stream),
            },
    {
        let mut i: usize = 0;
        while i < self.outstanding_connect_outgoing.len()
            invariant
                i <= self.outstanding_connect_outgoing@.len(),
                forall|k: int|
                    0 <= k < i ==> (#[trigger] self.outstanding_connect_outgoing@[k]).stream
                        != stream,
            decreases self.outstanding_connect_outgoing@.len() - i,
        {
            if self.outstanding_connect_outgoing[i].stream == stream {
                return Some(i);
            }
            i = i + 1;
        }
        None
    }

    /// Linear search in the incoming-pending set.
    fn find_incoming(&self, stream: u32) -> (r: Option<usize>)
        ensures
            match r {
                Some(i) => i < self.outstanding_connect_incomming@.len()
                    && self.outstanding_connect_incomming@[i as int] == stream,
                None => !self.outstanding_connect_incomming@.contains(stream),
            },
    {
        let mut i: usize = 0;
        while i < self.outstanding_connect_incomming.len()
            invariant
                i <= self.outstanding_connect_incomming@.len(),
                forall|k: int|
                    0 <= k < i ==> (#[trigger] self.outstanding_connect_incomming@[k]) != stream,
            decreases self.outstanding_connect_incomming@.len() - i,
        {
            if self.outstanding_connect_incomming[i] == stream {
                return Some(i);
            }
            i = i + 1;
        }
        None
    }
}

/// The candidate set seeded from relayed paths, in relay order, later
/// records of an address replacing earlier ones.
pub open spec fn spec_seed_paths(paths: Seq<proto::Path>) -> Seq<Candidate>
    decreases paths.len(),
{
    if paths.len() == 0 {
        Seq::empty()
    } else {
        spec_upsert(
            spec_seed_paths(paths.drop_last()),
            paths.last().ipaddr,
            paths.last().category,
        )
    }
}

/// The seeded candidate set with the broker's observed source address
/// recorded under `BrokerOrigin`, where one is known.
pub open spec fn spec_seed_with_origin(
    paths: Seq<proto::Path>,
    origin: Option<NetAddr>,
) -> Seq<Candidate> {
    match origin {
        Some(a) => spec_upsert(spec_seed_paths(paths), a, Category::BrokerOrigin),
        None => spec_seed_paths(paths),
    }
}

/// The broker channel's established address, if the broker channel
/// exists and has settled.
pub open spec fn spec_broker_origin(e: Endpoint) -> Option<NetAddr> {
    if exists|i: int|
        0 <= i < e.channels@.len() && (#[trigger] e.channels@[i]).route == e.broker_route
            && e.channels@[i].addrs is Established {
        let i = choose|i: int|
            0 <= i < e.channels@.len() && (#[trigger] e.channels@[i]).route == e.broker_route
                && e.channels@[i].addrs is Established;
        Some(e.channels@[i].addrs->Established_0)
    } else {
        None
    }
}

/// Build the candidate set a new channel starts discovery with.
fn seed_candidates(paths: &Vec<proto::Path>, origin: Option<NetAddr>) -> (r: Vec<Candidate>)
    ensures
        r@ == spec_seed_with_origin(paths@, origin),
        addrs_unique(r@),
        counts_below(r@),
{
    let mut out: Vec<Candidate> = Vec::new();
    let mut i: usize = 0;
    proof {
        assert(paths@.take(0) =~= Seq::<proto::Path>::empty());
    }
    while i < paths.len()
        invariant
            i <= paths@.len(),
            out@ == spec_seed_paths(paths@.take(i as int)),
            addrs_unique(out@),
            counts_below(out@),
        decreases paths@.len() - i,
    {
        let p = paths[i];
        upsert(&mut out, p.ipaddr, p.category);
        proof {
            assert(paths@.take(i + 1).drop_last() =~= paths@.take(i as int));
            assert(paths@.take(i + 1).last() == paths@[i as int]);
        }
        i = i + 1;
    }
    proof {
        assert(paths@.take(paths@.len() as int) =~= paths@);
    }
    match origin {
        Some(a) => {
            upsert(&mut out, a, Category::BrokerOrigin);
        },
        None => {},
    }
    out
}

/// Removing one entry of a unique-keyed table keeps it unique, keeps
/// every other entry, and drops exactly that key.
proof fn lemma_outgoing_remove(s: Seq<OutgoingEntry>, idx: int)
    requires
        outgoing_unique(s),
        0 <= idx < s.len(),
    ensures
        outgoing_unique(s.remove(idx)),
        forall|x: u32|
            outgoing_has(s.remove(idx), x) <==> (outgoing_has(s, x) && x != s[idx].stream),
        forall|k: int| 0 <= k < s.remove(idx).len() ==> s.contains(#[trigger] s.remove(idx)[k]),
{
    let t = s.remove(idx);
    assert(forall|k: int| 0 <= k < idx ==> t[k] == s[k]);
    assert(forall|k: int| idx <= k < t.len() ==> t[k] == s[k + 1]);
    assert forall|k: int| 0 <= k < t.len() implies s.contains(#[trigger] t[k]) by {
        if k < idx {
            assert(t[k] == s[k]);
        } else {
            assert(t[k] == s[k + 1]);
        }
    }
    assert forall|x: u32| outgoing_has(t, x) implies (outgoing_has(s, x) && x
        != s[idx].stream) by {
        let k = choose|k: int| 0 <= k < t.len() && (#[trigger] t[k]).stream == x;
        if k < idx {
            assert(s[k].stream == x);
        } else {
            assert(s[k + 1].stream == x);
        }
    }
    assert forall|x: u32| (outgoing_has(s, x) && x != s[idx].stream) implies outgoing_has(
        t,
        x,
    ) by {
        let k = choose|k: int| 0 <= k < s.len() && (#[trigger] s[k]).stream == x;
        if k < idx {
            assert(t[k].stream == x);
        } else {
            assert(t[k - 1].stream == x);
        }
    }
}

/// The same for the incoming-pending set of stream ids.
proof fn lemma_incoming_remove(s: Seq<u32>, idx: int)
    requires
        streams_unique(s),
        0 <= idx < s.len(),
    ensures
        streams_unique(s.remove(idx)),
        forall|x: u32| s.remove(idx).contains(x) <==> (s.contains(x) && x != s[idx]),
{
    let t = s.remove(idx);
    assert(forall|k: int| 0 <= k < idx ==> t[k] == s[k]);
    assert(forall|k: int| idx <= k < t.len() ==> t[k] == s[k + 1]);
    assert forall|x: u32| t.contains(x) implies (s.contains(x) && x != s[idx]) by {
        let k = choose|k: int| 0 <= k < t.len() && t[k] == x;
        if k < idx {
            assert(s[k] == x);
        } else {
            assert(s[k + 1] == x);
        }
    }
    assert forall|x: u32| (s.contains(x) && x != s[idx]) implies t.contains(x) by {
        let k = choose|k: int| 0 <= k < s.len() && s[k] == x;
        if k < idx {
            assert(t[k] == x);
        } else {
            assert(t[k - 1] == x);
        }
    }
}

/// The same for the channel table, keyed by route.
proof fn lemma_channel_remove(s: Seq<UdpChannel>, idx: int)
    requires
        routes_unique(s),
        0 <= idx < s.len(),
    ensures
        routes_unique(s.remove(idx)),
        forall|x: RoutingKey|
            has_route(s.remove(idx), x) <==> (has_route(s, x) && x != s[idx].route),
        forall|k: int| 0 <= k < s.remove(idx).len() ==> s.contains(#[trigger] s.remove(idx)[k]),
{
    let t = s.remove(idx);
    assert(forall|k: int| 0 <= k < idx ==> t[k] == s[k]);
    assert(forall|k: int| idx <= k < t.len() ==> t[k] == s[k + 1]);
    assert forall|k: int| 0 <= k < t.len() implies s.contains(#[trigger] t[k]) by {
        if k < idx {
            assert(t[k] == s[k]);
        } else {
            assert(t[k] == s[k + 1]);
        }
    }
    assert forall|x: RoutingKey| has_route(t, x) implies (has_route(s, x) && x
        != s[idx].route) by {
        let k = choose|k: int| 0 <= k < t.len() && (#[trigger] t[k]).route == x;
        if k < idx {
            assert(s[k].route == x);
        } else {
            assert(s[k + 1].route == x);
        }
    }
    assert forall|x: RoutingKey| (has_route(s, x) && x != s[idx].route) implies has_route(
        t,
        x,
    ) by {
        let k = choose|k: int| 0 <= k < s.len() && (#[trigger] s[k]).route == x;
        if k < idx {
            assert(t[k].route == x);
        } else {
            assert(t[k - 1].route == x);
        }
    }
}

/// The outgoing table of `post` is that of `pre` with the entry for
/// `stream` now holding `stage`, other entries untouched.
pub open spec fn outgoing_upserted_ok(
    pre: Seq<OutgoingEntry>,
    post: Seq<OutgoingEntry>,
    stream: u32,
    stage: ConnectResponseStage,
) -> bool {
    &&& outgoing_has(post, stream)
    &&& forall|k: int|
        0 <= k < post.len() && (#[trigger] post[k]).stream == stream ==> post[k].stage == stage
    &&& forall|x: u32| x != stream ==> (outgoing_has(post, x) <==> outgoing_has(pre, x))
    &&& forall|k: int|
        0 <= k < post.len() && (#[trigger] post[k]).stream != stream ==> pre.contains(post[k])
}

/// The outgoing table of `post` is that of `pre` without the entry for
/// `stream`.
pub open spec fn outgoing_removed_ok(
    pre: Seq<OutgoingEntry>,
    post: Seq<OutgoingEntry>,
    stream: u32,
) -> bool {
    &&& forall|x: u32| outgoing_has(post, x) <==> (outgoing_has(pre, x) && x != stream)
    &&& forall|k: int| 0 <= k < post.len() ==> pre.contains(#[trigger] post[k])
}

/// The channel table of `post` is that of `pre` with `chan` in the slot
/// of its route, other channels untouched.
pub open spec fn channel_installed_ok(
    pre: Seq<UdpChannel>,
    post: Seq<UdpChannel>,
    chan: UdpChannel,
) -> bool {
    &&& has_route(post, chan.route)
    &&& forall|i: int|
        0 <= i < post.len() && (#[trigger] post[i]).route == chan.route ==> post[i] == chan
    &&& forall|i: int|
        0 <= i < post.len() && (#[trigger] post[i]).route != chan.route ==> pre.contains(post[i])
    &&& forall|x: RoutingKey|
        x != chan.route ==> (has_route(post, x) <==> has_route(pre, x))
}

/// The channel installed on a successful connect acceptance: the peer's
/// identity under the given route, discovering among the relayed paths
/// plus the broker origin, with a stream factory and no streams yet.
pub open spec fn accepted_channel_ok(
    pre: Endpoint,
    post: Endpoint,
    route: RoutingKey,
    identity: Identity,
    paths: Seq<proto::Path>,
) -> bool {
    &&& has_route(post.channels@, route)
    &&& forall|i: int|
        0 <= i < post.channels@.len() && (#[trigger] post.channels@[i]).route == route ==> {
            let c = post.channels@[i];
            &&& c.identity == identity
            &&& c.has_factory
            &&& c.streams@.len() == 0
            &&& c.addrs is Discovering
            &&& c.addrs->Discovering_0@ == spec_seed_with_origin(paths, spec_broker_origin(pre))
        }
    &&& forall|i: int|
        0 <= i < post.channels@.len() && (#[trigger] post.channels@[i]).route != route
            ==> pre.channels@.contains(post.channels@[i])
    &&& forall|x: RoutingKey|
        x != route ==> (has_route(post.channels@, x) <==> has_route(pre.channels@, x))
    &&& post.same_but_channels(pre)
}

/// A handler is registered for `stream` on the channel keyed `route`.
pub open spec fn handler_registered(e: Endpoint, route: RoutingKey, stream: u32) -> bool {
    exists|i: int|
        0 <= i < e.channels@.len() && (#[trigger] e.channels@[i]).route == route
            && e.channels@[i].streams@.contains(stream)
}

/// What `open` leaves behind: the channel keyed `route` also registers
/// `stream_id`; everything else stands.
pub open spec fn open_step_ok(
    pre: Endpoint,
    post: Endpoint,
    route: RoutingKey,
    stream_id: u32,
) -> bool {
    &&& post.channels@.len() == pre.channels@.len()
    &&& forall|i: int|
        0 <= i < post.channels@.len() ==> {
            let c = #[trigger] post.channels@[i];
            let c0 = pre.channels@[i];
            &&& c.route == c0.route
            &&& c.identity == c0.identity
            &&& c.addrs == c0.addrs
            &&& c.has_factory == c0.has_factory
            &&& (c0.route == route ==> c.streams@.contains(stream_id) && (forall|x: u32|
                x != stream_id ==> (c.streams@.contains(x) <==> c0.streams@.contains(x))))
            &&& (c0.route != route ==> c.streams == c0.streams)
        }
    &&& post.same_but_channels(pre)
}

/// What noting a datagram leaves behind: only the addressed channel's
/// address mode steps, by the discovery rule.
pub open spec fn note_step_ok(
    pre: Endpoint,
    post: Endpoint,
    route: RoutingKey,
    from: NetAddr,
) -> bool {
    &&& post.channels@.len() == pre.channels@.len()
    &&& forall|i: int|
        0 <= i < post.channels@.len() ==> {
            let c = #[trigger] post.channels@[i];
            let c0 = pre.channels@[i];
            &&& c.route == c0.route
            &&& c.identity == c0.identity
            &&& c.streams == c0.streams
            &&& c.has_factory == c0.has_factory
            &&& (c0.route == route ==> datagram_step_ok(c0.addrs, c.addrs, from))
            &&& (c0.route != route ==> c.addrs == c0.addrs)
        }
    &&& post.same_but_channels(pre)
}

/// What the migration rule leaves behind: only the addressed channel's
/// address mode steps, by the migration rule.
pub open spec fn migrate_step_ok(
    pre: Endpoint,
    post: Endpoint,
    route: RoutingKey,
    from: NetAddr,
) -> bool {
    &&& post.channels@.len() == pre.channels@.len()
    &&& forall|i: int|
        0 <= i < post.channels@.len() ==> {
            let c = #[trigger] post.channels@[i];
            let c0 = pre.channels@[i];
            &&& c.route == c0.route
            &&& c.identity == c0.identity
            &&& c.streams == c0.streams
            &&& c.has_factory == c0.has_factory
            &&& (c0.route == route ==> c.addrs == spec_migrate(c0.addrs, from))
            &&& (c0.route != route ==> c.addrs == c0.addrs)
        }
    &&& post.same_but_channels(pre)
}

/// How a stream's opening headers are routed and what they change.
///
/// On the broker channel only the peer-connect path is served: the
/// stream becomes incoming-pending and gets ok headers back, anything
/// else gets not-found headers. On a peer channel the factory is
/// consulted where one was given. Unknown routes are dropped.
pub open spec fn header_step_ok(
    pre: Endpoint,
    post: Endpoint,
    route: RoutingKey,
    stream: u32,
    path: BrokerPath,
    r: HeaderDisposition,
) -> bool {
    &&& post.channels == pre.channels
    &&& post.broker_route == pre.broker_route
    &&& post.secret == pre.secret
    &&& post.outstanding_connect_outgoing == pre.outstanding_connect_outgoing
    &&& post.publish_secret == pre.publish_secret
    &&& post.outbox == pre.outbox
    &&& !has_route(pre.channels@, route) ==> r == HeaderDisposition::UnknownRoute && post == pre
    &&& has_route(pre.channels@, route) && route == pre.broker_route ==> if path
        == BrokerPath::PeerConnect {
        &&& r == HeaderDisposition::RecordIncoming
        &&& post.outstanding_connect_incomming@.contains(stream)
        &&& forall|x: u32|
            x != stream ==> (post.outstanding_connect_incomming@.contains(x)
                <==> pre.outstanding_connect_incomming@.contains(x))
    } else {
        r == HeaderDisposition::RejectUnknownPath && post == pre
    }
    &&& has_route(pre.channels@, route) && route != pre.broker_route ==> post == pre && (forall|
        i: int,
    |
        0 <= i < pre.channels@.len() && (#[trigger] pre.channels@[i]).route == route ==> r == (
        if pre.channels@[i].has_factory {
            HeaderDisposition::ConsultFactory
        } else {
            HeaderDisposition::NoFactory
        }))
}

/// How `on_receive_stream` routes one frame and what it leaves behind.
///
/// A broker-channel stream in the incoming-pending set leaves that set;
/// with a publish secret held its frame is then a relayed connect to
/// decode. Failing that, a pending outgoing connect advances from
/// awaiting headers to awaiting the response, or completes and leaves
/// the table. Anything else is delivered to the registered handler, or
/// dropped.
pub open spec fn receive_stream_step_ok(
    pre: Endpoint,
    post: Endpoint,
    route: RoutingKey,
    stream: u32,
    r: StreamDisposition,
) -> bool {
    let was_incoming = route == pre.broker_route
        && pre.outstanding_connect_incomming@.contains(stream);
    let was_outgoing = route == pre.broker_route && outgoing_has(
        pre.outstanding_connect_outgoing@,
        stream,
    );
    let decode = was_incoming && pre.publish_secret is Some;
    &&& post.channels == pre.channels
    &&& post.broker_route == pre.broker_route
    &&& post.secret == pre.secret
    &&& post.publish_secret == pre.publish_secret
    &&& post.outbox == pre.outbox
    &&& route != pre.broker_route ==> post == pre
    &&& was_incoming ==> forall|x: u32|
        post.outstanding_connect_incomming@.contains(x) <==> (
        pre.outstanding_connect_incomming@.contains(x) && x != stream)
    &&& !was_incoming ==> post.outstanding_connect_incomming == pre.outstanding_connect_incomming
    &&& decode ==> r == StreamDisposition::DecodePeerConnect && post.outstanding_connect_outgoing
        == pre.outstanding_connect_outgoing
    &&& !decode && was_outgoing ==> forall|i: int|
        0 <= i < pre.outstanding_connect_outgoing@.len() && (#[trigger] pre
            .outstanding_connect_outgoing@[i]).stream == stream ==> match pre
            .outstanding_connect_outgoing@[i].stage {
            ConnectResponseStage::WaitingForHeaders { identity, noise } => r
                == StreamDisposition::OutgoingAdvanced && outgoing_upserted_ok(
                pre.outstanding_connect_outgoing@,
                post.outstanding_connect_outgoing@,
                stream,
                ConnectResponseStage::WaitingForResponse { identity, noise },
            ),
            ConnectResponseStage::WaitingForResponse { noise, .. } => r == (
            StreamDisposition::OutgoingComplete { noise }) && outgoing_removed_ok(
                pre.outstanding_connect_outgoing@,
                post.outstanding_connect_outgoing@,
                stream,
            ),
        }
    &&& !decode && !was_outgoing ==> post.outstanding_connect_outgoing
        == pre.outstanding_connect_outgoing && (r == StreamDisposition::Deliver || r
        == StreamDisposition::DropFrame) && (r == StreamDisposition::Deliver
        <==> handler_registered(pre, route, stream))
}

/// What a close of `stream` on `route` leaves behind: the handler
/// registration goes away, and an outgoing connect still pending on the
/// stream fails, surfacing the target identity with no response and no
/// handshake handle.
pub open spec fn close_step_ok(
    pre: Endpoint,
    post: Endpoint,
    route: RoutingKey,
    stream: u32,
    r: Option<ConnectResponse>,
) -> bool {
    let failing = route == pre.broker_route && outgoing_has(
        pre.outstanding_connect_outgoing@,
        stream,
    );
    &&& post.broker_route == pre.broker_route
    &&& post.secret == pre.secret
    &&& post.outstanding_connect_incomming == pre.outstanding_connect_incomming
    &&& post.publish_secret == pre.publish_secret
    &&& post.outbox == pre.outbox
    &&& post.channels@.len() == pre.channels@.len()
    &&& forall|i: int|
        0 <= i < post.channels@.len() ==> {
            let c = #[trigger] post.channels@[i];
            let c0 = pre.channels@[i];
            &&& c.route == c0.route
            &&& c.identity == c0.identity
            &&& c.addrs == c0.addrs
            &&& c.has_factory == c0.has_factory
            &&& (c0.route == route ==> !c.streams@.contains(stream) && (forall|x: u32|
                x != stream ==> (c.streams@.contains(x) <==> c0.streams@.contains(x))))
            &&& (c0.route != route ==> c.streams == c0.streams)
        }
    &&& failing ==> (match r {
        Some(cr) => cr.cr is None && cr.requester is None && (forall|k: int|
            0 <= k < pre.outstanding_connect_outgoing@.len() && (#[trigger] pre
                .outstanding_connect_outgoing@[k]).stream == stream ==> cr.identity == pre
                .outstanding_connect_outgoing@[k].stage.spec_identity()),
        None => false,
    }) && outgoing_removed_ok(
        pre.outstanding_connect_outgoing@,
        post.outstanding_connect_outgoing@,
        stream,
    )
    &&& !failing ==> r is None && post.outstanding_connect_outgoing
        == pre.outstanding_connect_outgoing
}

/// What a disconnect of `route` leaves behind: the channel is gone and
/// the event names its route and peer identity.
pub open spec fn disconnect_step_ok(
    pre: Endpoint,
    post: Endpoint,
    route: RoutingKey,
    r: Option<Event>,
) -> bool {
    &&& post.same_but_channels(pre)
    &&& !has_route(pre.channels@, route) ==> r is None && post == pre
    &&& has_route(pre.channels@, route) ==> (match r {
        Some(Event::Disconnect { route: r2, identity }) => r2 == route && (forall|i: int|
            0 <= i < pre.channels@.len() && (#[trigger] pre.channels@[i]).route == route
                ==> identity == pre.channels@[i].identity),
        _ => false,
    }) && !has_route(post.channels@, route) && (forall|x: RoutingKey|
        x != route ==> (has_route(post.channels@, x) <==> has_route(pre.channels@, x))) && (
    forall|k: int|
        0 <= k < post.channels@.len() ==> pre.channels@.contains(#[trigger] post.channels@[k]))
}

impl Endpoint {
    /// Begin an outgoing connect to `target`.
    ///
    /// The driver supplies the network time, the handshake packet the
    /// Noise layer produced, the local candidate paths, the broker
    /// stream id it opened on the connect path, and its handle on the
    /// half-completed handshake. The stream is recorded as awaiting the
    /// broker's headers, and the request to send on that stream is
    /// returned.
    pub fn connect(
        &mut self,
        target: Identity,
        timestamp: u64,
        handshake: Vec<u8>,
        paths: Vec<proto::Path>,
        stream_id: u32,
        noise: u64,
    ) -> (r: proto::ConnectRequest)
        requires
            old(self).wf(),
        ensures
            final(self).wf(),
            r.identity@ == target@,
            r.timestamp == timestamp,
            r.handshake == handshake,
            r.paths == paths,
            outgoing_upserted_ok(
                old(self).outstanding_connect_outgoing@,
                final(self).outstanding_connect_outgoing@,
                stream_id,
                ConnectResponseStage::WaitingForHeaders { identity: target, noise },
            ),
            final(self).channels == old(self).channels,
            final(self).broker_route == old(self).broker_route,
            final(self).secret == old(self).secret,
            final(self).outstanding_connect_incomming == old(self).outstanding_connect_incomming,
            final(self).publish_secret == old(self).publish_secret,
            final(self).outbox == old(self).outbox,
    {
        let identity_bytes = target.to_owned_bytes();
        let entry = OutgoingEntry {
            stream: stream_id,
            stage: ConnectResponseStage::WaitingForHeaders { identity: target, noise },
        };
        let ghost pre = self.outstanding_connect_outgoing@;
        match self.find_outgoing(stream_id) {
            Some(i) => {
                self.outstanding_connect_outgoing.set(i, entry);
                proof {
                    let post = self.outstanding_connect_outgoing@;
                    assert(outgoing_has(post, stream_id)) by {
                        assert(post[i as int].stream == stream_id);
                    }
                    assert forall|x: u32| x != stream_id implies (outgoing_has(post, x)
                        <==> outgoing_has(pre, x)) by {
                        if outgoing_has(post, x) {
                            let k = choose|k: int|
                                0 <= k < post.len() && (#[trigger] post[k]).stream == x;
                            assert(pre[k].stream == x);
                        }
                        if outgoing_has(pre, x) {
                            let k = choose|k: int|
                                0 <= k < pre.len() && (#[trigger] pre[k]).stream == x;
                            assert(post[k].stream == x);
                        }
                    }
                }
            },
            None => {
                self.outstanding_connect_outgoing.push(entry);
                proof {
                    let post = self.outstanding_connect_outgoing@;
                    assert(outgoing_has(post, stream_id)) by {
                        assert(post[post.len() - 1].stream == stream_id);
                    }
                    assert forall|x: u32| x != stream_id implies (outgoing_has(post, x)
                        <==> outgoing_has(pre, x)) by {
                        if outgoing_has(post, x) {
                            let k = choose|k: int|
                                0 <= k < post.len() && (#[trigger] post[k]).stream == x;
                            assert(k < pre.len());
                            assert(pre[k].stream == x);
                        }
                        if outgoing_has(pre, x) {
                            let k = choose|k: int|
                                0 <= k < pre.len() && (#[trigger] pre[k]).stream == x;
                            assert(post[k].stream == x);
                        }
                    }
                }
            },
        }
        proto::ConnectRequest { identity: identity_bytes, timestamp, handshake, paths }
    }

    /// Answer a relayed connect negatively; the driver serialises the
    /// response and sends it on the request's broker stream.
    pub fn reject(&mut self, q: ConnectRequest) -> (r: proto::PeerConnectResponse)
        ensures
            *final(self) == *old(self),
            !r.ok,
            r.handshake@.len() == 0,
            r.paths@.len() == 0,
    {
        let _ = q;
        proto::PeerConnectResponse { ok: false, handshake: Vec::new(), paths: Vec::new() }
    }

    /// The negative answer sent when a relayed connect fails validation.
    pub fn peer_connect_failure() -> (r: proto::PeerConnectResponse)
        ensures
            !r.ok,
            r.handshake@.len() == 0,
            r.paths@.len() == 0,
    {
        proto::PeerConnectResponse { ok: false, handshake: Vec::new(), paths: Vec::new() }
    }

    /// Take up the broker's answer to an outgoing connect.
    ///
    /// A missing or negative answer is surfaced as
    /// `OutgoingConnectFailed`. On a positive answer the driver has
    /// already completed the handshake; the recovered identity must be
    /// the one asked for and the transport's route the broker's answer
    /// names (both checked by the driver before calling, since a
    /// mismatch is a security alert or a broker bug and aborts there).
    /// A channel to the peer is installed in discovery mode, seeded with
    /// the relayed paths plus the broker's observed origin.
    pub fn accept_outgoing(
        &mut self,
        q: ConnectResponse,
        hs_identity: &Identity,
        transport_route: RoutingKey,
    ) -> (r: Result<RoutingKey, Error>)
        requires
            old(self).wf(),
            (q.cr is Some && q.requester is Some && q.cr->0.ok) ==> (q.identity@ == hs_identity@
                && q.cr->0.route == transport_route),
        ensures
            final(self).wf(),
            !(q.cr is Some && q.requester is Some) ==> *final(self) == *old(self) && (match r {
                Err(Error::OutgoingConnectFailed { identity, cr }) => identity == q.identity && cr
                    == q.cr,
                _ => false,
            }),
            q.cr is Some && q.requester is Some && !q.cr->0.ok ==> *final(self) == *old(self) && (
            match r {
                Err(Error::OutgoingConnectFailed { identity, cr }) => identity == q.identity && cr
                    == q.cr,
                _ => false,
            }),
            q.cr is Some && q.requester is Some && q.cr->0.ok ==> r == Ok::<RoutingKey, Error>(
                q.cr->0.route,
            ) && accepted_channel_ok(
                *old(self),
                *final(self),
                q.cr->0.route,
                q.identity,
                q.cr->0.paths@,
            ),
    {
        let ConnectResponse { identity, cr, requester } = q;
        let (cr, _requester) = match (cr, requester) {
            (Some(a), Some(b)) => (a, b),
            (cr, _) => {
                return Err(Error::OutgoingConnectFailed { identity, cr });
            },
        };
        if !cr.ok {
            return Err(Error::OutgoingConnectFailed { identity, cr: Some(cr) });
        }
        let origin = self.broker_origin();
        let seeded = seed_candidates(&cr.paths, origin);
        let chan = UdpChannel {
            route: cr.route,
            identity,
            addrs: AddressMode::Discovering(seeded),
            streams: Vec::new(),
            has_factory: true,
        };
        let route = cr.route;
        self.install_channel(chan);
        Ok(route)
    }

    /// Take up a validated incoming connect: install the peer's channel
    /// in discovery mode, seeded with the relayed paths plus the
    /// broker's observed origin, and return the positive answer carrying
    /// the handshake response the driver produced and our local paths.
    pub fn accept_incomming(
        &mut self,
        q: ConnectRequest,
        handshake: Vec<u8>,
        local_paths: Vec<proto::Path>,
    ) -> (r: proto::PeerConnectResponse)
        requires
            old(self).wf(),
        ensures
            final(self).wf(),
            r.ok,
            r.handshake == handshake,
            r.paths == local_paths,
            accepted_channel_ok(*old(self), *final(self), q.cr.route, q.identity, q.cr.paths@),
    {
        let origin = self.broker_origin();
        let seeded = seed_candidates(&q.cr.paths, origin);
        let route = q.cr.route;
        let chan = UdpChannel {
            route,
            identity: q.identity,
            addrs: AddressMode::Discovering(seeded),
            streams: Vec::new(),
            has_factory: true,
        };
        self.install_channel(chan);
        proto::PeerConnectResponse { ok: true, handshake, paths: local_paths }
    }

    /// The broker channel's established address, if it has settled.
    fn broker_origin(&self) -> (r: Option<NetAddr>)
        requires
            self.wf(),
        ensures
            r == spec_broker_origin(*self),
    {
        match self.find_channel(self.broker_route) {
            Some(i) => {
                proof {
                    assert forall|j: int|
                        0 <= j < self.channels@.len() && (#[trigger] self.channels@[j]).route
                            == self.broker_route implies j == i as int by {}
                }
                match &self.channels[i].addrs {
                    AddressMode::Established(a, _) => Some(*a),
                    AddressMode::Discovering(..) => None,
                }
            },
            None => None,
        }
    }

    /// Put `chan` in the table, replacing any channel of the same route.
    fn install_channel(&mut self, chan: UdpChannel)
        requires
            old(self).wf(),
            chan.addrs.wf(),
            streams_unique(chan.streams@),
        ensures
            final(self).wf(),
            channel_installed_ok(old(self).channels@, final(self).channels@, chan),
            final(self).same_but_channels(*old(self)),
    {
        let route = chan.route;
        let ghost pre = self.channels@;
        match self.find_channel(route) {
            Some(i) => {
                self.channels.set(i, chan);
                proof {
                    let post = self.channels@;
                    assert(has_route(post, route)) by {
                        assert(post[i as int].route == route);
                    }
                    assert forall|x: RoutingKey| x != route implies (has_route(post, x)
                        <==> has_route(pre, x)) by {
                        if has_route(post, x) {
                            let k = choose|k: int|
                                0 <= k < post.len() && (#[trigger] post[k]).route == x;
                            assert(pre[k].route == x);
                        }
                        if has_route(pre, x) {
                            let k = choose|k: int|
                                0 <= k < pre.len() && (#[trigger] pre[k]).route == x;
                            assert(post[k].route == x);
                        }
                    }
                }
            },
            None => {
                self.channels.push(chan);
                proof {
                    let post = self.channels@;
                    assert(has_route(post, route)) by {
                        assert(post[post.len() - 1].route == route);
                    }
                    assert forall|x: RoutingKey| x != route implies (has_route(post, x)
                        <==> has_route(pre, x)) by {
                        if has_route(post, x) {
                            let k = choose|k: int|
                                0 <= k < post.len() && (#[trigger] post[k]).route == x;
                            assert(k < pre.len());
                            assert(pre[k].route == x);
                        }
                        if has_route(pre, x) {
                            let k = choose|k: int|
                                0 <= k < pre.len() && (#[trigger] pre[k]).route == x;
                            assert(post[k].route == x);
                        }
                    }
                }
            },
        }
    }

    /// Register a locally opened stream on a channel; the driver has
    /// already opened it on the engine and keeps its handler.
    pub fn open(&mut self, route: RoutingKey, stream_id: u32)
        requires
            old(self).wf(),
            has_route(old(self).channels@, route),
        ensures
            final(self).wf(),
            open_step_ok(*old(self), *final(self), route, stream_id),
    {
        if let Some(i) = self.find_channel(route) {
            let mut found = false;
            let mut k: usize = 0;
            while k < self.channels[i].streams.len()
                invariant
                    0 <= i < self.channels@.len(),
                    k <= self.channels@[i as int].streams@.len(),
                    found <==> exists|j: int|
                        0 <= j < k && (#[trigger] self.channels@[i as int].streams@[j])
                            == stream_id,
                decreases self.channels@[i as int].streams@.len() - k,
            {
                if self.channels[i].streams[k] == stream_id {
                    found = true;
                }
                k = k + 1;
            }
            proof {
                assert forall|j: int|
                    0 <= j < self.channels@.len() && (#[trigger] self.channels@[j]).route
                        == route implies j == i as int by {}
            }
            if !found {
                let ghost spre = self.channels@[i as int].streams@;
                let chan = &mut self.channels[i];
                chan.streams.push(stream_id);
                proof {
                    let snow = self.channels@[i as int].streams@;
                    assert(snow == spre.push(stream_id));
                    assert(snow.contains(stream_id)) by {
                        assert(snow.last() == stream_id);
                    }
                    assert(streams_unique(snow));
                    assert forall|x: u32| x != stream_id implies (snow.contains(x)
                        <==> spre.contains(x)) by {
                        if snow.contains(x) {
                            let j = choose|j: int| 0 <= j < snow.len() && snow[j] == x;
                            assert(j < spre.len());
                            assert(spre[j] == x);
                        }
                        if spre.contains(x) {
                            let j = choose|j: int| 0 <= j < spre.len() && spre[j] == x;
                            assert(snow[j] == x);
                        }
                    }
                }
            } else {
                proof {
                    let s = self.channels@[i as int].streams@;
                    let j = choose|j: int| 0 <= j < s.len() && (#[trigger] s[j]) == stream_id;
                    assert(s.contains(stream_id));
                }
            }
        }
    }

    /// Queue raw bytes for the engine on a stream of a known channel.
    pub fn stream(&mut self, route: RoutingKey, stream: u32, m: Vec<u8>)
        requires
            old(self).wf(),
            has_route(old(self).channels@, route),
        ensures
            final(self).wf(),
            final(self).outbox@ == old(self).outbox@.push(OutFrame { route, stream, msg: m }),
            final(self).channels == old(self).channels,
            final(self).broker_route == old(self).broker_route,
            final(self).secret == old(self).secret,
            final(self).outstanding_connect_incomming == old(self).outstanding_connect_incomming,
            final(self).outstanding_connect_outgoing == old(self).outstanding_connect_outgoing,
            final(self).publish_secret == old(self).publish_secret,
    {
        self.outbox.push(OutFrame { route, stream, msg: m });
    }

    /// Hand the queued engine payloads to the driver.
    pub fn take_outbox(&mut self) -> (r: Vec<OutFrame>)
        ensures
            r@ == old(self).outbox@,
            final(self).outbox@.len() == 0,
            final(self).channels == old(self).channels,
            final(self).broker_route == old(self).broker_route,
            final(self).secret == old(self).secret,
            final(self).outstanding_connect_incomming == old(self).outstanding_connect_incomming,
            final(self).outstanding_connect_outgoing == old(self).outstanding_connect_outgoing,
            final(self).publish_secret == old(self).publish_secret,
    {
        let mut out: Vec<OutFrame> = Vec::new();
        core::mem::swap(&mut self.outbox, &mut out);
        out
    }

    /// Record that the caller publishes: remember (or adopt) the publish
    /// secret, register the broker stream the driver opened on the
    /// publish path, and return the request to send on it.
    pub fn publish(
        &mut self,
        xaddr: Vec<u8>,
        shadow: Vec<u8>,
        fresh_secret: Secret,
        stream_id: u32,
    ) -> (r: proto::PublishRequest)
        requires
            old(self).wf(),
            has_route(old(self).channels@, old(self).broker_route),
        ensures
            final(self).wf(),
            r.xaddr == xaddr,
            r.shadow == shadow,
            final(self).publish_secret == (if old(self).publish_secret is Some {
                old(self).publish_secret
            } else {
                Some(fresh_secret)
            }),
            open_step_ok(
                Endpoint {
                    publish_secret: final(self).publish_secret,
                    ..*old(self)
                },
                *final(self),
                old(self).broker_route,
                stream_id,
            ),
    {
        if self.publish_secret.is_none() {
            self.publish_secret = Some(fresh_secret);
        }
        let broker = self.broker_route;
        self.open(broker, stream_id);
        proto::PublishRequest { xaddr, shadow }
    }

    /// Note one inbound datagram's sender for the channel it routes to,
    /// before the datagram is fed to the engine; an unknown route is
    /// dropped.
    pub fn note_datagram(&mut self, route: RoutingKey, from: NetAddr)
        requires
            old(self).wf(),
        ensures
            final(self).wf(),
            note_step_ok(*old(self), *final(self), route, from),
            !has_route(old(self).channels@, route) ==> *final(self) == *old(self),
    {
        if let Some(i) = self.find_channel(route) {
            let chan = &mut self.channels[i];
            chan.addrs.on_datagram(from);
        }
    }

    /// Apply the migration rule for a datagram from `from` that the
    /// engine accepted on `route`.
    pub fn migrate_channel(&mut self, route: RoutingKey, from: NetAddr)
        requires
            old(self).wf(),
        ensures
            final(self).wf(),
            migrate_step_ok(*old(self), *final(self), route, from),
            !has_route(old(self).channels@, route) ==> *final(self) == *old(self),
    {
        if let Some(i) = self.find_channel(route) {
            let chan = &mut self.channels[i];
            chan.addrs.migrate(from);
        }
    }

    /// The addresses a payload for `route` goes to: every candidate
    /// while discovering, the chosen address once established, nowhere
    /// for an unknown route.
    pub fn send_targets(&self, route: RoutingKey) -> (r: Vec<NetAddr>)
        requires
            self.wf(),
        ensures
            !has_route(self.channels@, route) ==> r@.len() == 0,
            forall|i: int|
                0 <= i < self.channels@.len() && (#[trigger] self.channels@[i]).route == route
                    ==> match self.channels@[i].addrs {
                    AddressMode::Discovering(s) => r@.len() == s@.len() && (forall|k: int|
                        0 <= k < s@.len() ==> r@[k] == (#[trigger] s@[k]).addr),
                    AddressMode::Established(chosen, _) => r@ =~= seq![chosen],
                },
    {
        match self.find_channel(route) {
            Some(i) => {
                proof {
                    assert forall|j: int|
                        0 <= j < self.channels@.len() && (#[trigger] self.channels@[j]).route
                            == route implies j == i as int by {}
                }
                self.channels[i].addrs.send_targets()
            },
            None => Vec::new(),
        }
    }

    /// Decide what to do with a stream's opening headers, delivered by
    /// the engine on `route`; on the broker channel a peer-connect
    /// request becomes incoming-pending.
    pub fn on_receive_header(&mut self, route: RoutingKey, stream: u32, path: BrokerPath) -> (r:
        HeaderDisposition)
        requires
            old(self).wf(),
        ensures
            final(self).wf(),
            header_step_ok(*old(self), *final(self), route, stream, path, r),
    {
        match self.find_channel(route) {
            None => HeaderDisposition::UnknownRoute,
            Some(i) => {
                if route == self.broker_route {
                    if path == BrokerPath::PeerConnect {
                        match self.find_incoming(stream) {
                            Some(_) => {},
                            None => {
                                let ghost pre = self.outstanding_connect_incomming@;
                                self.outstanding_connect_incomming.push(stream);
                                proof {
                                    let now = self.outstanding_connect_incomming@;
                                    assert(now == pre.push(stream));
                                    assert(now.contains(stream)) by {
                                        assert(now.last() == stream);
                                    }
                                    assert(streams_unique(now));
                                    assert forall|x: u32| x != stream implies (now.contains(x)
                                        <==> pre.contains(x)) by {
                                        if now.contains(x) {
                                            let j = choose|j: int|
                                                0 <= j < now.len() && now[j] == x;
                                            assert(j < pre.len());
                                            assert(pre[j] == x);
                                        }
                                        if pre.contains(x) {
                                            let j = choose|j: int|
                                                0 <= j < pre.len() && pre[j] == x;
                                            assert(now[j] == x);
                                        }
                                    }
                                }
                            },
                        }
                        HeaderDisposition::RecordIncoming
                    } else {
                        HeaderDisposition::RejectUnknownPath
                    }
                } else {
                    proof {
                        assert forall|j: int|
                            0 <= j < self.channels@.len() && (#[trigger] self.channels@[j]).route
                                == route implies j == i as int by {}
                    }
                    if self.channels[i].has_factory {
                        HeaderDisposition::ConsultFactory
                    } else {
                        HeaderDisposition::NoFactory
                    }
                }
            },
        }
    }

    /// Decide what to do with a received stream frame; see
    /// [`receive_stream_step_ok`].
    pub fn on_receive_stream(&mut self, route: RoutingKey, stream: u32) -> (r: StreamDisposition)
        requires
            old(self).wf(),
        ensures
            final(self).wf(),
            receive_stream_step_ok(*old(self), *final(self), route, stream, r),
    {
        let is_broker = route == self.broker_route;
        let mut was_incoming = false;
        if is_broker {
            if let Some(i) = self.find_incoming(stream) {
                proof {
                    lemma_incoming_remove(self.outstanding_connect_incomming@, i as int);
                }
                self.outstanding_connect_incomming.remove(i);
                was_incoming = true;
            }
        }
        if was_incoming && self.publish_secret.is_some() {
            return StreamDisposition::DecodePeerConnect;
        }
        if is_broker {
            if let Some(i) = self.find_outgoing(stream) {
                let advance = match &self.outstanding_connect_outgoing[i].stage {
                    ConnectResponseStage::WaitingForHeaders { .. } => true,
                    ConnectResponseStage::WaitingForResponse { .. } => false,
                };
                if advance {
                    let ghost pre = self.outstanding_connect_outgoing@;
                    proof {
                        lemma_outgoing_remove(pre, i as int);
                    }
                    let entry = self.outstanding_connect_outgoing.remove(i);
                    let OutgoingEntry { stream: s2, stage } = entry;
                    let (identity, noise) = match stage {
                        ConnectResponseStage::WaitingForHeaders { identity, noise } => (
                            identity,
                            noise,
                        ),
                        ConnectResponseStage::WaitingForResponse { identity, noise } => (
                            identity,
                            noise,
                        ),
                    };
                    let ghost mid = self.outstanding_connect_outgoing@;
                    self.outstanding_connect_outgoing.push(
                        OutgoingEntry {
                            stream: s2,
                            stage: ConnectResponseStage::WaitingForResponse { identity, noise },
                        },
                    );
                    proof {
                        let now = self.outstanding_connect_outgoing@;
                        assert(now == mid.push(
                            OutgoingEntry {
                                stream: s2,
                                stage: ConnectResponseStage::WaitingForResponse {
                                    identity,
                                    noise,
                                },
                            },
                        ));
                        assert(outgoing_has(now, stream)) by {
                            assert(now[now.len() - 1].stream == stream);
                        }
                        assert forall|x: u32| x != stream implies (outgoing_has(now, x)
                            <==> outgoing_has(pre, x)) by {
                            if outgoing_has(now, x) {
                                let k = choose|k: int|
                                    0 <= k < now.len() && (#[trigger] now[k]).stream == x;
                                assert(k < now.len() - 1);
                                assert(mid.contains(now[k]));
                            }
                            if outgoing_has(pre, x) {
                                assert(outgoing_has(mid, x));
                                let k = choose|k: int|
                                    0 <= k < mid.len() && (#[trigger] mid[k]).stream == x;
                                assert(now[k].stream == x);
                            }
                        }
                        assert forall|k: int|
                            0 <= k < now.len() && (#[trigger] now[k]).stream != stream implies pre
                            .contains(now[k]) by {
                            assert(k < now.len() - 1);
                            assert(mid.contains(now[k]));
                        }
                    }
                    return StreamDisposition::OutgoingAdvanced;
                } else {
                    let noise: u64 = match &self.outstanding_connect_outgoing[i].stage {
                        ConnectResponseStage::WaitingForHeaders { noise, .. } => *noise,
                        ConnectResponseStage::WaitingForResponse { noise, .. } => *noise,
                    };
                    proof {
                        lemma_outgoing_remove(self.outstanding_connect_outgoing@, i as int);
                    }
                    self.outstanding_connect_outgoing.remove(i);
                    return StreamDisposition::OutgoingComplete { noise };
                }
            }
        }
        match self.find_channel(route) {
            Some(i) => {
                let mut k: usize = 0;
                let mut found = false;
                while k < self.channels[i].streams.len()
                    invariant
                        0 <= i < self.channels@.len(),
                        k <= self.channels@[i as int].streams@.len(),
                        found <==> exists|j: int|
                            0 <= j < k && (#[trigger] self.channels@[i as int].streams@[j])
                                == stream,
                    decreases self.channels@[i as int].streams@.len() - k,
                {
                    if self.channels[i].streams[k] == stream {
                        found = true;
                    }
                    k = k + 1;
                }
                if found {
                    proof {
                        assert(handler_registered(*self, route, stream)) by {
                            let j = choose|j: int|
                                0 <= j < self.channels@[i as int].streams@.len() && (
                                #[trigger] self.channels@[i as int].streams@[j]) == stream;
                            assert(self.channels@[i as int].streams@.contains(stream));
                        }
                    }
                    StreamDisposition::Deliver
                } else {
                    proof {
                        assert forall|j: int|
                            0 <= j < self.channels@.len() && (#[trigger] self.channels@[j]).route
                                == route implies j == i as int by {}
                    }
                    StreamDisposition::DropFrame
                }
            },
            None => StreamDisposition::DropFrame,
        }
    }

    /// Note a stream closed by the engine; see [`close_step_ok`].
    pub fn on_close(&mut self, route: RoutingKey, stream: u32) -> (r: Option<ConnectResponse>)
        requires
            old(self).wf(),
        ensures
            final(self).wf(),
            close_step_ok(*old(self), *final(self), route, stream, r),
    {
        if let Some(i) = self.find_channel(route) {
            let mut k: usize = 0;
            let mut at: Option<usize> = None;
            while k < self.channels[i].streams.len()
                invariant
                    0 <= i < self.channels@.len(),
                    k <= self.channels@[i as int].streams@.len(),
                    match at {
                        Some(j) => j < self.channels@[i as int].streams@.len()
                            && self.channels@[i as int].streams@[j as int] == stream,
                        None => forall|j: int|
                            0 <= j < k ==> (#[trigger] self.channels@[i as int].streams@[j])
                                != stream,
                    },
                decreases self.channels@[i as int].streams@.len() - k,
            {
                if self.channels[i].streams[k] == stream {
                    at = Some(k);
                }
                k = k + 1;
            }
            match at {
                Some(j) => {
                    let ghost spre = self.channels@[i as int].streams@;
                    proof {
                        lemma_incoming_remove(spre, j as int);
                    }
                    let chan = &mut self.channels[i];
                    chan.streams.remove(j);
                },
                None => {},
            }
        }
        if route == self.broker_route {
            if let Some(i) = self.find_outgoing(stream) {
                proof {
                    lemma_outgoing_remove(self.outstanding_connect_outgoing@, i as int);
                }
                let entry = self.outstanding_connect_outgoing.remove(i);
                let identity = match entry.stage {
                    ConnectResponseStage::WaitingForHeaders { identity, .. } => identity,
                    ConnectResponseStage::WaitingForResponse { identity, .. } => identity,
                };
                return Some(ConnectResponse { identity, cr: None, requester: None });
            }
        }
        None
    }

    /// Remove a channel whose engine reported disconnection, surfacing
    /// the event to the caller; see [`disconnect_step_ok`].
    pub fn on_disconnect(&mut self, route: RoutingKey) -> (r: Option<Event>)
        requires
            old(self).wf(),
        ensures
            final(self).wf(),
            disconnect_step_ok(*old(self), *final(self), route, r),
    {
        match self.find_channel(route) {
            None => None,
            Some(i) => {
                proof {
                    lemma_channel_remove(self.channels@, i as int);
                }
                let chan = self.channels.remove(i);
                proof {
                    assert forall|k: int|
                        0 <= k < self.channels@.len() implies (#[trigger] self.channels@[k]).addrs.wf()
                            && streams_unique(self.channels@[k].streams@) by {
                        assert(old(self).channels@.contains(self.channels@[k]));
                        let j = choose|j: int|
                            0 <= j < old(self).channels@.len() && old(self).channels@[j]
                                == self.channels@[k];
                        assert(old(self).channels@[j].addrs.wf());
                    }
                }
                Some(Event::Disconnect { route, identity: chan.identity })
            },
        }
    }

    /// Validate a relayed connect request against what the handshake
    /// itself proved.
    ///
    /// The embedded identity must be the one the handshake recovered and
    /// the embedded timestamp the handshake's own; any mismatch is a
    /// security violation and the request is refused.
    pub fn peer_connect_request(
        qstream: u32,
        cr: proto::PeerConnectRequest,
        hs_identity: Identity,
        hs_timestamp: u64,
        responder: u64,
    ) -> (r: Result<ConnectRequest, Error>)
        ensures
            hs_identity@ == cr.identity@ && hs_timestamp == cr.timestamp ==> (match r {
                Ok(q) => q.qstream == qstream && q.identity == hs_identity && q.responder
                    == responder && q.cr == cr,
                Err(_) => false,
            }),
            !(hs_identity@ == cr.identity@ && hs_timestamp == cr.timestamp) ==> (r matches Err(e)
                && e is SecurityViolation),
    {
        if hs_identity.matches_bytes(&cr.identity) && hs_timestamp == cr.timestamp {
            Ok(ConnectRequest { qstream, identity: hs_identity, responder, cr })
        } else {
            Err(Error::SecurityViolation)
        }
    }
}

/// Builds an endpoint from configuration; the bootstrap itself (DNS,
/// socket, handshake retries) is driven outside, against the backoff
/// schedule below.
pub struct EndpointBuilder {
    pub secret: Secret,
}

impl EndpointBuilder {
    pub fn new(config: &Config) -> (r: Result<EndpointBuilder, Error>)
        ensures
            match r {
                Ok(b) => b.secret@ == config.secret@,
                Err(_) => false,
            },
    {
        Ok(EndpointBuilder { secret: config.secret.clone() })
    }

    /// How long to wait after handshake attempt `attempt` on one broker
    /// record: twice as long each time, and after the fourth attempt the
    /// record is abandoned for the next one.
    pub fn connect_backoff_ms(attempt: u32) -> (r: Option<u64>)
        ensures
            attempt == 1 ==> r == Some(400u64),
            attempt == 2 ==> r == Some(800u64),
            attempt == 3 ==> r == Some(1600u64),
            attempt == 4 ==> r == Some(3200u64),
            (attempt == 0 || attempt > 4) ==> r is None,
    {
        if attempt == 1 {
            Some(400)
        } else if attempt == 2 {
            Some(800)
        } else if attempt == 3 {
            Some(1600)
        } else if attempt == 4 {
            Some(3200)
        } else {
            None
        }
    }
}

} // verus!
