//! The wire packet codec: the outer encrypted datagram framing and the
//! inner frame grammar.
//!
//! An outer datagram is a fixed 20-byte header (version, three reserved
//! bytes, routing key with a direction bit, counter) followed by opaque
//! ciphertext. The decrypted ciphertext is a concatenation of frames, each
//! introduced by a one-byte type tag; all integers are big-endian.

use vstd::prelude::*;
use vstd::relations::{sorted_by, total_ordering};
use vstd::seq_lib::lemma_sorted_unique;
use vstd::seq_lib::group_to_multiset_ensures;
use crate::error::Error;
use crate::wire::{
    be16, be32, be64, spec_be_u16, spec_be_u32, spec_be_u64,
    lemma_be16_of_bytes, lemma_be32_of_bytes, lemma_be64_of_bytes,
    push_be_u16, push_be_u32, push_be_u64, read_be_u16, read_be_u32, read_be_u64,
};

verus! {

/// 63-bit channel identifier; the wire carries a 64-bit value whose low
/// bit is the direction bit.
pub type RoutingKey = u64;

/// Wire version of the outer datagram header.
pub const VERSION: u8 = 0x08;

/// Mask that clears the direction bit of a wire routing key.
pub const ROUTE_MASK: u64 = 0xffff_ffff_ffff_fffe;

/// Which way a datagram flows on a channel.
#[derive(Debug, Clone, Copy, PartialEq, Eq, Structural)]
pub enum RoutingDirection {
    Initiator2Responder,
    Responder2Initiator,
}

/// An outer datagram: header fields plus opaque ciphertext.
#[derive(Debug, Clone, PartialEq)]
pub struct EncryptedPacket {
    pub version: u8,
    pub route: RoutingKey,
    pub direction: RoutingDirection,
    pub counter: u64,
    pub payload: Vec<u8>,
}

/// Mathematical image of an [`EncryptedPacket`].
pub struct PacketV {
    pub version: u8,
    pub route: RoutingKey,
    pub direction: RoutingDirection,
    pub counter: u64,
    pub payload: Seq<u8>,
}

impl View for EncryptedPacket {
    type V = PacketV;

    open spec fn view(&self) -> PacketV {
        PacketV {
            version: self.version,
            route: self.route,
            direction: self.direction,
            counter: self.counter,
            payload: self.payload@,
        }
    }
}

impl PacketV {
    /// A packet the codec round-trips: correct version, and the low bit of
    /// the routing key left free for the direction bit.
    pub open spec fn wf(self) -> bool {
        self.version == VERSION && self.route & 1 == 0
    }
}

/// The routing key as it appears on the wire: the direction encoded into
/// the low bit.
pub open spec fn spec_wire_route(route: u64, direction: RoutingDirection) -> u64 {
    match direction {
        RoutingDirection::Initiator2Responder => route & ROUTE_MASK,
        RoutingDirection::Responder2Initiator => route | 1,
    }
}

/// Byte image of an outer datagram.
pub open spec fn spec_packet_bytes(p: PacketV) -> Seq<u8> {
    seq![p.version, 0xffu8, 0xffu8, 0xffu8] + spec_be_u64(spec_wire_route(p.route, p.direction))
        + spec_be_u64(p.counter) + p.payload
}

/// What decoding a byte string yields: the unique packet it spells, or
/// the error that rejects it.
pub open spec fn spec_decode_packet(b: Seq<u8>) -> Result<PacketV, Error> {
    if b.len() < 20 {
        Err(Error::Io)
    } else if !(b[0] == VERSION && b[1] == 0xff && b[2] == 0xff && b[3] == 0xff) {
        Err(Error::InvalidVersion { version: b[0] })
    } else {
        Ok(
            PacketV {
                version: b[0],
                route: be64(b[4], b[5], b[6], b[7], b[8], b[9], b[10], b[11]) & ROUTE_MASK,
                direction: if b[11] & 1 == 1 {
                    RoutingDirection::Responder2Initiator
                } else {
                    RoutingDirection::Initiator2Responder
                },
                counter: be64(b[12], b[13], b[14], b[15], b[16], b[17], b[18], b[19]),
                payload: b.skip(20),
            },
        )
    }
}

impl EncryptedPacket {
    /// Parse an outer datagram.
    ///
    /// Fails with `Io` on fewer than 20 bytes and with `InvalidVersion` on
    /// a bad version or reserved bytes; otherwise recovers every header
    /// field, extracting the direction bit and masking it out of the
    /// routing key.
    pub fn decode(inbuf: &[u8]) -> (r: Result<EncryptedPacket, Error>)
        ensures
            match r {
                Ok(p) => spec_decode_packet(inbuf@) == Ok::<PacketV, Error>(p@),
                Err(e) => spec_decode_packet(inbuf@) == Err::<PacketV, Error>(e),
            },
    {
        if inbuf.len() < 20 {
            return Err(Error::Io);
        }
        let version = inbuf[0];
        if !(version == VERSION && inbuf[1] == 0xff && inbuf[2] == 0xff && inbuf[3] == 0xff) {
            return Err(Error::InvalidVersion { version });
        }
        let wire_route = read_be_u64(inbuf, 4);
        let route = wire_route & ROUTE_MASK;
        let dir_byte = inbuf[11];
        let direction = if dir_byte & 1 == 1 {
            RoutingDirection::Responder2Initiator
        } else {
            RoutingDirection::Initiator2Responder
        };
        let counter = read_be_u64(inbuf, 12);
        let payload = copy_range(inbuf, 20, inbuf.len());
        Ok(EncryptedPacket { version, route, direction, counter, payload })
    }

    /// Serialise an outer datagram; the inverse of `decode` on
    /// well-formed packets.
    pub fn encode(self) -> (r: Vec<u8>)
        ensures
            r@ == spec_packet_bytes(self@),
    {
        let EncryptedPacket { version, route, direction, counter, mut payload } = self;
        let mut w: Vec<u8> = Vec::new();
        w.push(version);
        w.push(0xff);
        w.push(0xff);
        w.push(0xff);
        let wire_route: u64 = match direction {
            RoutingDirection::Initiator2Responder => route & ROUTE_MASK,
            RoutingDirection::Responder2Initiator => route | 1,
        };
        push_be_u64(&mut w, wire_route);
        push_be_u64(&mut w, counter);
        w.append(&mut payload);
        proof {
            assert(w@ =~= spec_packet_bytes(self@));
        }
        w
    }
}

/// Decoding inverts encoding: a well-formed packet is recovered exactly
/// from its own bytes, direction bit and all.
pub proof fn lemma_packet_round_trip(p: PacketV)
    requires
        p.wf(),
    ensures
        spec_decode_packet(spec_packet_bytes(p)) == Ok::<PacketV, Error>(p),
{
    let b = spec_packet_bytes(p);
    let wire = spec_wire_route(p.route, p.direction);
    assert(b =~= seq![p.version, 0xffu8, 0xffu8, 0xffu8] + spec_be_u64(wire)
        + spec_be_u64(p.counter) + p.payload);
    assert forall|j: int| 0 <= j < 8 implies b[4 + j] == spec_be_u64(wire)[j] by {}
    assert forall|j: int| 0 <= j < 8 implies b[12 + j] == spec_be_u64(p.counter)[j] by {}
    lemma_be64_of_bytes(wire);
    lemma_be64_of_bytes(p.counter);
    let r = p.route;
    match p.direction {
        RoutingDirection::Initiator2Responder => {
            assert(r & 1 == 0 ==> (r & 0xffff_ffff_ffff_fffe) == r) by (bit_vector);
            assert((r & 0xffff_ffff_ffff_fffe) & 0xffff_ffff_ffff_fffe == r
                & 0xffff_ffff_ffff_fffe) by (bit_vector);
            assert((wire & 0xff) as u8 & 1 == 0 <== wire & 1 == 0) by (bit_vector);
            assert(r & 1 == 0 ==> (r & 0xffff_ffff_ffff_fffe) & 1 == 0) by (bit_vector);
        },
        RoutingDirection::Responder2Initiator => {
            assert(r & 1 == 0 ==> (r | 1) & 0xffff_ffff_ffff_fffe == r) by (bit_vector);
            assert(((r | 1) & 0xff) as u8 & 1 == 1) by (bit_vector);
        },
    }
    assert(b[11] == (wire & 0xff) as u8) by {
        assert(spec_be_u64(wire)[7] == (wire & 0xff) as u8);
    }
    assert(b.skip(20) =~= p.payload);
}

// -- inner frames -------------------------------------------------------

/// An inner frame, the unit of the post-decrypt grammar.
#[derive(Debug, PartialEq)]
pub enum Frame {
    /// First frame of a stream; carries request or response headers.
    Header { stream: u32, payload: Vec<u8> },
    /// An application data chunk; `order` is the per-stream sequence
    /// number, starting at 2 since 1 is reserved for the header.
    Stream { stream: u32, order: u64, payload: Vec<u8> },
    /// Sequence acknowledgement for channel reliability; `acked` is kept
    /// sorted ascending on the wire.
    Ack { delay: u16, acked: Vec<u64> },
    Ping,
    Disconnect,
    /// Half-close of a stream at a sequence position.
    Close { stream: u32, order: u64 },
    /// In-band transport tuning.
    Config { timeout: Option<u16>, sleeping: bool },
}

/// Mathematical image of a [`Frame`].
pub enum FrameV {
    Header { stream: u32, payload: Seq<u8> },
    Stream { stream: u32, order: u64, payload: Seq<u8> },
    Ack { delay: u16, acked: Seq<u64> },
    Ping,
    Disconnect,
    Close { stream: u32, order: u64 },
    Config { timeout: Option<u16>, sleeping: bool },
}

impl View for Frame {
    type V = FrameV;

    open spec fn view(&self) -> FrameV {
        match self {
            Frame::Header { stream, payload } => FrameV::Header {
                stream: *stream,
                payload: payload@,
            },
            Frame::Stream { stream, order, payload } => FrameV::Stream {
                stream: *stream,
                order: *order,
                payload: payload@,
            },
            Frame::Ack { delay, acked } => FrameV::Ack { delay: *delay, acked: acked@ },
            Frame::Ping => FrameV::Ping,
            Frame::Disconnect => FrameV::Disconnect,
            Frame::Close { stream, order } => FrameV::Close { stream: *stream, order: *order },
            Frame::Config { timeout, sleeping } => FrameV::Config {
                timeout: *timeout,
                sleeping: *sleeping,
            },
        }
    }
}

/// Ascending order on acknowledged sequence numbers.
pub open spec fn u64_le() -> spec_fn(u64, u64) -> bool {
    |a: u64, b: u64| a <= b
}

pub proof fn lemma_u64_le_total_ordering()
    ensures
        total_ordering(u64_le()),
{
    let leq = u64_le();
    assert forall|x: u64| #[trigger] leq(x, x) by {}
    assert forall|x: u64, y: u64| #[trigger] leq(x, y) && #[trigger] leq(y, x) implies x == y by {}
    assert forall|x: u64, y: u64, z: u64| #[trigger] leq(x, y) && #[trigger] leq(y, z) implies leq(
        x,
        z,
    ) by {}
    assert forall|x: u64, y: u64| #[trigger] leq(x, y) || #[trigger] leq(y, x) by {}
}

impl FrameV {
    /// Size bounds the wire format can carry: payloads and ack lists must
    /// fit their 16-bit length fields.
    pub open spec fn wf(self) -> bool {
        match self {
            FrameV::Header { payload, .. } => payload.len() + 12 < 65535,
            FrameV::Stream { payload, .. } => payload.len() + 12 < 65535,
            FrameV::Ack { acked, .. } => acked.len() < 8191,
            _ => true,
        }
    }

    /// Whether an `Ack`'s list is already in ascending order; trivially
    /// true of every other variant. The wire keeps ack lists sorted.
    pub open spec fn acks_sorted(self) -> bool {
        match self {
            FrameV::Ack { acked, .. } => sorted_by(acked, u64_le()),
            _ => true,
        }
    }
}

/// Flag byte of a `Config` frame: bit 7 marks a timeout present, bit 6
/// marks sleeping.
pub open spec fn spec_config_flags(timeout: Option<u16>, sleeping: bool) -> u8 {
    ((if timeout is Some {
        128int
    } else {
        0int
    }) + (if sleeping {
        64int
    } else {
        0int
    })) as u8
}

/// Byte image of a sequence of acknowledged numbers.
pub open spec fn spec_ack_list_bytes(s: Seq<u64>) -> Seq<u8>
    decreases s.len(),
{
    if s.len() == 0 {
        Seq::empty()
    } else {
        spec_be_u64(s[0]) + spec_ack_list_bytes(s.drop_first())
    }
}

/// Byte image of one frame. An `Ack`'s list is written in ascending
/// order whatever order it is held in.
pub open spec fn spec_frame_bytes(f: FrameV) -> Seq<u8> {
    match f {
        FrameV::Ack { delay, acked } => seq![0x01u8] + spec_be_u16(delay) + spec_be_u16(
            acked.len() as u16,
        ) + spec_ack_list_bytes(acked.sort_by(u64_le())),
        FrameV::Ping => seq![0x02u8],
        FrameV::Disconnect => seq![0x03u8],
        FrameV::Header { stream, payload } => seq![0x04u8] + spec_be_u32(stream) + spec_be_u16(
            payload.len() as u16,
        ) + payload,
        FrameV::Stream { stream, order, payload } => seq![0x05u8] + spec_be_u32(stream)
            + spec_be_u64(order) + spec_be_u16(payload.len() as u16) + payload,
        FrameV::Close { stream, order } => seq![0x06u8] + spec_be_u32(stream) + spec_be_u64(order),
        FrameV::Config { timeout, sleeping } => seq![0x07u8, spec_config_flags(timeout, sleeping)]
            + spec_be_u16(if timeout is Some {
                2
            } else {
                0
            }) + (match timeout {
            Some(t) => spec_be_u16(t),
            None => Seq::empty(),
        }),
    }
}

/// The numbers spelled by the first `n` eight-byte groups of `s`.
pub open spec fn spec_parse_ack_list(s: Seq<u8>, n: nat) -> Seq<u64>
    decreases n,
{
    if n == 0 {
        Seq::empty()
    } else {
        seq![be64(s[0], s[1], s[2], s[3], s[4], s[5], s[6], s[7])] + spec_parse_ack_list(
            s.skip(8),
            (n - 1) as nat,
        )
    }
}

/// Prepend a frame to a parse result, keeping an error as it is.
pub open spec fn ok_prepend(f: FrameV, r: Result<Seq<FrameV>, Error>) -> Result<
    Seq<FrameV>,
    Error,
> {
    match r {
        Ok(fs) => Ok(seq![f] + fs),
        Err(e) => Err(e),
    }
}

/// The frames spelled by a byte string, or the error that rejects it.
///
/// Tag `0x00` is a no-op pad; exhaustion of the input between frames ends
/// the parse successfully; an unknown tag is `InvalidFrameType`; input
/// ending inside a frame is `Io`.
pub open spec fn spec_parse_frames(s: Seq<u8>) -> Result<Seq<FrameV>, Error>
    decreases s.len(),
{
    if s.len() == 0 {
        Ok(Seq::empty())
    } else {
        let tag = s[0];
        let r = s.skip(1);
        if tag == 0x00 {
            spec_parse_frames(r)
        } else if tag == 0x01 {
            if r.len() < 4 {
                Err(Error::Io)
            } else {
                let delay = be16(r[0], r[1]);
                let count = be16(r[2], r[3]) as int;
                if r.len() < 4 + count * 8 {
                    Err(Error::Io)
                } else {
                    ok_prepend(
                        FrameV::Ack {
                            delay,
                            acked: spec_parse_ack_list(r.skip(4), count as nat),
                        },
                        spec_parse_frames(r.skip(4 + count * 8)),
                    )
                }
            }
        } else if tag == 0x02 {
            ok_prepend(FrameV::Ping, spec_parse_frames(r))
        } else if tag == 0x03 {
            ok_prepend(FrameV::Disconnect, spec_parse_frames(r))
        } else if tag == 0x04 {
            if r.len() < 6 {
                Err(Error::Io)
            } else {
                let stream = be32(r[0], r[1], r[2], r[3]);
                let len = be16(r[4], r[5]) as int;
                if r.len() < 6 + len {
                    Err(Error::Io)
                } else {
                    ok_prepend(
                        FrameV::Header { stream, payload: r.subrange(6, 6 + len) },
                        spec_parse_frames(r.skip(6 + len)),
                    )
                }
            }
        } else if tag == 0x05 {
            if r.len() < 14 {
                Err(Error::Io)
            } else {
                let stream = be32(r[0], r[1], r[2], r[3]);
                let order = be64(r[4], r[5], r[6], r[7], r[8], r[9], r[10], r[11]);
                let len = be16(r[12], r[13]) as int;
                if r.len() < 14 + len {
                    Err(Error::Io)
                } else {
                    ok_prepend(
                        FrameV::Stream { stream, order, payload: r.subrange(14, 14 + len) },
                        spec_parse_frames(r.skip(14 + len)),
                    )
                }
            }
        } else if tag == 0x06 {
            if r.len() < 12 {
                Err(Error::Io)
            } else {
                ok_prepend(
                    FrameV::Close {
                        stream: be32(r[0], r[1], r[2], r[3]),
                        order: be64(r[4], r[5], r[6], r[7], r[8], r[9], r[10], r[11]),
                    },
                    spec_parse_frames(r.skip(12)),
                )
            }
        } else if tag == 0x07 {
            if r.len() < 3 {
                Err(Error::Io)
            } else {
                let flags = r[0];
                let datalen = be16(r[1], r[2]) as int;
                if r.len() < 3 + datalen {
                    Err(Error::Io)
                } else if flags & 0x80 > 0 && datalen < 2 {
                    Err(Error::Io)
                } else {
                    ok_prepend(
                        FrameV::Config {
                            timeout: if flags & 0x80 > 0 {
                                Some(be16(r[3], r[4]))
                            } else {
                                None
                            },
                            sleeping: flags & 0x40 > 0,
                        },
                        spec_parse_frames(r.skip(3 + datalen)),
                    )
                }
            }
        } else {
            Err(Error::InvalidFrameType { typ: tag })
        }
    }
}

impl Frame {
    /// The number of bytes this frame occupies on the wire.
    pub fn len(&self) -> (r: usize)
        requires
            self@.wf(),
        ensures
            r == spec_frame_bytes(self@).len(),
    {
        proof {
            lemma_frame_bytes_len(self@);
        }
        match self {
            Frame::Header { payload, .. } => 1 + 4 + 2 + payload.len(),
            Frame::Stream { payload, .. } => 1 + 4 + 8 + 2 + payload.len(),
            Frame::Ack { acked, .. } => 1 + 2 + 2 + 8 * acked.len(),
            Frame::Ping => 1,
            Frame::Disconnect => 1,
            Frame::Close { .. } => 1 + 4 + 8,
            Frame::Config { timeout, .. } => 1 + 1 + 2 + if timeout.is_some() {
                2
            } else {
                0
            },
        }
    }

    pub fn is_ping(&self) -> (r: bool)
        ensures
            r == (self@ is Ping),
    {
        match self {
            Frame::Ping => true,
            _ => false,
        }
    }

    pub fn is_ack(&self) -> (r: bool)
        ensures
            r == (self@ is Ack),
    {
        match self {
            Frame::Ack { .. } => true,
            _ => false,
        }
    }

    /// The sequence position of an ordered frame: 1 for a `Header`, the
    /// stored order for `Stream` and `Close`. Asking it of another
    /// variant is a programmer error.
    pub fn order(&self) -> (r: u64)
        requires
            self@ is Header || self@ is Stream || self@ is Close,
        ensures
            r == match self@ {
                FrameV::Header { .. } => 1u64,
                FrameV::Stream { order, .. } => order,
                FrameV::Close { order, .. } => order,
                _ => 0u64,
            },
    {
        match self {
            Frame::Header { .. } => 1,
            Frame::Stream { order, .. } => *order,
            Frame::Close { order, .. } => *order,
            _ => 1,
        }
    }
}

/// The byte image of an ack list is eight bytes per entry.
pub proof fn lemma_ack_list_bytes_len(s: Seq<u64>)
    ensures
        spec_ack_list_bytes(s).len() == 8 * s.len(),
    decreases s.len(),
{
    if s.len() > 0 {
        lemma_ack_list_bytes_len(s.drop_first());
    }
}

/// The byte image of a frame has the length `Frame::len` computes.
pub proof fn lemma_frame_bytes_len(f: FrameV)
    ensures
        spec_frame_bytes(f).len() == match f {
            FrameV::Header { payload, .. } => 7 + payload.len(),
            FrameV::Stream { payload, .. } => 15 + payload.len(),
            FrameV::Ack { acked, .. } => 5 + 8 * acked.len(),
            FrameV::Ping => 1nat,
            FrameV::Disconnect => 1nat,
            FrameV::Close { .. } => 13nat,
            FrameV::Config { timeout, .. } => (4 + if timeout is Some {
                2int
            } else {
                0int
            }) as nat,
        },
{
    broadcast use group_to_multiset_ensures;

    match f {
        FrameV::Ack { acked, .. } => {
            lemma_u64_le_total_ordering();
            acked.lemma_sort_by_ensures(u64_le());
            assert(acked.to_multiset().len() == acked.len());
            assert(acked.sort_by(u64_le()).to_multiset().len() == acked.sort_by(u64_le()).len());
            assert(acked.sort_by(u64_le()).len() == acked.len());
            lemma_ack_list_bytes_len(acked.sort_by(u64_le()));
        },
        _ => {},
    }
}

/// Append one byte string to another.
pub fn append_bytes(w: &mut Vec<u8>, b: &Vec<u8>)
    ensures
        final(w)@ == old(w)@ + b@,
{
    let mut i: usize = 0;
    while i < b.len()
        invariant
            i <= b@.len(),
            w@ == old(w)@ + b@.take(i as int),
        decreases b@.len() - i,
    {
        w.push(b[i]);
        proof {
            assert(w@ =~= old(w)@ + b@.take(i + 1));
        }
        i = i + 1;
    }
    proof {
        assert(b@.take(b@.len() as int) =~= b@);
    }
}

/// Sort an ack list ascending, by insertion into a fresh vector.
pub fn sort_u64(input: &Vec<u64>) -> (out: Vec<u64>)
    ensures
        out@ == input@.sort_by(u64_le()),
{
    let mut out: Vec<u64> = Vec::new();
    let mut i: usize = 0;
    proof {
        assert(out@ =~= input@.take(0));
    }
    while i < input.len()
        invariant
            i <= input@.len(),
            sorted_by(out@, u64_le()),
            out@.to_multiset() == input@.take(i as int).to_multiset(),
        decreases input@.len() - i,
    {
        let x = input[i];
        let mut j: usize = 0;
        while j < out.len() && out[j] <= x
            invariant
                j <= out@.len(),
                forall|k: int| 0 <= k < j ==> out@[k] <= x,
            decreases out@.len() - j,
        {
            j = j + 1;
        }
        let ghost prev = out@;
        out.insert(j, x);
        proof {
            broadcast use group_to_multiset_ensures;

            assert(input@.take(i + 1) =~= input@.take(i as int).push(x));
            let now = out@;
            assert(now == prev.insert(j as int, x));
            assert forall|p: int, q: int| 0 <= p < q < now.len() implies #[trigger] u64_le()(
                now[p],
                now[q],
            ) by {
                assert(forall|k: int| 0 <= k < j ==> now[k] == prev[k]);
                assert(now[j as int] == x);
                assert(forall|k: int| j < k < now.len() ==> now[k] == prev[k - 1]);
                assert(forall|p2: int, q2: int|
                    0 <= p2 < q2 < prev.len() ==> u64_le()(prev[p2], prev[q2]));
            }
        }
        i = i + 1;
    }
    proof {
        broadcast use group_to_multiset_ensures;

        assert(input@.take(input@.len() as int) =~= input@);
        lemma_u64_le_total_ordering();
        input@.lemma_sort_by_ensures(u64_le());
        lemma_sorted_unique(out@, input@.sort_by(u64_le()), u64_le());
    }
    out
}

impl Frame {
    /// Serialise this frame, appending its byte image to `w`, and return
    /// the number of bytes written. An `Ack`'s list is written in
    /// ascending order whatever order it is held in.
    pub fn encode(&self, w: &mut Vec<u8>) -> (r: Result<usize, Error>)
        requires
            self@.wf(),
        ensures
            final(w)@ == old(w)@ + spec_frame_bytes(self@),
            r matches Ok(n) && n == spec_frame_bytes(self@).len(),
    {
        let n = self.len();
        match self {
            Frame::Header { stream, payload } => {
                w.push(0x04);
                push_be_u32(w, *stream);
                push_be_u16(w, payload.len() as u16);
                append_bytes(w, payload);
                proof {
                    assert(w@ =~= old(w)@ + spec_frame_bytes(self@));
                }
            },
            Frame::Stream { stream, order, payload } => {
                w.push(0x05);
                push_be_u32(w, *stream);
                push_be_u64(w, *order);
                push_be_u16(w, payload.len() as u16);
                append_bytes(w, payload);
                proof {
                    assert(w@ =~= old(w)@ + spec_frame_bytes(self@));
                }
            },
            Frame::Ack { delay, acked } => {
                w.push(0x01);
                push_be_u16(w, *delay);
                push_be_u16(w, acked.len() as u16);
                let sorted = sort_u64(acked);
                let ghost mid = w@;
                let mut k: usize = 0;
                while k < sorted.len()
                    invariant
                        k <= sorted@.len(),
                        w@ == mid + spec_ack_list_bytes(sorted@.take(k as int)),
                    decreases sorted@.len() - k,
                {
                    push_be_u64(w, sorted[k]);
                    proof {
                        lemma_ack_list_take_snoc(sorted@, k as int);
                    }
                    k = k + 1;
                }
                proof {
                    assert(sorted@.take(sorted@.len() as int) =~= sorted@);
                    assert(w@ =~= old(w)@ + spec_frame_bytes(self@));
                }
            },
            Frame::Ping => {
                w.push(0x02);
                proof {
                    assert(w@ =~= old(w)@ + spec_frame_bytes(self@));
                }
            },
            Frame::Disconnect => {
                w.push(0x03);
                proof {
                    assert(w@ =~= old(w)@ + spec_frame_bytes(self@));
                }
            },
            Frame::Close { stream, order } => {
                w.push(0x06);
                push_be_u32(w, *stream);
                push_be_u64(w, *order);
                proof {
                    assert(w@ =~= old(w)@ + spec_frame_bytes(self@));
                }
            },
            Frame::Config { timeout, sleeping } => {
                w.push(0x07);
                let mut flags: u8 = 0;
                let mut datalen: u16 = 0;
                if timeout.is_some() {
                    flags = flags + 128;
                    datalen = datalen + 2;
                }
                if *sleeping {
                    flags = flags + 64;
                }
                w.push(flags);
                push_be_u16(w, datalen);
                match timeout {
                    Some(t) => push_be_u16(w, *t),
                    None => {},
                }
                proof {
                    assert(w@ =~= old(w)@ + spec_frame_bytes(self@));
                }
            },
        }
        Ok(n)
    }
}

/// Appending one more entry extends an ack list's byte image by that
/// entry's eight bytes.
pub proof fn lemma_ack_list_take_snoc(s: Seq<u64>, k: int)
    requires
        0 <= k < s.len(),
    ensures
        spec_ack_list_bytes(s.take(k + 1)) == spec_ack_list_bytes(s.take(k)) + spec_be_u64(s[k]),
    decreases k,
{
    if k == 0 {
        assert(s.take(1) =~= seq![s[0]]);
        assert(s.take(0) =~= Seq::<u64>::empty());
        assert(seq![s[0]].drop_first() =~= Seq::<u64>::empty());
        assert(spec_ack_list_bytes(Seq::<u64>::empty()) =~= Seq::<u8>::empty());
        assert(spec_ack_list_bytes(s.take(1)) =~= spec_be_u64(s[0]));
        assert(spec_ack_list_bytes(s.take(0)) + spec_be_u64(s[0]) =~= spec_be_u64(s[0]));
    } else {
        let t = s.drop_first();
        lemma_ack_list_take_snoc(t, k - 1);
        assert(s.take(k + 1).drop_first() =~= t.take(k));
        assert(s.take(k).drop_first() =~= t.take(k - 1));
        assert(s.take(k + 1)[0] == s[0]);
        assert(s.take(k)[0] == s[0]);
        assert(t[k - 1] == s[k]);
        assert(spec_ack_list_bytes(s.take(k)) + spec_be_u64(s[k]) =~= spec_be_u64(s[0]) + (
        spec_ack_list_bytes(t.take(k - 1)) + spec_be_u64(t[k - 1])));
    }
}

/// The images of a vector of frames.
pub open spec fn frame_views(fs: Seq<Frame>) -> Seq<FrameV> {
    fs.map_values(|f: Frame| f@)
}

/// Concatenate an already-parsed prefix onto a parse result, keeping an
/// error as it is.
pub open spec fn ok_concat(pre: Seq<FrameV>, r: Result<Seq<FrameV>, Error>) -> Result<
    Seq<FrameV>,
    Error,
> {
    match r {
        Ok(fs) => Ok(pre + fs),
        Err(e) => Err(e),
    }
}

/// Moving one parsed frame from the result's head to the prefix's tail
/// leaves the concatenation unchanged.
pub proof fn lemma_ok_concat_step(pre: Seq<FrameV>, f: FrameV, r: Result<Seq<FrameV>, Error>)
    ensures
        ok_concat(pre, ok_prepend(f, r)) == ok_concat(pre.push(f), r),
{
    match r {
        Ok(fs) => {
            assert(pre + (seq![f] + fs) =~= pre.push(f) + fs);
        },
        Err(_) => {},
    }
}

/// Parse the `Ack` frame whose tag stands at `r[i]`.
fn parse_ack(r: &[u8], i: usize) -> (res: Result<(Frame, usize), Error>)
    requires
        i < r@.len() <= usize::MAX,
        r@[i as int] == 0x01,
    ensures
        match res {
            Ok((f, j)) => i < j <= r@.len() && spec_parse_frames(r@.skip(i as int)) == ok_prepend(
                f@,
                spec_parse_frames(r@.skip(j as int)),
            ),
            Err(e) => spec_parse_frames(r@.skip(i as int)) == Err::<Seq<FrameV>, Error>(e),
        },
{
    let ghost s = r@.skip(i as int);
    let ghost rest = r@.skip(i + 1);
    let remaining: usize = r.len() - i - 1;
    proof {
        assert(s[0] == r@[i as int]);
        assert(s.skip(1) =~= rest);
    }
    if remaining < 4 {
        proof {
            assert(spec_parse_frames(s) == Err::<Seq<FrameV>, Error>(Error::Io));
        }
        return Err(Error::Io);
    }
    let delay = read_be_u16(r, i + 1);
    let count = read_be_u16(r, i + 3);
    proof {
        assert(rest[0] == r@[i + 1] && rest[1] == r@[i + 2]);
        assert(rest[2] == r@[i + 3] && rest[3] == r@[i + 4]);
    }
    let need: usize = 4 + 8 * (count as usize);
    if remaining < need {
        proof {
            assert(spec_parse_frames(s) == Err::<Seq<FrameV>, Error>(Error::Io));
        }
        return Err(Error::Io);
    }
    let base: usize = i + 5;
    let mut acked: Vec<u64> = Vec::new();
    let mut k: usize = 0;
    proof {
        assert(acked@ + spec_parse_ack_list(r@.skip(base as int), count as nat)
            =~= spec_parse_ack_list(r@.skip(base as int), count as nat));
    }
    while k < count as usize
        invariant
            k <= count as usize,
            base == i + 5,
            i + 5 + 8 * (count as usize) <= r@.len(),
            r@.len() <= usize::MAX,
            acked@.len() == k,
            acked@ + spec_parse_ack_list(r@.skip(base + 8 * k), (count as usize - k) as nat)
                == spec_parse_ack_list(r@.skip(base as int), count as nat),
        decreases count as usize - k,
    {
        proof {
            assert(8 * k < 8 * (count as usize));
        }
        let pos: usize = base + 8 * k;
        let v = read_be_u64(r, pos);
        proof {
            let cur = r@.skip(pos as int);
            assert(cur.skip(8) =~= r@.skip(pos + 8));
            assert(v == be64(cur[0], cur[1], cur[2], cur[3], cur[4], cur[5], cur[6], cur[7]));
            assert(spec_parse_ack_list(cur, (count as usize - k) as nat) == seq![v]
                + spec_parse_ack_list(r@.skip(pos + 8), (count as usize - k - 1) as nat));
            assert((acked@ + seq![v]) + spec_parse_ack_list(
                r@.skip(pos + 8),
                (count as usize - k - 1) as nat,
            ) =~= acked@ + (seq![v] + spec_parse_ack_list(
                r@.skip(pos + 8),
                (count as usize - k - 1) as nat,
            )));
            assert(acked@.push(v) =~= acked@ + seq![v]);
        }
        acked.push(v);
        k = k + 1;
    }
    proof {
        assert(spec_parse_ack_list(r@.skip(base + 8 * (count as usize)), 0)
            =~= Seq::<u64>::empty());
        assert(acked@ + Seq::<u64>::empty() =~= acked@);
        assert(rest.skip(4) =~= r@.skip(base as int));
        assert(rest.skip(4 + (count as int) * 8) =~= r@.skip(i + 5 + 8 * (count as usize)));
    }
    let f = Frame::Ack { delay, acked };
    let j: usize = i + 5 + 8 * (count as usize);
    proof {
        assert(spec_parse_frames(s) == ok_prepend(f@, spec_parse_frames(r@.skip(j as int))));
    }
    Ok((f, j))
}

/// Parse the `Header` frame whose tag stands at `r[i]`.
fn parse_header(r: &[u8], i: usize) -> (res: Result<(Frame, usize), Error>)
    requires
        i < r@.len() <= usize::MAX,
        r@[i as int] == 0x04,
    ensures
        match res {
            Ok((f, j)) => i < j <= r@.len() && spec_parse_frames(r@.skip(i as int)) == ok_prepend(
                f@,
                spec_parse_frames(r@.skip(j as int)),
            ),
            Err(e) => spec_parse_frames(r@.skip(i as int)) == Err::<Seq<FrameV>, Error>(e),
        },
{
    let ghost s = r@.skip(i as int);
    let ghost rest = r@.skip(i + 1);
    let remaining: usize = r.len() - i - 1;
    proof {
        assert(s[0] == r@[i as int]);
        assert(s.skip(1) =~= rest);
    }
    if remaining < 6 {
        proof {
            assert(spec_parse_frames(s) == Err::<Seq<FrameV>, Error>(Error::Io));
        }
        return Err(Error::Io);
    }
    let stream = read_be_u32(r, i + 1);
    let plen = read_be_u16(r, i + 5) as usize;
    proof {
        assert(rest[0] == r@[i + 1] && rest[1] == r@[i + 2] && rest[2] == r@[i + 3] && rest[3]
            == r@[i + 4]);
        assert(rest[4] == r@[i + 5] && rest[5] == r@[i + 6]);
    }
    if remaining < 6 + plen {
        proof {
            assert(spec_parse_frames(s) == Err::<Seq<FrameV>, Error>(Error::Io));
        }
        return Err(Error::Io);
    }
    let payload = copy_range(r, i + 7, i + 7 + plen);
    let f = Frame::Header { stream, payload };
    let j: usize = i + 7 + plen;
    proof {
        assert(rest.subrange(6, 6 + plen as int) =~= r@.subrange(i + 7, i + 7 + plen as int));
        assert(rest.skip(6 + plen as int) =~= r@.skip(j as int));
        assert(spec_parse_frames(s) == ok_prepend(f@, spec_parse_frames(r@.skip(j as int))));
    }
    Ok((f, j))
}

/// Parse the `Stream` frame whose tag stands at `r[i]`.
fn parse_stream(r: &[u8], i: usize) -> (res: Result<(Frame, usize), Error>)
    requires
        i < r@.len() <= usize::MAX,
        r@[i as int] == 0x05,
    ensures
        match res {
            Ok((f, j)) => i < j <= r@.len() && spec_parse_frames(r@.skip(i as int)) == ok_prepend(
                f@,
                spec_parse_frames(r@.skip(j as int)),
            ),
            Err(e) => spec_parse_frames(r@.skip(i as int)) == Err::<Seq<FrameV>, Error>(e),
        },
{
    let ghost s = r@.skip(i as int);
    let ghost rest = r@.skip(i + 1);
    let remaining: usize = r.len() - i - 1;
    proof {
        assert(s[0] == r@[i as int]);
        assert(s.skip(1) =~= rest);
    }
    if remaining < 14 {
        proof {
            assert(spec_parse_frames(s) == Err::<Seq<FrameV>, Error>(Error::Io));
        }
        return Err(Error::Io);
    }
    let stream = read_be_u32(r, i + 1);
    let order = read_be_u64(r, i + 5);
    let plen = read_be_u16(r, i + 13) as usize;
    proof {
        assert(rest[0] == r@[i + 1] && rest[1] == r@[i + 2] && rest[2] == r@[i + 3] && rest[3]
            == r@[i + 4]);
        assert(forall|j2: int| 4 <= j2 < 12 ==> rest[j2] == r@[i + 1 + j2]);
        assert(rest[12] == r@[i + 13] && rest[13] == r@[i + 14]);
    }
    if remaining < 14 + plen {
        proof {
            assert(spec_parse_frames(s) == Err::<Seq<FrameV>, Error>(Error::Io));
        }
        return Err(Error::Io);
    }
    let payload = copy_range(r, i + 15, i + 15 + plen);
    let f = Frame::Stream { stream, order, payload };
    let j: usize = i + 15 + plen;
    proof {
        assert(rest.subrange(14, 14 + plen as int) =~= r@.subrange(i + 15, i + 15 + plen as int));
        assert(rest.skip(14 + plen as int) =~= r@.skip(j as int));
        assert(spec_parse_frames(s) == ok_prepend(f@, spec_parse_frames(r@.skip(j as int))));
    }
    Ok((f, j))
}

/// Parse the `Close` frame whose tag stands at `r[i]`.
fn parse_close(r: &[u8], i: usize) -> (res: Result<(Frame, usize), Error>)
    requires
        i < r@.len() <= usize::MAX,
        r@[i as int] == 0x06,
    ensures
        match res {
            Ok((f, j)) => i < j <= r@.len() && spec_parse_frames(r@.skip(i as int)) == ok_prepend(
                f@,
                spec_parse_frames(r@.skip(j as int)),
            ),
            Err(e) => spec_parse_frames(r@.skip(i as int)) == Err::<Seq<FrameV>, Error>(e),
        },
{
    let ghost s = r@.skip(i as int);
    let ghost rest = r@.skip(i + 1);
    let remaining: usize = r.len() - i - 1;
    proof {
        assert(s[0] == r@[i as int]);
        assert(s.skip(1) =~= rest);
    }
    if remaining < 12 {
        proof {
            assert(spec_parse_frames(s) == Err::<Seq<FrameV>, Error>(Error::Io));
        }
        return Err(Error::Io);
    }
    let stream = read_be_u32(r, i + 1);
    let order = read_be_u64(r, i + 5);
    let f = Frame::Close { stream, order };
    let j: usize = i + 13;
    proof {
        assert(rest[0] == r@[i + 1] && rest[1] == r@[i + 2] && rest[2] == r@[i + 3] && rest[3]
            == r@[i + 4]);
        assert(forall|j2: int| 4 <= j2 < 12 ==> rest[j2] == r@[i + 1 + j2]);
        assert(rest.skip(12) =~= r@.skip(j as int));
        assert(spec_parse_frames(s) == ok_prepend(f@, spec_parse_frames(r@.skip(j as int))));
    }
    Ok((f, j))
}

/// Parse the `Config` frame whose tag stands at `r[i]`.
fn parse_config(r: &[u8], i: usize) -> (res: Result<(Frame, usize), Error>)
    requires
        i < r@.len() <= usize::MAX,
        r@[i as int] == 0x07,
    ensures
        match res {
            Ok((f, j)) => i < j <= r@.len() && spec_parse_frames(r@.skip(i as int)) == ok_prepend(
                f@,
                spec_parse_frames(r@.skip(j as int)),
            ),
            Err(e) => spec_parse_frames(r@.skip(i as int)) == Err::<Seq<FrameV>, Error>(e),
        },
{
    let ghost s = r@.skip(i as int);
    let ghost rest = r@.skip(i + 1);
    let remaining: usize = r.len() - i - 1;
    proof {
        assert(s[0] == r@[i as int]);
        assert(s.skip(1) =~= rest);
    }
    if remaining < 3 {
        proof {
            assert(spec_parse_frames(s) == Err::<Seq<FrameV>, Error>(Error::Io));
        }
        return Err(Error::Io);
    }
    let flags = r[i + 1];
    let datalen = read_be_u16(r, i + 2) as usize;
    proof {
        assert(rest[0] == r@[i + 1]);
        assert(rest[1] == r@[i + 2] && rest[2] == r@[i + 3]);
    }
    if remaining < 3 + datalen {
        proof {
            assert(spec_parse_frames(s) == Err::<Seq<FrameV>, Error>(Error::Io));
        }
        return Err(Error::Io);
    }
    if flags & 0x80 > 0 && datalen < 2 {
        proof {
            assert(spec_parse_frames(s) == Err::<Seq<FrameV>, Error>(Error::Io));
        }
        return Err(Error::Io);
    }
    let timeout: Option<u16> = if flags & 0x80 > 0 {
        Some(read_be_u16(r, i + 4))
    } else {
        None
    };
    let sleeping = flags & 0x40 > 0;
    let f = Frame::Config { timeout, sleeping };
    let j: usize = i + 4 + datalen;
    proof {
        if flags & 0x80 > 0 {
            assert(rest[3] == r@[i + 4] && rest[4] == r@[i + 5]);
        }
        assert(rest.skip(3 + datalen as int) =~= r@.skip(j as int));
        assert(spec_parse_frames(s) == ok_prepend(f@, spec_parse_frames(r@.skip(j as int))));
    }
    Ok((f, j))
}

/// Parse one grammar step at `r[i]`: a frame, or a skipped pad byte, or
/// the error that rejects the input.
fn parse_step(r: &[u8], i: usize) -> (res: Result<(Option<Frame>, usize), Error>)
    requires
        i < r@.len() <= usize::MAX,
    ensures
        match res {
            Ok((step, j)) => i < j <= r@.len() && match step {
                Some(f) => spec_parse_frames(r@.skip(i as int)) == ok_prepend(
                    f@,
                    spec_parse_frames(r@.skip(j as int)),
                ),
                None => spec_parse_frames(r@.skip(i as int)) == spec_parse_frames(
                    r@.skip(j as int),
                ),
            },
            Err(e) => spec_parse_frames(r@.skip(i as int)) == Err::<Seq<FrameV>, Error>(e),
        },
{
    let ghost s = r@.skip(i as int);
    let ghost rest = r@.skip(i + 1);
    proof {
        assert(s[0] == r@[i as int]);
        assert(s.skip(1) =~= rest);
    }
    let tag = r[i];
    if tag == 0x00 {
        Ok((None, i + 1))
    } else if tag == 0x01 {
        match parse_ack(r, i) {
            Ok((f, j)) => Ok((Some(f), j)),
            Err(e) => Err(e),
        }
    } else if tag == 0x02 {
        Ok((Some(Frame::Ping), i + 1))
    } else if tag == 0x03 {
        Ok((Some(Frame::Disconnect), i + 1))
    } else if tag == 0x04 {
        match parse_header(r, i) {
            Ok((f, j)) => Ok((Some(f), j)),
            Err(e) => Err(e),
        }
    } else if tag == 0x05 {
        match parse_stream(r, i) {
            Ok((f, j)) => Ok((Some(f), j)),
            Err(e) => Err(e),
        }
    } else if tag == 0x06 {
        match parse_close(r, i) {
            Ok((f, j)) => Ok((Some(f), j)),
            Err(e) => Err(e),
        }
    } else if tag == 0x07 {
        match parse_config(r, i) {
            Ok((f, j)) => Ok((Some(f), j)),
            Err(e) => Err(e),
        }
    } else {
        proof {
            assert(spec_parse_frames(s) == Err::<Seq<FrameV>, Error>(
                Error::InvalidFrameType { typ: tag },
            ));
        }
        Err(Error::InvalidFrameType { typ: tag })
    }
}

impl Frame {
    /// Parse a concatenation of frames.
    ///
    /// Consumes the whole input: tag `0x00` is skipped as padding,
    /// exhaustion between frames ends the parse successfully, an unknown
    /// tag fails with `InvalidFrameType`, and input ending inside a frame
    /// fails with `Io`.
    pub fn decode(r: &[u8]) -> (res: Result<Vec<Frame>, Error>)
        ensures
            match res {
                Ok(frames) => spec_parse_frames(r@) == Ok::<Seq<FrameV>, Error>(
                    frame_views(frames@),
                ),
                Err(e) => spec_parse_frames(r@) == Err::<Seq<FrameV>, Error>(e),
            },
    {
        let mut frames: Vec<Frame> = Vec::new();
        let mut i: usize = 0;
        let rlen: usize = r.len();
        proof {
            assert(r@.skip(0) =~= r@);
            assert(frame_views(frames@) =~= Seq::<FrameV>::empty());
            match spec_parse_frames(r@) {
                Ok(fs) => {
                    assert(Seq::<FrameV>::empty() + fs =~= fs);
                },
                Err(_) => {},
            }
        }
        while i < rlen
            invariant
                i <= r@.len(),
                rlen == r@.len(),
                spec_parse_frames(r@) == ok_concat(
                    frame_views(frames@),
                    spec_parse_frames(r@.skip(i as int)),
                ),
            decreases r@.len() - i,
        {
            let ghost pre = frame_views(frames@);
            match parse_step(r, i) {
                Err(e) => {
                    return Err(e);
                },
                Ok((step, j)) => {
                    match step {
                        Some(f) => {
                            proof {
                                lemma_ok_concat_step(pre, f@, spec_parse_frames(
                                    r@.skip(j as int),
                                ));
                            }
                            frames.push(f);
                            proof {
                                assert(frame_views(frames@) =~= pre.push(f@));
                            }
                        },
                        None => {},
                    }
                    i = j;
                },
            }
        }
        proof {
            assert(r@.skip(r@.len() as int) =~= Seq::<u8>::empty());
            assert(frame_views(frames@) + Seq::<FrameV>::empty() =~= frame_views(frames@));
        }
        Ok(frames)
    }
}

/// Parsing inverts writing for an ack list, whatever follows it.
pub proof fn lemma_parse_ack_list_of_bytes(s: Seq<u64>, tail: Seq<u8>)
    ensures
        spec_parse_ack_list(spec_ack_list_bytes(s) + tail, s.len()) == s,
    decreases s.len(),
{
    if s.len() == 0 {
        assert(spec_parse_ack_list(spec_ack_list_bytes(s) + tail, 0) =~= s);
    } else {
        let all = spec_ack_list_bytes(s) + tail;
        let rest = spec_ack_list_bytes(s.drop_first()) + tail;
        assert(all =~= spec_be_u64(s[0]) + rest);
        assert forall|j: int| 0 <= j < 8 implies all[j] == spec_be_u64(s[0])[j] by {}
        lemma_be64_of_bytes(s[0]);
        assert(all.skip(8) =~= rest);
        lemma_parse_ack_list_of_bytes(s.drop_first(), tail);
        assert(spec_parse_ack_list(all, s.len()) == seq![s[0]] + s.drop_first());
        assert(seq![s[0]] + s.drop_first() =~= s);
    }
}

proof fn lemma_parse_prepend_trivial(f: FrameV, tail: Seq<u8>)
    requires
        f is Ping || f is Disconnect,
    ensures
        spec_parse_frames(spec_frame_bytes(f) + tail) == ok_prepend(f, spec_parse_frames(tail)),
{
    let all = spec_frame_bytes(f) + tail;
    match f {
        FrameV::Ping => {
            assert(all =~= seq![0x02u8] + tail);
            assert(all.skip(1) =~= tail);
        },
        FrameV::Disconnect => {
            assert(all =~= seq![0x03u8] + tail);
            assert(all.skip(1) =~= tail);
        },
        _ => {},
    }
}

proof fn lemma_parse_prepend_header(stream: u32, payload: Seq<u8>, tail: Seq<u8>)
    requires
        payload.len() + 12 < 65535,
    ensures
        spec_parse_frames(spec_frame_bytes(FrameV::Header { stream, payload }) + tail)
            == ok_prepend(FrameV::Header { stream, payload }, spec_parse_frames(tail)),
{
    let f = FrameV::Header { stream, payload };
    let all = spec_frame_bytes(f) + tail;
    let plen16 = payload.len() as u16;
    let rest = spec_be_u32(stream) + spec_be_u16(plen16) + payload + tail;
    assert(all =~= seq![0x04u8] + rest);
    assert(all.skip(1) =~= rest);
    assert forall|j: int| 0 <= j < 4 implies rest[j] == spec_be_u32(stream)[j] by {}
    assert(rest[4] == spec_be_u16(plen16)[0] && rest[5] == spec_be_u16(plen16)[1]);
    lemma_be32_of_bytes(stream);
    lemma_be16_of_bytes(plen16);
    assert(be16(rest[4], rest[5]) as int == payload.len());
    assert(rest.subrange(6, 6 + payload.len() as int) =~= payload);
    assert(rest.skip(6 + payload.len() as int) =~= tail);
}

proof fn lemma_parse_prepend_stream(stream: u32, order: u64, payload: Seq<u8>, tail: Seq<u8>)
    requires
        payload.len() + 12 < 65535,
    ensures
        spec_parse_frames(spec_frame_bytes(FrameV::Stream { stream, order, payload }) + tail)
            == ok_prepend(FrameV::Stream { stream, order, payload }, spec_parse_frames(tail)),
{
    let f = FrameV::Stream { stream, order, payload };
    let all = spec_frame_bytes(f) + tail;
    let plen16 = payload.len() as u16;
    let rest = spec_be_u32(stream) + spec_be_u64(order) + spec_be_u16(plen16) + payload + tail;
    assert(all =~= seq![0x05u8] + rest);
    assert(all.skip(1) =~= rest);
    assert forall|j: int| 0 <= j < 4 implies rest[j] == spec_be_u32(stream)[j] by {}
    assert forall|j: int| 0 <= j < 8 implies rest[4 + j] == spec_be_u64(order)[j] by {}
    assert(rest[12] == spec_be_u16(plen16)[0] && rest[13] == spec_be_u16(plen16)[1]);
    lemma_be32_of_bytes(stream);
    lemma_be64_of_bytes(order);
    lemma_be16_of_bytes(plen16);
    assert(be16(rest[12], rest[13]) as int == payload.len());
    assert(rest.subrange(14, 14 + payload.len() as int) =~= payload);
    assert(rest.skip(14 + payload.len() as int) =~= tail);
}

proof fn lemma_parse_prepend_close(stream: u32, order: u64, tail: Seq<u8>)
    ensures
        spec_parse_frames(spec_frame_bytes(FrameV::Close { stream, order }) + tail) == ok_prepend(
            FrameV::Close { stream, order },
            spec_parse_frames(tail),
        ),
{
    let f = FrameV::Close { stream, order };
    let all = spec_frame_bytes(f) + tail;
    let rest = spec_be_u32(stream) + spec_be_u64(order) + tail;
    assert(all =~= seq![0x06u8] + rest);
    assert(all.skip(1) =~= rest);
    assert forall|j: int| 0 <= j < 4 implies rest[j] == spec_be_u32(stream)[j] by {}
    assert forall|j: int| 0 <= j < 8 implies rest[4 + j] == spec_be_u64(order)[j] by {}
    lemma_be32_of_bytes(stream);
    lemma_be64_of_bytes(order);
    assert(rest.skip(12) =~= tail);
}

proof fn lemma_parse_prepend_ack(delay: u16, acked: Seq<u64>, tail: Seq<u8>)
    requires
        acked.len() < 8191,
        sorted_by(acked, u64_le()),
    ensures
        spec_parse_frames(spec_frame_bytes(FrameV::Ack { delay, acked }) + tail) == ok_prepend(
            FrameV::Ack { delay, acked },
            spec_parse_frames(tail),
        ),
{
    let f = FrameV::Ack { delay, acked };
    let all = spec_frame_bytes(f) + tail;
    lemma_u64_le_total_ordering();
    acked.lemma_sort_by_ensures(u64_le());
    lemma_sorted_unique(acked.sort_by(u64_le()), acked, u64_le());
    assert(acked.sort_by(u64_le()) == acked);
    let count16 = acked.len() as u16;
    let ackbytes = spec_ack_list_bytes(acked);
    lemma_ack_list_bytes_len(acked);
    let rest = spec_be_u16(delay) + spec_be_u16(count16) + ackbytes + tail;
    assert(all =~= seq![0x01u8] + rest);
    assert(all.skip(1) =~= rest);
    assert(rest[0] == spec_be_u16(delay)[0] && rest[1] == spec_be_u16(delay)[1]);
    assert(rest[2] == spec_be_u16(count16)[0] && rest[3] == spec_be_u16(count16)[1]);
    lemma_be16_of_bytes(delay);
    lemma_be16_of_bytes(count16);
    assert(be16(rest[2], rest[3]) as int == acked.len());
    assert(rest.len() == 4 + 8 * acked.len() + tail.len());
    assert(rest.skip(4) =~= ackbytes + tail);
    lemma_parse_ack_list_of_bytes(acked, tail);
    assert(rest.skip(4 + (acked.len() as int) * 8) =~= tail);
}

proof fn lemma_parse_prepend_config(timeout: Option<u16>, sleeping: bool, tail: Seq<u8>)
    ensures
        spec_parse_frames(spec_frame_bytes(FrameV::Config { timeout, sleeping }) + tail)
            == ok_prepend(FrameV::Config { timeout, sleeping }, spec_parse_frames(tail)),
{
    let f = FrameV::Config { timeout, sleeping };
    let all = spec_frame_bytes(f) + tail;
    let flags = spec_config_flags(timeout, sleeping);
    assert(0u8 & 0x80 == 0 && 0u8 & 0x40 == 0) by (bit_vector);
    assert(64u8 & 0x80 == 0 && 64u8 & 0x40 > 0) by (bit_vector);
    assert(128u8 & 0x80 > 0 && 128u8 & 0x40 == 0) by (bit_vector);
    assert(192u8 & 0x80 > 0 && 192u8 & 0x40 > 0) by (bit_vector);
    match timeout {
        Some(t) => {
            let rest = seq![flags] + spec_be_u16(2) + spec_be_u16(t) + tail;
            assert(all =~= seq![0x07u8] + rest);
            assert(all.skip(1) =~= rest);
            assert(rest[0] == flags);
            assert(rest[1] == spec_be_u16(2)[0] && rest[2] == spec_be_u16(2)[1]);
            assert(rest[3] == spec_be_u16(t)[0] && rest[4] == spec_be_u16(t)[1]);
            lemma_be16_of_bytes(2);
            lemma_be16_of_bytes(t);
            assert(be16(rest[1], rest[2]) as int == 2);
            assert(rest.skip(5int) =~= tail);
        },
        None => {
            let rest = seq![flags] + spec_be_u16(0) + tail;
            assert(all =~= seq![0x07u8] + rest);
            assert(all.skip(1) =~= rest);
            assert(rest[0] == flags);
            assert(rest[1] == spec_be_u16(0)[0] && rest[2] == spec_be_u16(0)[1]);
            lemma_be16_of_bytes(0);
            assert(be16(rest[1], rest[2]) as int == 0);
            assert(rest.skip(3) =~= tail);
        },
    }
}

pub proof fn lemma_parse_prepend(f: FrameV, tail: Seq<u8>)
    requires
        f.wf(),
        f.acks_sorted(),
    ensures
        spec_parse_frames(spec_frame_bytes(f) + tail) == ok_prepend(f, spec_parse_frames(tail)),
{
    match f {
        FrameV::Ping => lemma_parse_prepend_trivial(f, tail),
        FrameV::Disconnect => lemma_parse_prepend_trivial(f, tail),
        FrameV::Header { stream, payload } => lemma_parse_prepend_header(stream, payload, tail),
        FrameV::Stream { stream, order, payload } => lemma_parse_prepend_stream(
            stream,
            order,
            payload,
            tail,
        ),
        FrameV::Close { stream, order } => lemma_parse_prepend_close(stream, order, tail),
        FrameV::Ack { delay, acked } => lemma_parse_prepend_ack(delay, acked, tail),
        FrameV::Config { timeout, sleeping } => lemma_parse_prepend_config(
            timeout,
            sleeping,
            tail,
        ),
    }
}

/// Decoding inverts encoding for one frame: the byte image of a
/// well-formed frame with a sorted ack list parses back to exactly that
/// frame and nothing else.
pub proof fn lemma_frame_round_trip(f: FrameV)
    requires
        f.wf(),
        f.acks_sorted(),
    ensures
        spec_parse_frames(spec_frame_bytes(f)) == Ok::<Seq<FrameV>, Error>(seq![f]),
{
    lemma_parse_prepend(f, Seq::empty());
    assert(spec_frame_bytes(f) + Seq::<u8>::empty() =~= spec_frame_bytes(f));
    assert(spec_parse_frames(Seq::<u8>::empty()) == Ok::<Seq<FrameV>, Error>(Seq::empty()));
    assert(seq![f] + Seq::<FrameV>::empty() =~= seq![f]);
}

/// Byte image of a whole sequence of frames, one after the other.
pub open spec fn spec_frames_bytes(fs: Seq<FrameV>) -> Seq<u8>
    decreases fs.len(),
{
    if fs.len() == 0 {
        Seq::empty()
    } else {
        spec_frame_bytes(fs[0]) + spec_frames_bytes(fs.drop_first())
    }
}

/// Decoding inverts encoding for any concatenation of well-formed frames
/// with sorted ack lists.
pub proof fn lemma_frames_round_trip(fs: Seq<FrameV>)
    requires
        forall|i: int| 0 <= i < fs.len() ==> (#[trigger] fs[i]).wf() && fs[i].acks_sorted(),
    ensures
        spec_parse_frames(spec_frames_bytes(fs)) == Ok::<Seq<FrameV>, Error>(fs),
    decreases fs.len(),
{
    if fs.len() == 0 {
        assert(spec_parse_frames(Seq::<u8>::empty()) == Ok::<Seq<FrameV>, Error>(Seq::empty()));
        assert(fs =~= Seq::<FrameV>::empty());
    } else {
        let rest = fs.drop_first();
        assert(forall|i: int| 0 <= i < rest.len() ==> rest[i] == fs[i + 1]);
        lemma_frames_round_trip(rest);
        lemma_parse_prepend(fs[0], spec_frames_bytes(rest));
        assert(seq![fs[0]] + rest =~= fs);
    }
}

/// Copy `b[from..to]` into a fresh vector.
pub fn copy_range(b: &[u8], from: usize, to: usize) -> (r: Vec<u8>)
    requires
        from <= to <= b@.len(),
    ensures
        r@ == b@.subrange(from as int, to as int),
{
    let mut out: Vec<u8> = Vec::new();
    let mut i: usize = from;
    while i < to
        invariant
            from <= i <= to <= b@.len(),
            out@ == b@.subrange(from as int, i as int),
        decreases to - i,
    {
        out.push(b[i]);
        proof {
            assert(out@ =~= b@.subrange(from as int, i + 1));
        }
        i = i + 1;
    }
    out
}

} // verus!
