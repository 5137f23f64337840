//! Shreds out of raw Ethernet frames.

use std::collections::HashSet;
use std::sync::Arc;

use vstd::prelude::*;
use vstd::slice::slice_subrange;

use crate::registry::{ShredEvent, SourceId};
use crate::shred::{self, parse_shred_key, ShredKey};
use crate::wire;

verus! {

broadcast use vstd::std_specs::hash::group_hash_axioms;

pub const IP_START: usize = 14;

pub const UDP_HEADER_SIZE: usize = 8;

/// A number of two bytes, the high one first.
pub open spec fn be16(b: Seq<u8>, at: int) -> int {
    b[at] * 256 + b[at + 1]
}

/// The source address of an IPv4 packet in a frame, as a number.
pub open spec fn source_ip(b: Seq<u8>) -> Option<u32> {
    if b.len() < 30 {
        None
    } else {
        Some((((b[26] * 256 + b[27]) * 256 + b[28]) * 256 + b[29]) as u32)
    }
}

/// The length of the IP header of a frame.
pub open spec fn header_len(b: Seq<u8>) -> int {
    b[IP_START as int] % 16 * 4
}

/// Where in a frame its UDP payload is: in an IPv4 packet for UDP that is not fragmented, where the
/// frame holds all that the lengths in it say. A fragment says that more follow, or where it
/// belongs.
pub open spec fn payload_range(b: Seq<u8>) -> Option<(int, int)> {
    let udp_start = IP_START + header_len(b);
    let payload_start = udp_start + UDP_HEADER_SIZE;
    let udp_len = be16(b, udp_start + 4);
    let payload_len = if udp_len >= UDP_HEADER_SIZE {
        udp_len - UDP_HEADER_SIZE
    } else {
        0
    };
    if b.len() < 42 || be16(b, 12) != 0x0800 || header_len(b) < 20 || b.len() < payload_start
        || b[IP_START + 9] != 17 || be16(b, IP_START + 6) % 0x4000 != 0 || payload_start
        + payload_len > b.len() {
        None
    } else {
        Some((payload_start, payload_start + payload_len))
    }
}

/// The UDP payload of a frame.
pub open spec fn udp_payload(b: Seq<u8>) -> Option<Seq<u8>> {
    match payload_range(b) {
        Some((start, end)) => Some(b.subrange(start, end)),
        None => None,
    }
}

/// A source that shares a socket with others, and the addresses whose packets are for it.
pub struct PcapRoute {
    pub source_id: SourceId,
    /// Where there are any, only packets from these are for the source.
    pub include_ips: HashSet<u32>,
    /// Packets from these are not for the source.
    pub exclude_ips: HashSet<u32>,
}

/// Whether a route looks at addresses.
pub open spec fn has_filter(route: PcapRoute) -> bool {
    route.include_ips@.len() > 0 || route.exclude_ips@.len() > 0
}

/// Whether a packet from an address is for a route.
pub open spec fn matches_route(route: PcapRoute, src_ip: Option<u32>) -> bool {
    !has_filter(route) || match src_ip {
        Some(ip) => (route.include_ips@.len() > 0 ==> route.include_ips@.contains(ip)) && (
        route.exclude_ips@.len() > 0 ==> !route.exclude_ips@.contains(ip)),
        None => false,
    }
}

/// The source address of the packet in a frame.
pub fn extract_src_ip(buf: &[u8]) -> (ip: Option<u32>)
    ensures
        ip == source_ip(buf@),
{
    if buf.len() < 30 {
        return None;
    }
    Some(((buf[26] as u32 * 256 + buf[27] as u32) * 256 + buf[28] as u32) * 256 + buf[29] as u32)
}

/// The UDP payload of a frame.
pub fn extract_udp_payload(buf: &[u8]) -> (payload: Option<&[u8]>)
    ensures
        match payload {
            Some(payload) => udp_payload(buf@) == Some(payload@),
            None => udp_payload(buf@) is None,
        },
{
    assert(buf@.len() == vstd::slice::spec_slice_len(buf));
    if buf.len() < 42 {
        return None;
    }
    if buf[12] as u16 * 256 + buf[13] as u16 != 0x0800 {
        return None;
    }
    let ihl: usize = (buf[IP_START] % 16 * 4) as usize;
    if ihl < 20 || buf.len() < IP_START + ihl + UDP_HEADER_SIZE {
        return None;
    }
    if buf[IP_START + 9] != 17 {
        return None;
    }
    if (buf[IP_START + 6] as u16 * 256 + buf[IP_START + 7] as u16) % 0x4000 != 0 {
        return None;
    }
    let udp_start: usize = IP_START + ihl;
    let payload_start: usize = udp_start + UDP_HEADER_SIZE;
    let udp_len: usize = (buf[udp_start + 4] as u16 * 256 + buf[udp_start + 5] as u16) as usize;
    let payload_len: usize = udp_len.saturating_sub(UDP_HEADER_SIZE);
    if payload_len > buf.len() - payload_start {
        return None;
    }
    Some(slice_subrange(buf, payload_start, payload_start + payload_len))
}

/// Whether a packet from an address is for a route.
pub fn route_matches(route: &PcapRoute, src_ip: Option<u32>) -> (matches: bool)
    ensures
        matches == matches_route(*route, src_ip),
{
    if route.include_ips.len() == 0 && route.exclude_ips.len() == 0 {
        return true;
    }
    match src_ip {
        Some(ip) => {
            if route.include_ips.len() > 0 && !route.include_ips.contains(&ip) {
                return false;
            }
            if route.exclude_ips.len() > 0 && route.exclude_ips.contains(&ip) {
                return false;
            }
            true
        },
        None => false,
    }
}

/// The first `count` of the routes that a packet from an address is for, by their places.
pub open spec fn matching(routes: Seq<PcapRoute>, src_ip: Option<u32>, count: int) -> Seq<int>
    decreases count,
{
    if count <= 0 {
        Seq::empty()
    } else {
        let before = matching(routes, src_ip, count - 1);
        if matches_route(routes[count - 1], src_ip) {
            before.push(count - 1)
        } else {
            before
        }
    }
}

/// `events` hands the shred in a frame, if there is one, to every route that it is for.
pub open spec fn routed(
    events: Seq<ShredEvent>,
    frame: Seq<u8>,
    routes: Seq<PcapRoute>,
    received_at: u64,
) -> bool {
    match udp_payload(frame) {
        Some(payload) => match shred::shred_key(payload) {
            Some(key) => {
                let places = matching(routes, source_ip(frame), routes.len() as int);
                &&& events.len() == places.len()
                &&& forall|i: int|
                    #![trigger events[i]]
                    0 <= i < events.len() ==> {
                        &&& events[i].source == routes[places[i]].source_id
                        &&& events[i].key == key
                        &&& events[i].received_at == received_at
                        &&& events[i].payload@ == payload
                    }
            },
            None => events.len() == 0,
        },
        None => events.len() == 0,
    }
}

/// Whether a frame holds a shred.
pub open spec fn holds_shred(frame: Seq<u8>) -> bool {
    udp_payload(frame) matches Some(payload) && shred::shred_key(payload) is Some
}

/// Whether a frame holds a shred that is for a route.
pub open spec fn is_for_route(frame: Seq<u8>, route: PcapRoute) -> bool {
    holds_shred(frame) && matches_route(route, source_ip(frame))
}

/// One more, up to the largest number.
pub open spec fn one_more(count: u64, more: bool) -> u64 {
    if more && count < u64::MAX {
        (count + 1) as u64
    } else {
        count
    }
}

/// What a capture has counted.
#[verifier::ext_equal]
pub struct CaptureCounts {
    /// How many packets it has had.
    pub packets: u64,
    /// How many of them hold a shred.
    pub parsed: u64,
    /// How many of those are for each route.
    pub matched: Seq<u64>,
}

impl CaptureCounts {
    /// With one more packet.
    pub open spec fn with(self, frame: Seq<u8>, routes: Seq<PcapRoute>) -> CaptureCounts {
        CaptureCounts {
            packets: one_more(self.packets, true),
            parsed: one_more(self.parsed, holds_shred(frame)),
            matched: Seq::new(
                self.matched.len(),
                |i: int| one_more(self.matched[i], is_for_route(frame, routes[i])),
            ),
        }
    }
}

/// What a capture has counted after the first `count` of `frames`.
pub open spec fn counted(routes: Seq<PcapRoute>, frames: Seq<Seq<u8>>, count: int) -> CaptureCounts
    decreases count,
{
    if count <= 0 {
        CaptureCounts { packets: 0, parsed: 0, matched: Seq::new(routes.len(), |i: int| 0u64) }
    } else {
        counted(routes, frames, count - 1).with(frames[count - 1], routes)
    }
}

/// The packets to one port, the routes that they take, and how many there have been.
pub struct Capture {
    pub routes: Vec<PcapRoute>,
    pub packets: u64,
    pub parsed: u64,
    pub matched: Vec<u64>,
}

impl View for Capture {
    type V = CaptureCounts;

    open spec fn view(&self) -> CaptureCounts {
        CaptureCounts { packets: self.packets, parsed: self.parsed, matched: self.matched@ }
    }
}

impl Capture {
    /// There is a count for each route.
    pub open spec fn wf(&self) -> bool {
        self.matched@.len() == self.routes@.len()
    }

    pub fn new(routes: Vec<PcapRoute>) -> (capture: Capture)
        ensures
            capture.routes == routes,
            capture@ == counted(routes@, Seq::empty(), 0),
            capture.wf(),
    {
        let mut matched: Vec<u64> = Vec::new();
        while matched.len() < routes.len()
            invariant
                matched@.len() <= routes@.len(),
                forall|i: int| 0 <= i < matched@.len() ==> matched@[i] == 0,
            decreases routes@.len() - matched@.len(),
        {
            matched.push(0);
        }
        let capture = Capture { routes, packets: 0, parsed: 0, matched };
        assert(capture@ =~= counted(routes@, Seq::empty(), 0));
        capture
    }

    /// Counts a frame, and hands the shred in it to every route that it is for.
    pub fn on_frame(&mut self, frame: &[u8], received_at: u64) -> (events: Vec<ShredEvent>)
        requires
            old(self).wf(),
        ensures
            final(self).wf(),
            final(self).routes == old(self).routes,
            final(self)@ == old(self)@.with(frame@, old(self).routes@),
            routed(events@, frame@, old(self).routes@, received_at),
    {
        let ghost before = self@;
        let ghost routes = self.routes@;
        self.packets = self.packets.saturating_add(1);
        let mut events: Vec<ShredEvent> = Vec::new();
        let payload: &[u8] = match extract_udp_payload(frame) {
            Some(payload) => payload,
            None => {
                assert(self@ =~= before.with(frame@, routes));
                return events;
            },
        };
        let key: ShredKey = match parse_shred_key(payload) {
            Some(key) => key,
            None => {
                assert(self@ =~= before.with(frame@, routes));
                return events;
            },
        };
        self.parsed = self.parsed.saturating_add(1);
        let src_ip: Option<u32> = extract_src_ip(frame);
        let shared: Arc<Vec<u8>> = Arc::new(wire::copy_range(payload, 0, payload.len()));
        assert(shared@ =~= payload@);
        let ghost after = before.with(frame@, routes);
        let mut n: usize = 0;
        while n < self.routes.len()
            invariant
                n <= routes.len(),
                self.routes == old(self).routes,
                self.routes@ == routes,
                before == old(self)@,
                after == before.with(frame@, routes),
                holds_shred(frame@),
                src_ip == source_ip(frame@),
                self.packets == after.packets,
                self.parsed == after.parsed,
                self.matched@.len() == routes.len(),
                before.matched.len() == routes.len(),
                forall|i: int| 0 <= i < n ==> #[trigger] self.matched@[i] == after.matched[i],
                forall|i: int|
                    n <= i < routes.len() ==> #[trigger] self.matched@[i] == before.matched[i],
                shared@ == payload@,
                events@.len() == matching(routes, src_ip, n as int).len(),
                forall|i: int|
                    #![trigger events@[i]]
                    0 <= i < events@.len() ==> {
                        &&& events@[i].source == routes[matching(
                            routes,
                            src_ip,
                            n as int,
                        )[i]].source_id
                        &&& events@[i].key == key
                        &&& events@[i].received_at == received_at
                        &&& events@[i].payload@ == payload@
                    },
            decreases routes.len() - n,
        {
            let ghost counts = self.matched@;
            assert(counts[n as int] == before.matched[n as int]);
            if route_matches(&self.routes[n], src_ip) {
                let count: u64 = self.matched[n].saturating_add(1);
                self.matched.set(n, count);
                events.push(
                    ShredEvent {
                        source: self.routes[n].source_id,
                        key,
                        received_at,
                        payload: shared.clone(),
                    },
                );
            }
            assert(self.matched@[n as int] == after.matched[n as int]);
            n = n + 1;
        }
        assert(self@ =~= after);
        events
    }
}

/// Of fewer packets than can be counted, a capture has counted every one: all of them, those that
/// hold a shred, and those of them that are for each route. No route has more than there are
/// shreds.
pub proof fn lemma_packets_are_counted(
    routes: Seq<PcapRoute>,
    frames: Seq<Seq<u8>>,
    count: int,
    route: int,
)
    requires
        0 <= count <= frames.len(),
        count <= u64::MAX,
        0 <= route < routes.len(),
    ensures
        ({
            let counts = counted(routes, frames, count);
            let had = frames.take(count);
            &&& counts.matched.len() == routes.len()
            &&& counts.packets == count
            &&& counts.parsed == had.filter(|frame: Seq<u8>| holds_shred(frame)).len()
            &&& counts.matched[route] == had.filter(
                |frame: Seq<u8>| is_for_route(frame, routes[route]),
            ).len()
            &&& counts.matched[route] <= counts.parsed <= counts.packets
        }),
    decreases count,
{
    reveal(Seq::filter);
    if count > 0 {
        lemma_packets_are_counted(routes, frames, count - 1, route);
        assert(frames.take(count).drop_last() =~= frames.take(count - 1));
        assert(frames.take(count).last() == frames[count - 1]);
    }
}

/// The shred in a packet is handed out once for each route that the packet is counted for.
pub proof fn lemma_as_many_counted_as_handed_out(
    events: Seq<ShredEvent>,
    frame: Seq<u8>,
    routes: Seq<PcapRoute>,
    received_at: u64,
)
    requires
        routed(events, frame, routes, received_at),
    ensures
        events.len() == routes.filter(|route: PcapRoute| is_for_route(frame, route)).len(),
{
    if holds_shred(frame) {
        lemma_matching_is_filter(frame, routes, routes.len() as int);
        assert(routes.take(routes.len() as int) =~= routes);
    } else {
        lemma_none_for(frame, routes);
    }
}

proof fn lemma_matching_is_filter(frame: Seq<u8>, routes: Seq<PcapRoute>, count: int)
    requires
        holds_shred(frame),
        0 <= count <= routes.len(),
    ensures
        matching(routes, source_ip(frame), count).len() == routes.take(count).filter(
            |route: PcapRoute| is_for_route(frame, route),
        ).len(),
    decreases count,
{
    reveal(Seq::filter);
    if count > 0 {
        lemma_matching_is_filter(frame, routes, count - 1);
        assert(routes.take(count).drop_last() =~= routes.take(count - 1));
        assert(routes.take(count).last() == routes[count - 1]);
    }
}

proof fn lemma_none_for(frame: Seq<u8>, routes: Seq<PcapRoute>)
    requires
        !holds_shred(frame),
    ensures
        routes.filter(|route: PcapRoute| is_for_route(frame, route)).len() == 0,
    decreases routes.len(),
{
    reveal(Seq::filter);
    if routes.len() > 0 {
        lemma_none_for(frame, routes.drop_last());
    }
}

/// An instruction of a packet filter.
#[derive(Debug, Clone, Copy, PartialEq, Eq, Structural)]
pub struct FilterOp {
    pub code: u16,
    pub jt: u8,
    pub jf: u8,
    pub k: u32,
}

/// The instructions of the packet filter for a port.
pub open spec fn port_filter_ops(port: u16) -> Seq<FilterOp> {
    seq![
        FilterOp { code: 0x28, jt: 0, jf: 0, k: 12 },
        FilterOp { code: 0x15, jt: 0, jf: 8, k: 0x0800 },
        FilterOp { code: 0x30, jt: 0, jf: 0, k: 23 },
        FilterOp { code: 0x15, jt: 0, jf: 6, k: 0x11 },
        FilterOp { code: 0x28, jt: 0, jf: 0, k: 20 },
        FilterOp { code: 0x45, jt: 4, jf: 0, k: 0x1fff },
        FilterOp { code: 0xb1, jt: 0, jf: 0, k: 14 },
        FilterOp { code: 0x48, jt: 0, jf: 0, k: 16 },
        FilterOp { code: 0x15, jt: 0, jf: 1, k: port as u32 },
        FilterOp { code: 0x06, jt: 0, jf: 0, k: 0xffff },
        FilterOp { code: 0x06, jt: 0, jf: 0, k: 0 },
    ]
}

/// How many bytes of a frame a packet filter lets through, from the instruction at `at` on, with
/// `a` in the accumulator and `x` in the index register. A filter that reads beyond the frame lets
/// nothing through.
pub open spec fn filtered(ops: Seq<FilterOp>, b: Seq<u8>, at: int, a: u32, x: u32) -> u32
    decreases ops.len() + 256 - at,
{
    if !(0 <= at < ops.len()) {
        0
    } else {
        let op = ops[at];
        if op.code == 0x28 {
            // load the two bytes at `k`
            if op.k + 2 <= b.len() {
                filtered(ops, b, at + 1, be16(b, op.k as int) as u32, x)
            } else {
                0
            }
        } else if op.code == 0x30 {
            // load the byte at `k`
            if op.k + 1 <= b.len() {
                filtered(ops, b, at + 1, b[op.k as int] as u32, x)
            } else {
                0
            }
        } else if op.code == 0x48 {
            // load the two bytes at the index register plus `k`
            if x + op.k + 2 <= b.len() {
                filtered(ops, b, at + 1, be16(b, x + op.k) as u32, x)
            } else {
                0
            }
        } else if op.code == 0xb1 {
            // put four times the low half of the byte at `k` in the index register
            if op.k + 1 <= b.len() {
                filtered(ops, b, at + 1, a, (b[op.k as int] % 16 * 4) as u32)
            } else {
                0
            }
        } else if op.code == 0x15 {
            // skip `jt` instructions where the accumulator is `k`, or else `jf`
            filtered(
                ops,
                b,
                at + 1 + if a == op.k {
                    op.jt as int
                } else {
                    op.jf as int
                },
                a,
                x,
            )
        } else if op.code == 0x45 {
            // skip `jt` instructions where the accumulator has a bit of `k`, or else `jf`
            filtered(
                ops,
                b,
                at + 1 + if a & op.k != 0 {
                    op.jt as int
                } else {
                    op.jf as int
                },
                a,
                x,
            )
        } else if op.code == 0x06 {
            // let through `k` bytes
            op.k
        } else {
            0
        }
    }
}

/// Whether a frame is an IPv4 packet for UDP, not a later fragment, to a port.
pub open spec fn is_for_port(b: Seq<u8>, port: u16) -> bool {
    &&& b.len() >= 24
    &&& be16(b, 12) == 0x0800
    &&& b[23] == 17
    &&& be16(b, 20) % 0x2000 == 0
    &&& b.len() >= IP_START + header_len(b) + 4
    &&& be16(b, IP_START + header_len(b) + 2) == port
}

/// The packet filter for a port lets through the frames to the port, and no others.
pub proof fn lemma_filter_is_for_port(b: Seq<u8>, port: u16)
    ensures
        filtered(port_filter_ops(port), b, 0, 0, 0) > 0 <==> is_for_port(b, port),
{
    let ops = port_filter_ops(port);
    let kind = be16(b, 12) as u32;
    let offset = be16(b, 20) as u32;
    let x = (b[14] % 16 * 4) as u32;
    let to = be16(b, x + 16) as u32;
    assert(offset & 0x1fff == offset % 0x2000) by (bit_vector);
    assert(filtered(ops, b, 10, to, x) == 0);
    assert(filtered(ops, b, 10, offset, 0) == 0);
    assert(filtered(ops, b, 10, kind, 0) == 0);
    assert(filtered(ops, b, 10, b[23] as u32, 0) == 0);
    assert(filtered(ops, b, 9, to, x) == 0xffff);
    assert(filtered(ops, b, 8, to, x) > 0 <==> to == port);
    if x + 18 <= b.len() {
        assert(filtered(ops, b, 7, offset, x) == filtered(ops, b, 8, to, x));
    } else {
        assert(filtered(ops, b, 7, offset, x) == 0);
    }
    if b.len() >= 24 {
        assert(filtered(ops, b, 6, offset, 0) == filtered(ops, b, 7, offset, x));
        assert(filtered(ops, b, 5, offset, 0) == if offset % 0x2000 != 0 {
            filtered(ops, b, 10, offset, 0)
        } else {
            filtered(ops, b, 6, offset, 0)
        });
        assert(filtered(ops, b, 4, b[23] as u32, 0) == filtered(ops, b, 5, offset, 0));
        assert(filtered(ops, b, 3, b[23] as u32, 0) == if b[23] == 17 {
            filtered(ops, b, 4, b[23] as u32, 0)
        } else {
            filtered(ops, b, 10, b[23] as u32, 0)
        });
        assert(filtered(ops, b, 2, kind, 0) == filtered(ops, b, 3, b[23] as u32, 0));
    } else {
        assert(filtered(ops, b, 2, kind, 0) == 0);
    }
    if b.len() >= 14 {
        assert(filtered(ops, b, 1, kind, 0) == if kind == 0x0800 {
            filtered(ops, b, 2, kind, 0)
        } else {
            filtered(ops, b, 10, kind, 0)
        });
        assert(filtered(ops, b, 0, 0, 0) == filtered(ops, b, 1, kind, 0));
    } else {
        assert(filtered(ops, b, 0, 0, 0) == 0);
    }
}

/// The packet filter that lets through UDP packets to a port.
pub fn port_filter(port: u16) -> (ops: Vec<FilterOp>)
    ensures
        ops@ == port_filter_ops(port),
{
    vec![
        FilterOp { code: 0x28, jt: 0, jf: 0, k: 12 },
        FilterOp { code: 0x15, jt: 0, jf: 8, k: 0x0800 },
        FilterOp { code: 0x30, jt: 0, jf: 0, k: 23 },
        FilterOp { code: 0x15, jt: 0, jf: 6, k: 0x11 },
        FilterOp { code: 0x28, jt: 0, jf: 0, k: 20 },
        FilterOp { code: 0x45, jt: 4, jf: 0, k: 0x1fff },
        FilterOp { code: 0xb1, jt: 0, jf: 0, k: 14 },
        FilterOp { code: 0x48, jt: 0, jf: 0, k: 16 },
        FilterOp { code: 0x15, jt: 0, jf: 1, k: port as u32 },
        FilterOp { code: 0x06, jt: 0, jf: 0, k: 0xffff },
        FilterOp { code: 0x06, jt: 0, jf: 0, k: 0 },
    ]
}

} // verus!
