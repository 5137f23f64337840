//! Ethernet frames that carry UDP packets, written out. The payload that is taken out of a frame is
//! the one that was put in.

use vstd::prelude::*;

use crate::bytes;
use crate::pcap::{self, PcapRoute};
use crate::registry::ShredEvent;
use crate::shred;
use crate::slot;

verus! {

/// A number of two bytes, in network order.
pub open spec fn net16(n: int) -> Seq<u8> {
    seq![(n / 256) as u8, (n % 256) as u8]
}

/// An Ethernet frame with an IPv4 packet for UDP that is not fragmented.
pub struct UdpFrame {
    /// The Ethernet addresses.
    pub ethernet: Seq<u8>,
    /// The version of IP, in the upper half of its byte.
    pub ip_version: u8,
    /// The service, the total length and the identification.
    pub ip_open: Seq<u8>,
    /// The flags in front of the offset of a fragment, and whether the packet may be fragmented.
    pub reserved: bool,
    pub whole: bool,
    pub ttl: u8,
    pub checksum: Seq<u8>,
    pub source: Seq<u8>,
    pub destination: Seq<u8>,
    pub options: Seq<u8>,
    pub source_port: u16,
    pub port: u16,
    pub udp_len: u16,
    pub udp_checksum: Seq<u8>,
    pub payload: Seq<u8>,
    /// What Ethernet fills a frame up with.
    pub padding: Seq<u8>,
}

impl UdpFrame {
    /// The fields are as long as they must be, and the length in the UDP header is that of the
    /// payload and the header itself; one that is shorter than the header stands for no payload.
    pub open spec fn wf(self) -> bool {
        &&& self.ethernet.len() == 12
        &&& self.ip_version < 16
        &&& self.ip_open.len() == 5
        &&& self.checksum.len() == 2
        &&& self.source.len() == 4
        &&& self.destination.len() == 4
        &&& self.options.len() <= 40
        &&& self.options.len() % 4 == 0
        &&& self.udp_checksum.len() == 2
        &&& self.udp_len == 8 + self.payload.len() || (self.udp_len < 8 && self.payload.len() == 0)
    }

    /// The version of IP and the length of its header, in words of four bytes.
    pub open spec fn ip_byte(self) -> u8 {
        (16 * self.ip_version + (20 + self.options.len()) / 4) as u8
    }

    pub open spec fn flag_byte(self) -> u8 {
        ((if self.reserved {
            0x80int
        } else {
            0
        }) + if self.whole {
            0x40int
        } else {
            0
        }) as u8
    }

    pub open spec fn udp_bytes(self) -> Seq<u8> {
        net16(self.source_port as int) + (net16(self.port as int) + (net16(self.udp_len as int) + (
        self.udp_checksum + (self.payload + self.padding))))
    }

    pub open spec fn bytes(self) -> Seq<u8> {
        self.ethernet + (net16(0x0800) + (seq![self.ip_byte()] + (self.ip_open + (seq![
            self.flag_byte(),
            0u8,
            self.ttl,
            17u8,
        ] + (self.checksum + (self.source + (self.destination + (self.options
            + self.udp_bytes()))))))))
    }
}

/// The bytes of a part stand where the part does.
proof fn lemma_byte_of(b: Seq<u8>, at: int, part: Seq<u8>, i: int)
    requires
        bytes::stands(b, at, part),
        0 <= i < part.len(),
    ensures
        b[at + i] == part[i],
{
    assert(b.subrange(at, at + part.len())[i] == part[i]);
}

proof fn lemma_ip_bytes(f: UdpFrame)
    requires
        f.wf(),
    ensures
        f.ip_byte() % 16 * 4 == 20 + f.options.len(),
        f.flag_byte() % 64 == 0,
{
    let words = (20 + f.options.len()) / 4;
    assert(words < 16 && words * 4 == 20 + f.options.len());
    assert(f.ip_byte() == 16 * f.ip_version + words);
}

proof fn lemma_net16(b: Seq<u8>, at: int, n: u16)
    requires
        bytes::stands(b, at, net16(n as int)),
    ensures
        pcap::be16(b, at) == n,
{
    lemma_byte_of(b, at, net16(n as int), 0);
    lemma_byte_of(b, at, net16(n as int), 1);
}

/// Where the parts of a frame in front of its UDP packet stand.
proof fn lemma_ip_parts(f: UdpFrame)
    requires
        f.wf(),
    ensures
        ({
            let b = f.bytes();
            let udp = (34 + f.options.len()) as int;
            &&& b.len() == udp + f.udp_bytes().len()
            &&& pcap::be16(b, 12) == 0x0800
            &&& b[14] == f.ip_byte()
            &&& b[20] == f.flag_byte()
            &&& b[21] == 0
            &&& b[23] == 17
            &&& bytes::stands(b, 26, f.source)
            &&& bytes::stands(b, udp, f.udp_bytes())
        }),
{
    let b = f.bytes();
    let p2 = net16(0x0800);
    let p3 = seq![f.ip_byte()];
    let p5 = seq![f.flag_byte(), 0u8, f.ttl, 17u8];
    let r9 = f.options + f.udp_bytes();
    let r8 = f.destination + r9;
    let r7 = f.source + r8;
    let r6 = f.checksum + r7;
    let r5 = p5 + r6;
    let r4 = f.ip_open + r5;
    let r3 = p3 + r4;
    let r2 = p2 + r3;
    assert(b == f.ethernet + r2);
    assert(b.subrange(0, b.len() as int) =~= b);
    bytes::lemma_stands_both(b, 0, f.ethernet, r2);
    bytes::lemma_stands_both(b, 12, p2, r3);
    bytes::lemma_stands_both(b, 14, p3, r4);
    bytes::lemma_stands_both(b, 15, f.ip_open, r5);
    bytes::lemma_stands_both(b, 20, p5, r6);
    bytes::lemma_stands_both(b, 24, f.checksum, r7);
    bytes::lemma_stands_both(b, 26, f.source, r8);
    bytes::lemma_stands_both(b, 30, f.destination, r9);
    bytes::lemma_stands_both(b, 34, f.options, f.udp_bytes());
    lemma_net16(b, 12, 0x0800);
    lemma_byte_of(b, 14, p3, 0);
    lemma_byte_of(b, 20, p5, 0);
    lemma_byte_of(b, 20, p5, 1);
    lemma_byte_of(b, 20, p5, 3);
}

/// Where the parts of the UDP packet of a frame stand.
proof fn lemma_udp_parts(b: Seq<u8>, udp: int, f: UdpFrame)
    requires
        f.wf(),
        bytes::stands(b, udp, f.udp_bytes()),
    ensures
        f.udp_bytes().len() == 8 + f.payload.len() + f.padding.len(),
        pcap::be16(b, udp + 2) == f.port,
        pcap::be16(b, udp + 4) == f.udp_len,
        bytes::stands(b, udp + 8, f.payload),
{
    let q1 = net16(f.source_port as int);
    let q2 = net16(f.port as int);
    let q3 = net16(f.udp_len as int);
    let s4 = f.payload + f.padding;
    bytes::lemma_stands_both(b, udp, q1, q2 + (q3 + (f.udp_checksum + s4)));
    bytes::lemma_stands_both(b, udp + 2, q2, q3 + (f.udp_checksum + s4));
    bytes::lemma_stands_both(b, udp + 4, q3, f.udp_checksum + s4);
    bytes::lemma_stands_both(b, udp + 6, f.udp_checksum, s4);
    bytes::lemma_stands_both(b, udp + 8, f.payload, f.padding);
    lemma_net16(b, udp + 2, f.port);
    lemma_net16(b, udp + 4, f.udp_len);
}

/// The payload of every frame is taken out of it whole, and so is the address that it came from.
pub proof fn lemma_wrapped_is_unwrapped(f: UdpFrame)
    requires
        f.wf(),
    ensures
        pcap::udp_payload(f.bytes()) == Some(f.payload),
        pcap::source_ip(f.bytes()) == Some(
            (0x100_0000 * f.source[0] + 0x1_0000 * f.source[1] + 0x100 * f.source[2]
                + f.source[3]) as u32,
        ),
{
    let b = f.bytes();
    let udp = (34 + f.options.len()) as int;
    lemma_ip_parts(f);
    lemma_ip_bytes(f);
    lemma_udp_parts(b, udp, f);
    lemma_byte_of(b, 26, f.source, 0);
    lemma_byte_of(b, 26, f.source, 1);
    lemma_byte_of(b, 26, f.source, 2);
    lemma_byte_of(b, 26, f.source, 3);
    assert(pcap::header_len(b) == 20 + f.options.len());
    assert(pcap::be16(b, 20) % 0x4000 == 0);
    assert(pcap::payload_range(b) == Some((udp + 8, udp + 8 + f.payload.len())));
}

/// A frame passes the packet filter of the port that it goes to, and of no other.
pub proof fn lemma_filter_tells_ports(f: UdpFrame, port: u16)
    requires
        f.wf(),
    ensures
        pcap::filtered(pcap::port_filter_ops(port), f.bytes(), 0, 0, 0) > 0 <==> port == f.port,
{
    let b = f.bytes();
    lemma_ip_parts(f);
    lemma_ip_bytes(f);
    lemma_udp_parts(b, (34 + f.options.len()) as int, f);
    assert(pcap::header_len(b) == 20 + f.options.len());
    assert(pcap::be16(b, 20) % 0x2000 == 0);
    assert(pcap::is_for_port(b, port) <==> port == f.port);
    pcap::lemma_filter_is_for_port(b, port);
}

proof fn lemma_net16_read(b: Seq<u8>, at: int)
    requires
        0 <= at,
        at + 2 <= b.len(),
    ensures
        net16(pcap::be16(b, at)) == b.subrange(at, at + 2),
        0 <= pcap::be16(b, at) <= 0xffff,
{
    assert(net16(pcap::be16(b, at)) =~= b.subrange(at, at + 2));
}

/// What has a payload is such a frame, with that payload.
pub proof fn lemma_unwrapped_was_wrapped(b: Seq<u8>)
    requires
        pcap::udp_payload(b) is Some,
    ensures
        exists|f: UdpFrame|
            f.wf() && b == #[trigger] f.bytes() && pcap::udp_payload(b) == Some(f.payload),
{
    let udp = 14 + pcap::header_len(b);
    let (start, end) = pcap::payload_range(b)->0;
    let f = UdpFrame {
        ethernet: b.subrange(0, 12),
        ip_version: b[14] / 16,
        ip_open: b.subrange(15, 20),
        reserved: b[20] / 128 == 1,
        whole: b[20] / 64 % 2 == 1,
        ttl: b[22],
        checksum: b.subrange(24, 26),
        source: b.subrange(26, 30),
        destination: b.subrange(30, 34),
        options: b.subrange(34, udp),
        source_port: pcap::be16(b, udp) as u16,
        port: pcap::be16(b, udp + 2) as u16,
        udp_len: pcap::be16(b, udp + 4) as u16,
        udp_checksum: b.subrange(udp + 6, udp + 8),
        payload: b.subrange(start, end),
        padding: b.subrange(end, b.len() as int),
    };
    lemma_net16_read(b, 12);
    lemma_net16_read(b, udp);
    lemma_net16_read(b, udp + 2);
    lemma_net16_read(b, udp + 4);
    assert(f.wf());
    let p3 = seq![f.ip_byte()];
    let p5 = seq![f.flag_byte(), 0u8, f.ttl, 17u8];
    assert(p3 =~= b.subrange(14, 15));
    assert(p5 =~= b.subrange(20, 24));
    let n = b.len() as int;
    assert(f.udp_bytes() =~= b.subrange(udp, n));
    let r9 = f.options + f.udp_bytes();
    assert(r9 =~= b.subrange(34, n));
    let r8 = f.destination + r9;
    assert(r8 =~= b.subrange(30, n));
    let r7 = f.source + r8;
    assert(r7 =~= b.subrange(26, n));
    let r6 = f.checksum + r7;
    assert(r6 =~= b.subrange(24, n));
    let r5 = p5 + r6;
    assert(r5 =~= b.subrange(20, n));
    let r4 = f.ip_open + r5;
    assert(r4 =~= b.subrange(15, n));
    let r3 = p3 + r4;
    assert(r3 =~= b.subrange(14, n));
    let r2 = net16(0x0800) + r3;
    assert(r2 =~= b.subrange(12, n));
    assert(f.bytes() == f.ethernet + r2);
    assert(b =~= f.bytes());
}

/// Whether a route takes packets from an address: from those that it names, or from all where it
/// names none, but never from one that it leaves out.
pub open spec fn takes_from(route: PcapRoute, ip: u32) -> bool {
    &&& route.include_ips@ =~= Set::empty() || route.include_ips@.contains(ip)
    &&& !route.exclude_ips@.contains(ip)
}

/// The routes that take packets from an address.
pub open spec fn taking_from(ip: u32) -> spec_fn(PcapRoute) -> bool {
    |route: PcapRoute| takes_from(route, ip)
}

/// The shred in a frame is handed, whole and with the time that it came, to every route that takes
/// packets from the address of the frame, in the order of the routes, and to no other.
pub proof fn lemma_shred_goes_to_its_routes(
    events: Seq<ShredEvent>,
    f: UdpFrame,
    routes: Seq<PcapRoute>,
    received_at: u64,
)
    requires
        f.wf(),
        pcap::routed(events, f.bytes(), routes, received_at),
    ensures
        shred::shred_key(f.payload) is None ==> events.len() == 0,
        shred::shred_key(f.payload) matches Some(key) ==> {
            let ip = pcap::source_ip(f.bytes())->0;
            &&& events.map_values(|event: ShredEvent| event.source) == routes.filter(
                taking_from(ip),
            ).map_values(|route: PcapRoute| route.source_id)
            &&& forall|i: int|
                #![trigger events[i]]
                0 <= i < events.len() ==> events[i].key == key && events[i].received_at
                    == received_at && events[i].payload@ == f.payload
        },
{
    lemma_wrapped_is_unwrapped(f);
    if shred::shred_key(f.payload) is Some {
        let ip = pcap::source_ip(f.bytes())->0;
        let places = pcap::matching(routes, Some(ip), routes.len() as int);
        assert forall|i: int| 0 <= i < events.len() implies (#[trigger] events[i]).source
            == routes[places[i]].source_id by {}
        lemma_sources(events, routes, ip);
    }
}

proof fn lemma_sources(events: Seq<ShredEvent>, routes: Seq<PcapRoute>, ip: u32)
    requires
        ({
            let places = pcap::matching(routes, Some(ip), routes.len() as int);
            &&& events.len() == places.len()
            &&& forall|i: int|
                0 <= i < events.len() ==> (#[trigger] events[i]).source
                    == routes[places[i]].source_id
        }),
    ensures
        events.map_values(|event: ShredEvent| event.source) == routes.filter(
            taking_from(ip),
        ).map_values(|route: PcapRoute| route.source_id),
{
    lemma_matching(routes, ip, routes.len() as int);
    assert(routes.take(routes.len() as int) =~= routes);
    let taken = routes.filter(taking_from(ip));
    assert forall|i: int| 0 <= i < events.len() implies (#[trigger] events[i]).source
        == taken[i].source_id by {}
    assert(events.map_values(|event: ShredEvent| event.source) =~= taken.map_values(
        |route: PcapRoute| route.source_id,
    ));
}

/// The routes that match are those that take packets from the address.
proof fn lemma_matching(routes: Seq<PcapRoute>, ip: u32, count: int)
    requires
        0 <= count <= routes.len(),
    ensures
        ({
            let places = pcap::matching(routes, Some(ip), count);
            let taken = routes.take(count).filter(taking_from(ip));
            &&& places.len() == taken.len()
            &&& forall|i: int|
                #![trigger taken[i]]
                0 <= i < places.len() ==> taken[i] == routes[places[i]]
        }),
    decreases count,
{
    reveal(Seq::filter);
    if count == 0 {
        assert(routes.take(0).filter(taking_from(ip)).len() == 0);
    } else {
        lemma_matching(routes, ip, count - 1);
        assert(routes.take(count).drop_last() =~= routes.take(count - 1));
        let route = routes[count - 1];
        assert(routes.take(count).last() == route);
        lemma_takes_from(route, ip);
        let before = routes.take(count - 1).filter(taking_from(ip));
        let taken = routes.take(count).filter(taking_from(ip));
        let places = pcap::matching(routes, Some(ip), count);
        assert(taken == if takes_from(route, ip) {
            before.push(route)
        } else {
            before
        });
        let fewer = pcap::matching(routes, Some(ip), count - 1);
        assert(places == if takes_from(route, ip) {
            fewer.push(count - 1)
        } else {
            fewer
        });
        assert(places.len() == taken.len());
        assert forall|i: int|
            #![trigger taken[i]]
            0 <= i < places.len() implies taken[i] == routes[places[i]] by {
            if i < before.len() {
                assert(taken[i] == before[i]);
            }
        }
    }
}

proof fn lemma_takes_from(route: PcapRoute, ip: u32)
    ensures
        pcap::matches_route(route, Some(ip)) == takes_from(route, ip),
{
    slot::lemma_finite(route.include_ips@);
    slot::lemma_finite(route.exclude_ips@);
    if route.include_ips@.len() == 0 {
        assert(route.include_ips@ =~= Set::empty());
    }
    if route.exclude_ips@.len() == 0 {
        assert(route.exclude_ips@ =~= Set::empty());
    }
}

} // verus!
