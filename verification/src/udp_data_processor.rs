use vstd::prelude::*;
use std::collections::HashMap;
use crate::client_server_pair::{
    ClientServerPair, Packet, PacketView, PairKeys, be_u16, be_u32, packet_view, conv_of, fed_queue, feed_ok, queue_of, readable, ready_message, receive_outcome, table_ok, pkcs1_pem_accepted,
};

verus! {

/// Bytes of an Ethernet header.
pub const ETHERNET_HEADER_LEN: usize = 14;

/// Bytes of an IPv4 header without options.
pub const IPV4_HEADER_LEN: usize = 20;

/// Bytes of a UDP header.
pub const UDP_HEADER_LEN: usize = 8;

/// Size of the transport's control datagrams.
pub const CONTROL_LEN: usize = 20;

/// Magic of the server's connect datagram.
pub const CONNECT_MAGIC: u32 = 0x145;

/// Magic of a disconnect datagram.
pub const DISCONNECT_MAGIC: u32 = 0x194;

/// The two server ports; traffic from any other port comes from the client.
pub const SERVER_PORT_A: u16 = 22101;

pub const SERVER_PORT_B: u16 = 22102;

/// The UDP payload and source port of a captured IPv4 datagram, after the
/// Ethernet header when `is_ether`.
pub open spec fn headers_removed(d: Seq<u8>, is_ether: bool) -> (Seq<u8>, u16) {
    let ip = if is_ether { d.subrange(ETHERNET_HEADER_LEN as int, d.len() as int) } else { d };
    (ip.subrange((IPV4_HEADER_LEN + UDP_HEADER_LEN) as int, ip.len() as int), be_u16(ip[20], ip[21]))
}

/// The captured datagram is long enough to hold the headers it is read with.
pub open spec fn holds_headers(d: Seq<u8>, is_ether: bool) -> bool {
    d.len() >= (if is_ether { ETHERNET_HEADER_LEN } else { 0 }) + IPV4_HEADER_LEN + UDP_HEADER_LEN
}

/// The bytes of headers a datagram captured with (`is_ether`) or without a
/// link header must at least hold.
pub fn holds_headers_len(is_ether: bool) -> (r: usize)
    ensures
        forall|d: Seq<u8>| holds_headers(d, is_ether) <==> d.len() >= r,
{
    if is_ether {
        ETHERNET_HEADER_LEN + IPV4_HEADER_LEN + UDP_HEADER_LEN
    } else {
        IPV4_HEADER_LEN + UDP_HEADER_LEN
    }
}

/// Strips the Ethernet header (when `is_ether`), the IPv4 header and the UDP
/// header, and returns the payload with the UDP source port.
pub fn remove_headers(data: Vec<u8>, is_ether: bool) -> (r: (Vec<u8>, u16))
    requires
        holds_headers(data@, is_ether),
    ensures
        (r.0@, r.1) == headers_removed(data@, is_ether),
{
    let data = if is_ether {
        copy_from(&data, ETHERNET_HEADER_LEN)
    } else {
        data
    };
    let source_port = (data[20] as u16) * 256 + data[21] as u16;
    let payload = copy_from(&data, IPV4_HEADER_LEN + UDP_HEADER_LEN);
    (payload, source_port)
}

/// The bytes of `data` from `from` on.
pub fn copy_from(data: &Vec<u8>, from: usize) -> (r: Vec<u8>)
    requires
        from <= data@.len(),
    ensures
        r@ == data@.subrange(from as int, data@.len() as int),
{
    let mut r: Vec<u8> = Vec::new();
    let mut i = from;
    while i < data.len()
        invariant
            from <= i <= data@.len(),
            r@ == data@.subrange(from as int, i as int),
        decreases data@.len() - i,
    {
        r.push(data[i]);
        i = i + 1;
    }
    r
}

/// Whether traffic from `port` comes from the client.
pub open spec fn client_port(port: u16) -> bool {
    port != SERVER_PORT_A && port != SERVER_PORT_B
}

pub fn is_client_port(port: u16) -> (r: bool)
    ensures
        r == client_port(port),
{
    port != SERVER_PORT_A && port != SERVER_PORT_B
}

/// A datagram captured with an Ethernet header holds 42 header bytes, one
/// captured without holds 28. The payload is everything after them, and the
/// source port is the big-endian value of the two bytes right after the IPv4
/// header (bytes 34 and 35, or 20 and 21).
pub proof fn lemma_headers_layout(d: Seq<u8>, is_ether: bool)
    ensures
        holds_headers(d, is_ether) == (d.len() >= if is_ether { 42int } else { 28int }),
        holds_headers(d, is_ether) ==> {
            let off: int = if is_ether { 14 } else { 0 };
            &&& headers_removed(d, is_ether).0 == d.subrange(off + 28, d.len() as int)
            &&& headers_removed(d, is_ether).1 as int == d[off + 20] as int * 256 + d[off + 21] as int
        },
{
}

/// Traffic comes from the server when its source port is 22101 or 22102, and
/// from the client otherwise.
pub proof fn lemma_client_ports(port: u16)
    ensures
        client_port(port) == (port != 22101u16 && port != 22102u16),
{
}

/// A control datagram of the transport.
#[derive(Debug, Clone, Copy, PartialEq, Eq, Structural)]
pub enum Control {
    /// The server opens conversation `conv`.
    Connect { conv: u32, token: u32 },
    /// One side closes the connection.
    Disconnect,
    /// A control datagram of an unknown kind.
    Unknown { magic: u32 },
}

/// The control message a datagram carries: datagrams of `CONTROL_LEN` bytes
/// are control messages, told apart by their first four bytes.
pub open spec fn control_of(d: Seq<u8>) -> Option<Control> {
    if d.len() == CONTROL_LEN {
        let magic = be_u32(d[0], d[1], d[2], d[3]);
        if magic == CONNECT_MAGIC {
            Some(Control::Connect { conv: be_u32(d[4], d[5], d[6], d[7]), token: be_u32(d[8], d[9], d[10], d[11]) })
        } else if magic == DISCONNECT_MAGIC {
            Some(Control::Disconnect)
        } else {
            Some(Control::Unknown { magic })
        }
    } else {
        None
    }
}

fn read_be_u32(d: &Vec<u8>, at: usize) -> (r: u32)
    requires
        at + 4 <= d.len(),
    ensures
        r == be_u32(d@[at as int], d@[at + 1], d@[at + 2], d@[at + 3]),
{
    (d[at] as u32) * 16777216 + (d[at + 1] as u32) * 65536 + (d[at + 2] as u32) * 256 + d[at + 3] as u32
}

/// Datagrams of 20 bytes are control messages, told apart by the big-endian
/// value of their first four bytes: 0x145 is a connect whose conversation id
/// and token are the big-endian values of bytes 4 to 7 and 8 to 11, 0x194 a
/// disconnect, any other value an unknown kind carrying it. Other datagrams
/// are no control messages.
pub proof fn lemma_control_fields(d: Seq<u8>)
    ensures
        d.len() != 20 ==> control_of(d) is None,
        d.len() == 20 ==> {
            let magic = d[0] as int * 0x100_0000 + d[1] as int * 0x1_0000 + d[2] as int * 0x100 + d[3] as int;
            &&& magic == 0x145 ==> (control_of(d) matches Some(Control::Connect { conv, token }) && conv as int
                == d[4] as int * 0x100_0000 + d[5] as int * 0x1_0000 + d[6] as int * 0x100 + d[7] as int
                && token as int == d[8] as int * 0x100_0000 + d[9] as int * 0x1_0000 + d[10] as int * 0x100
                + d[11] as int)
            &&& magic == 0x194 ==> control_of(d) == Some(Control::Disconnect)
            &&& (magic != 0x145 && magic != 0x194) ==> (control_of(d) matches Some(Control::Unknown { magic: m })
                && m as int == magic)
        },
{
}

/// Reads the control message of a datagram, if it is one.
pub fn control_message(data: &Vec<u8>) -> (r: Option<Control>)
    ensures
        r == control_of(data@),
{
    if data.len() != CONTROL_LEN {
        return None;
    }
    let magic = read_be_u32(data, 0);
    if magic == CONNECT_MAGIC {
        Some(Control::Connect { conv: read_be_u32(data, 4), token: read_be_u32(data, 8) })
    } else if magic == DISCONNECT_MAGIC {
        Some(Control::Disconnect)
    } else {
        Some(Control::Unknown { magic })
    }
}

/// The receive queue of side `side` after `data` is fed to side `fed`.
pub open spec fn queue_after_feed(p: ClientServerPair, fed: bool, side: bool, data: Seq<u8>) -> Seq<(u8, Seq<u8>)> {
    if side == fed {
        fed_queue(p.transport(side), data)
    } else {
        queue_of(p.transport(side))
    }
}

/// `data` can be fed to side `fed` and both queues read afterwards.
pub open spec fn feed_receivable(p: ClientServerPair, fed: bool, data: Seq<u8>) -> bool {
    &&& feed_ok(p.transport(fed), data)
    &&& readable(queue_after_feed(p, fed, true, data))
    &&& readable(queue_after_feed(p, fed, false, data))
}

/// The keys and the two packets after `data` is fed to side `fed` and a
/// message is taken from the client side, then from the server side.
pub open spec fn feed_outcome(p: ClientServerPair, fed: bool, data: Seq<u8>) -> (PairKeys, Option<PacketView>, Option<PacketView>) {
    let (k1, p1) = receive_outcome(p.keys(), p.table(), queue_after_feed(p, fed, true, data), true);
    let (k2, p2) = receive_outcome(k1, p.table(), queue_after_feed(p, fed, false, data), false);
    (k2, p1, p2)
}

/// Feeds a data datagram to its side and receives from the client side, then
/// from the server side.
pub(crate) fn feed_and_receive(pair: &mut ClientServerPair, data: &Vec<u8>, is_client: bool) -> (r: (Option<Packet>, Option<Packet>))
    requires
        old(pair).wf(),
        feed_receivable(*old(pair), is_client, data@),
    ensures
        final(pair).wf(),
        final(pair).table() == old(pair).table(),
        final(pair).private_key_pem() == old(pair).private_key_pem(),
        (final(pair).keys(), packet_view(r.0), packet_view(r.1)) == feed_outcome(*old(pair), is_client, data@),
        conv_of(final(pair).transport(true)) == conv_of(old(pair).transport(true)),
        conv_of(final(pair).transport(false)) == conv_of(old(pair).transport(false)),
        ready_message(queue_after_feed(*old(pair), is_client, true, data@)) is None ==> queue_of(
            final(pair).transport(true),
        ) == queue_after_feed(*old(pair), is_client, true, data@),
        ready_message(queue_after_feed(*old(pair), is_client, false, data@)) is None ==> queue_of(
            final(pair).transport(false),
        ) == queue_after_feed(*old(pair), is_client, false, data@),
{
    let ghost p0 = *pair;
    pair.add_data(data.as_slice(), is_client);
    assert(queue_of(pair.transport(true)) == queue_after_feed(p0, is_client, true, data@));
    assert(queue_of(pair.transport(false)) == queue_after_feed(p0, is_client, false, data@));
    let p1 = pair.recv_kcp(true);
    let p2 = pair.recv_kcp(false);
    (p1, p2)
}

/// The capture side of the sniffer: it turns UDP payloads into packets.
pub struct UdpDataProcessor {
    pub client_server_pair: ClientServerPair,
}

impl UdpDataProcessor {
    pub fn new(rsa_pem: String, dispatch_keys: HashMap<u16, Vec<u8>>) -> (r: Option<UdpDataProcessor>)
        requires
            table_ok(dispatch_keys@),
        ensures
            r is Some == pkcs1_pem_accepted(rsa_pem@),
            r matches Some(p) ==> {
                &&& p.client_server_pair.wf()
                &&& p.client_server_pair.table() == dispatch_keys@
                &&& p.client_server_pair.private_key_pem() == rsa_pem@
                &&& p.client_server_pair.keys().session_key is None
                &&& p.client_server_pair.keys().dispatch_key is None
                &&& p.client_server_pair.transport(true) is None
                &&& p.client_server_pair.transport(false) is None
            },
    {
        match ClientServerPair::new(rsa_pem, dispatch_keys) {
            Some(client_server_pair) => Some(UdpDataProcessor { client_server_pair }),
            None => None,
        }
    }

    /// Handles one UDP payload from `port`. A control datagram is returned and
    /// not fed on (a connect sets up both transports); any other datagram is
    /// fed to its side, and both sides are asked for a packet.
    pub fn handle_datagram(&mut self, data: &Vec<u8>, port: u16) -> (r: (Option<Control>, Option<Packet>, Option<Packet>))
        requires
            old(self).client_server_pair.wf(),
            control_of(data@) is Some || feed_receivable(old(self).client_server_pair, client_port(port), data@),
        ensures
            final(self).client_server_pair.wf(),
            final(self).client_server_pair.table() == old(self).client_server_pair.table(),
            final(self).client_server_pair.private_key_pem() == old(self).client_server_pair.private_key_pem(),
            r.0 == control_of(data@),
            r.0 is Some ==> r.1 is None && r.2 is None && final(self).client_server_pair.keys() == old(self).client_server_pair.keys(),
            r.0 matches Some(Control::Connect { conv, .. }) ==> {
                &&& queue_of(final(self).client_server_pair.transport(true)) == Seq::<(u8, Seq<u8>)>::empty()
                &&& queue_of(final(self).client_server_pair.transport(false)) == Seq::<(u8, Seq<u8>)>::empty()
                &&& conv_of(final(self).client_server_pair.transport(true)) == Some(conv)
                &&& conv_of(final(self).client_server_pair.transport(false)) == Some(conv)
            },
            (r.0 matches Some(Control::Disconnect)) || (r.0 matches Some(Control::Unknown { .. })) ==> {
                &&& final(self).client_server_pair.transport(true) == old(self).client_server_pair.transport(true)
                &&& final(self).client_server_pair.transport(false) == old(self).client_server_pair.transport(false)
            },
            r.0 is None ==> (final(self).client_server_pair.keys(), packet_view(r.1), packet_view(r.2)) == feed_outcome(
                old(self).client_server_pair,
                client_port(port),
                data@,
            ),
    {
        let is_client = is_client_port(port);
        let control = control_message(data);
        match control {
            Some(c) => {
                match c {
                    Control::Connect { conv, token } => {
                        self.client_server_pair.init_kcp(conv, token);
                    },
                    _ => {},
                }
                (Some(c), None, None)
            },
            None => {
                let (p1, p2) = feed_and_receive(&mut self.client_server_pair, data, is_client);
                (None, p1, p2)
            },
        }
    }
}

} // verus!
