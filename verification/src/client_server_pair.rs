use vstd::prelude::*;
use std::collections::HashMap;
use std::io::Write;
use crate::key_bruteforce::{KeyBruteforce, bruteforce_outcome};
use crate::mtkey::{Mtkey, key_stream, xor_with_key, lemma_xor_involution, KEY_LEN};

verus! {

/// First byte of a frame's head magic.
pub const HEAD_MAGIC_0: u8 = 0x45;

/// Second byte of a frame's head magic.
pub const HEAD_MAGIC_1: u8 = 0x67;

/// Next-to-last byte of a frame's tail magic.
pub const TAIL_MAGIC_0: u8 = 0x89;

/// Last byte of a frame's tail magic.
pub const TAIL_MAGIC_1: u8 = 0xAB;

/// Bytes before a frame's header: magic, command id, header size, body size.
pub const FRAME_HEAD_LEN: usize = 10;

/// The big-endian 16-bit value of two bytes.
pub open spec fn be_u16(a: u8, b: u8) -> u16 {
    (a as int * 256 + b as int) as u16
}

/// The big-endian 32-bit value of four bytes.
pub open spec fn be_u32(a: u8, b: u8, c: u8, d: u8) -> u32 {
    (a as int * 16777216 + b as int * 65536 + c as int * 256 + d as int) as u32
}

/// `d` starts with the head magic and, when longer than two bytes, ends with
/// the tail magic.
pub open spec fn frame_ok(d: Seq<u8>) -> bool {
    &&& d.len() >= 2
    &&& d[0] == HEAD_MAGIC_0
    &&& d[1] == HEAD_MAGIC_1
    &&& d.len() > 2 ==> d[d.len() - 2] == TAIL_MAGIC_0 && d[d.len() - 1] == TAIL_MAGIC_1
}

/// The header size field of a frame.
pub open spec fn frame_header_size(d: Seq<u8>) -> u16 {
    be_u16(d[4], d[5])
}

/// The frame holds its ten head bytes, the header it announces and the two
/// tail bytes.
pub open spec fn layout_ok(d: Seq<u8>) -> bool {
    d.len() >= FRAME_HEAD_LEN + 2 && FRAME_HEAD_LEN + frame_header_size(d) + 2 <= d.len()
}

/// Abstract view of a packet.
pub ghost struct PacketView {
    pub cmdid: u16,
    pub header_size: u16,
    pub data_size: u32,
    pub is_client: bool,
    pub header: Seq<u8>,
    pub data: Seq<u8>,
}

/// The packet a well laid out frame holds: the header after the ten head
/// bytes, and the body from there up to the tail magic.
pub open spec fn frame_packet(d: Seq<u8>, is_client: bool) -> PacketView {
    let hs = frame_header_size(d) as int;
    PacketView {
        cmdid: be_u16(d[2], d[3]),
        header_size: frame_header_size(d),
        data_size: be_u32(d[6], d[7], d[8], d[9]),
        is_client,
        header: d.subrange(10, 10 + hs),
        data: d.subrange(10 + hs, d.len() - 2),
    }
}

/// A decrypted game packet.
#[derive(Debug, Clone)]
pub struct Packet {
    pub cmdid: u16,
    pub header_size: u16,
    pub data_size: u32,
    pub is_client: bool,
    pub header: Vec<u8>,
    pub data: Vec<u8>,
}

impl View for Packet {
    type V = PacketView;

    open spec fn view(&self) -> PacketView {
        PacketView {
            cmdid: self.cmdid,
            header_size: self.header_size,
            data_size: self.data_size,
            is_client: self.is_client,
            header: self.header@,
            data: self.data@,
        }
    }
}

/// The key material of a connection, as the decryption sees it.
pub ghost struct PairKeys {
    pub session_key: Option<Seq<u8>>,
    pub dispatch_key: Option<Seq<u8>>,
    pub send_time: Option<u64>,
    pub server_seed: Option<u64>,
    pub remembered: Seq<i64>,
}

/// The bytes of a key, if there is one.
pub open spec fn key_bytes(k: Option<Mtkey>) -> Option<Seq<u8>> {
    match k {
        Some(key) => Some(key.keybuf@),
        None => None,
    }
}

/// What decrypting `d` does to the keys and to the bytes, and whether the
/// packet goes on to be checked and parsed.
pub open spec fn decrypt_step(k: PairKeys, table: Map<u16, Vec<u8>>, d: Seq<u8>) -> (PairKeys, Seq<u8>, bool) {
    match k.session_key {
        Some(sk) => {
            let d2 = xor_with_key(d, sk);
            let k2 = if frame_ok(d2) { k } else { PairKeys { session_key: None, ..k } };
            (k2, d2, true)
        },
        None => match k.dispatch_key {
            Some(dk) => {
                if frame_ok(xor_with_key(d.subrange(0, 2), dk)) {
                    (k, xor_with_key(d, dk), true)
                } else {
                    match (k.send_time, k.server_seed) {
                        (Some(t), Some(s)) => {
                            let (found, rem) = bruteforce_outcome(k.remembered, t, s, d);
                            match found {
                                Some(seed) => {
                                    let d2 = xor_with_key(d, key_stream(seed));
                                    let sk = if frame_ok(d2) { Some(key_stream(seed)) } else { None };
                                    (PairKeys { session_key: sk, remembered: rem, ..k }, d2, sk is Some)
                                },
                                None => (PairKeys { remembered: rem, ..k }, d, false),
                            }
                        },
                        _ => (k, d, false),
                    }
                }
            },
            None => {
                let first = be_u16(d[0] ^ HEAD_MAGIC_0, d[1] ^ HEAD_MAGIC_1);
                if table.contains_key(first) {
                    (PairKeys { dispatch_key: Some(table[first]@), ..k }, xor_with_key(d, table[first]@), true)
                } else {
                    (k, d, true)
                }
            },
        },
    }
}

/// The packet that decrypting `d` yields, if any.
pub open spec fn decrypt_result(k: PairKeys, table: Map<u16, Vec<u8>>, d: Seq<u8>, is_client: bool) -> Option<
    PacketView,
> {
    let (_, d2, go_on) = decrypt_step(k, table, d);
    if go_on && frame_ok(d2) && layout_ok(d2) {
        Some(frame_packet(d2, is_client))
    } else {
        None
    }
}

/// Decrypting `d` from keys `k0` leaves keys `k1` and yields packet `r`.
pub open spec fn decrypts_to(
    k0: PairKeys,
    table: Map<u16, Vec<u8>>,
    d: Seq<u8>,
    is_client: bool,
    k1: PairKeys,
    r: Option<PacketView>,
) -> bool {
    &&& decrypt_step(k0, table, d).0 == k1
    &&& decrypt_result(k0, table, d, is_client) == r
}

/// The view of a packet, if there is one.
pub open spec fn packet_view(r: Option<Packet>) -> Option<PacketView> {
    match r {
        Some(p) => Some(p@),
        None => None,
    }
}

/// A frame starts with the bytes 0x45 0x67 and, when longer than two bytes,
/// ends with 0x89 0xAB. Its command id, header size and body size are the
/// big-endian values of bytes 2 to 3, 4 to 5 and 6 to 9; the header is the
/// header-size bytes after those ten, and the body runs from there to the two
/// last bytes.
pub proof fn lemma_frame_fields(d: Seq<u8>, is_client: bool)
    ensures
        frame_ok(d) == (d.len() >= 2 && d[0] == 0x45u8 && d[1] == 0x67u8 && (d.len() > 2 ==> d[d.len() - 2] == 0x89u8
            && d[d.len() - 1] == 0xABu8)),
        d.len() >= 10 ==> {
            let hs = d[4] as int * 256 + d[5] as int;
            &&& layout_ok(d) == (d.len() >= 12 && 10 + hs + 2 <= d.len())
            &&& frame_packet(d, is_client).cmdid as int == d[2] as int * 256 + d[3] as int
            &&& frame_packet(d, is_client).header_size as int == hs
            &&& frame_packet(d, is_client).data_size as int == d[6] as int * 0x100_0000 + d[7] as int * 0x1_0000
                + d[8] as int * 0x100 + d[9] as int
            &&& frame_packet(d, is_client).is_client == is_client
            &&& (layout_ok(d) ==> {
                &&& frame_packet(d, is_client).header == d.subrange(10, 10 + hs)
                &&& frame_packet(d, is_client).data == d.subrange(10 + hs, d.len() - 2)
            })
        },
{
}

/// Before any key is known, the dispatch key is looked up under the number
/// that the first two bytes, xored with 0x45 and 0x67, make big-endian: where
/// the table has one, it is kept and the bytes are decrypted with it;
/// otherwise nothing changes. Either way the bytes go on to be checked.
pub proof fn lemma_dispatch_lookup(k: PairKeys, table: Map<u16, Vec<u8>>, d: Seq<u8>, id: u16)
    requires
        k.session_key is None,
        k.dispatch_key is None,
        d.len() >= 2,
        id as int == (d[0] ^ 0x45u8) as int * 256 + (d[1] ^ 0x67u8) as int,
    ensures
        table.contains_key(id) ==> decrypt_step(k, table, d) == (
            PairKeys { dispatch_key: Some(table[id]@), ..k },
            xor_with_key(d, table[id]@),
            true,
        ),
        !table.contains_key(id) ==> decrypt_step(k, table, d) == (k, d, true),
{
}

/// With a dispatch key and no session key, the key is tried on the first two
/// bytes: where it turns them into 0x45 0x67, the bytes are decrypted with it
/// and the keys stay; otherwise, without both the send time and the server
/// seed of the token response, the packet is dropped with nothing changed.
pub proof fn lemma_dispatch_key_tried(k: PairKeys, table: Map<u16, Vec<u8>>, d: Seq<u8>)
    requires
        k.session_key is None,
        k.dispatch_key is Some,
        k.dispatch_key->0.len() >= 2,
        d.len() >= 2,
    ensures
        ({
            let dk = k.dispatch_key->0;
            d[0] ^ dk[0] == 0x45u8 && d[1] ^ dk[1] == 0x67u8
        }) ==> decrypt_step(k, table, d) == (k, xor_with_key(d, k.dispatch_key->0), true),
        ({
            let dk = k.dispatch_key->0;
            !(d[0] ^ dk[0] == 0x45u8 && d[1] ^ dk[1] == 0x67u8) && (k.send_time is None || k.server_seed is None)
        }) ==> decrypt_step(k, table, d) == (k, d, false),
{
    let dk = k.dispatch_key->0;
    let t = xor_with_key(d.subrange(0, 2), dk);
    vstd::arithmetic::div_mod::lemma_small_mod(0, dk.len());
    vstd::arithmetic::div_mod::lemma_small_mod(1, dk.len());
    assert(t[0] == d[0] ^ dk[0]);
    assert(t[1] == d[1] ^ dk[1]);
    assert(frame_ok(t) == (d[0] ^ dk[0] == 0x45u8 && d[1] ^ dk[1] == 0x67u8));
}

/// Where the dispatch key does not fit the first two bytes and the send time
/// and server seed of the token response are known, the session key is
/// searched: a seed found gives the key the bytes are decrypted with, kept
/// only when they become a whole frame, and the packet goes on only then;
/// where none is found the packet is dropped undecrypted. The search's
/// remembered time stamps are kept, and the other keys stay.
pub proof fn lemma_session_key_search(
    k: PairKeys,
    table: Map<u16, Vec<u8>>,
    d: Seq<u8>,
    found: Option<u64>,
    rem: Seq<i64>,
)
    requires
        k.session_key is None,
        k.dispatch_key is Some,
        !frame_ok(xor_with_key(d.subrange(0, 2), k.dispatch_key->0)),
        k.send_time is Some,
        k.server_seed is Some,
        (found, rem) == bruteforce_outcome(k.remembered, k.send_time->0, k.server_seed->0, d),
    ensures
        decrypt_step(k, table, d).0.remembered == rem,
        decrypt_step(k, table, d).0.dispatch_key == k.dispatch_key,
        decrypt_step(k, table, d).0.send_time == k.send_time,
        decrypt_step(k, table, d).0.server_seed == k.server_seed,
        found is None ==> decrypt_step(k, table, d).0.session_key is None && decrypt_step(k, table, d).1 == d
            && !decrypt_step(k, table, d).2,
        found matches Some(seed) ==> {
            let d2 = xor_with_key(d, key_stream(seed));
            &&& decrypt_step(k, table, d).1 == d2
            &&& decrypt_step(k, table, d).2 == frame_ok(d2)
            &&& decrypt_step(k, table, d).0.session_key == if frame_ok(d2) { Some(key_stream(seed)) } else { None }
        },
{
}

/// Once a session key is known, every packet is decrypted with it alone; the
/// key is dropped exactly when the result is not a whole frame.
pub proof fn lemma_session_key_decrypts(k: PairKeys, table: Map<u16, Vec<u8>>, d: Seq<u8>)
    requires
        k.session_key is Some,
    ensures
        decrypt_step(k, table, d).1 == xor_with_key(d, k.session_key->0),
        decrypt_step(k, table, d).2,
        decrypt_step(k, table, d).0.session_key == if frame_ok(xor_with_key(d, k.session_key->0)) {
            k.session_key
        } else {
            None
        },
        decrypt_step(k, table, d).0.dispatch_key == k.dispatch_key,
        decrypt_step(k, table, d).0.remembered == k.remembered,
        decrypt_step(k, table, d).0.send_time == k.send_time,
        decrypt_step(k, table, d).0.server_seed == k.server_seed,
{
}

/// A session key is kept only while it decrypts packets into whole frames.
pub proof fn lemma_kept_session_key_frames(k: PairKeys, table: Map<u16, Vec<u8>>, d: Seq<u8>)
    ensures
        decrypt_step(k, table, d).0.session_key is Some ==> frame_ok(decrypt_step(k, table, d).1),
{
}

/// A dispatch key, once found, stays.
pub proof fn lemma_dispatch_key_stays(k: PairKeys, table: Map<u16, Vec<u8>>, d: Seq<u8>)
    requires
        k.dispatch_key is Some,
    ensures
        decrypt_step(k, table, d).0.dispatch_key == k.dispatch_key,
{
}

/// The header and the body of a packet are exactly the bytes between the ten
/// head bytes and the tail magic.
pub proof fn lemma_packet_covers_frame(d: Seq<u8>, is_client: bool)
    requires
        layout_ok(d),
    ensures
        frame_packet(d, is_client).header + frame_packet(d, is_client).data =~= d.subrange(
            FRAME_HEAD_LEN as int,
            d.len() - 2,
        ),
{
}

/// A frame encrypted with the session key is decrypted back to the frame, and
/// its packet is read, with the keys unchanged.
pub proof fn lemma_session_round_trip(k: PairKeys, table: Map<u16, Vec<u8>>, frame: Seq<u8>, is_client: bool)
    requires
        k.session_key is Some,
        k.session_key->0.len() > 0,
        frame_ok(frame),
        layout_ok(frame),
    ensures
        decrypt_step(k, table, xor_with_key(frame, k.session_key->0)) == (k, frame, true),
        decrypt_result(k, table, xor_with_key(frame, k.session_key->0), is_client) == Some(
            frame_packet(frame, is_client),
        ),
{
    lemma_xor_involution(frame, k.session_key->0);
}

/// Before any key is known, a frame encrypted with a dispatch key that the
/// table files under the key's first two bytes is decrypted, its packet read,
/// and the dispatch key kept.
pub proof fn lemma_dispatch_discovery(k: PairKeys, table: Map<u16, Vec<u8>>, frame: Seq<u8>, is_client: bool, key: Seq<u8>)
    requires
        k.session_key is None,
        k.dispatch_key is None,
        key.len() == KEY_LEN,
        table.contains_key(be_u16(key[0], key[1])),
        table[be_u16(key[0], key[1])]@ == key,
        frame_ok(frame),
        layout_ok(frame),
    ensures
        decrypt_step(k, table, xor_with_key(frame, key)).0 == (PairKeys { dispatch_key: Some(key), ..k }),
        decrypt_result(k, table, xor_with_key(frame, key), is_client) == Some(frame_packet(frame, is_client)),
{
    let e = xor_with_key(frame, key);
    lemma_xor_involution(frame, key);
    assert(0int % (key.len() as int) == 0);
    assert(1int % (key.len() as int) == 1);
    let (k0, k1) = (key[0], key[1]);
    assert(e[0] == HEAD_MAGIC_0 ^ k0);
    assert(e[1] == HEAD_MAGIC_1 ^ k1);
    assert(((0x45u8 ^ k0) ^ 0x45u8) == k0) by (bit_vector);
    assert(((0x67u8 ^ k1) ^ 0x67u8) == k1) by (bit_vector);
}

/// Number of queued segments the first message takes: up to and including the
/// first segment whose fragment count is 0, or all of them.
pub open spec fn front_segments(q: Seq<(u8, Seq<u8>)>) -> nat
    decreases q.len(),
{
    if q.len() == 0 {
        0
    } else if q[0].0 == 0 {
        1
    } else {
        1 + front_segments(q.drop_first())
    }
}

/// The payloads of the first `n` queued segments, one after the other.
pub open spec fn joined(q: Seq<(u8, Seq<u8>)>, n: nat) -> Seq<u8>
    decreases n,
{
    if n == 0 || q.len() == 0 {
        Seq::empty()
    } else {
        q[0].1 + joined(q.drop_first(), (n - 1) as nat)
    }
}

/// The complete message at the head of a transport's receive queue, if there
/// is one: the first segment announces how many fragments follow it.
pub open spec fn ready_message(q: Seq<(u8, Seq<u8>)>) -> Option<Seq<u8>> {
    if q.len() == 0 {
        None
    } else if q[0].0 != 0 && q.len() < q[0].0 as int + 1 {
        None
    } else {
        Some(joined(q, front_segments(q)))
    }
}

/// The queue after its first message is taken: the rest, plus whatever the
/// transport then moves into it.
pub open spec fn taken_from(before: Seq<(u8, Seq<u8>)>, after: Seq<(u8, Seq<u8>)>) -> bool {
    let rest = before.skip(front_segments(before) as int);
    after.len() >= rest.len() && after.subrange(0, rest.len() as int) == rest
}

/// `before` is where `after` starts: the queue only grew.
pub open spec fn grew_from(before: Seq<(u8, Seq<u8>)>, after: Seq<(u8, Seq<u8>)>) -> bool {
    after.len() >= before.len() && after.subrange(0, before.len() as int) == before
}

/// The receive queue of a transport, if it is set up; empty otherwise.
pub open spec fn queue_of(t: Option<Transport>) -> Seq<(u8, Seq<u8>)> {
    match t {
        Some(k) => kcp_queue(k),
        None => Seq::empty(),
    }
}

/// The conversation of a transport, if it is set up.
pub open spec fn conv_of(t: Option<Transport>) -> Option<u32> {
    match t {
        Some(k) => Some(kcp_conv(k)),
        None => None,
    }
}

/// The head of the queue can be measured: the transport's size check adds one
/// to the head's fragment count in a byte, which fails at 255.
pub open spec fn readable(q: Seq<(u8, Seq<u8>)>) -> bool {
    q.len() == 0 || q[0].0 != 255
}

/// Feeding `data` to the transport stays within its arithmetic (nothing is
/// fed when there is no transport).
pub open spec fn feed_ok(t: Option<Transport>, data: Seq<u8>) -> bool {
    match t {
        Some(k) => data.len() < KCP_OVERHEAD || kcp_queue_after_input(k, data) is Some,
        None => true,
    }
}

/// The receive queue after feeding `data` (empty when there is no transport).
pub open spec fn fed_queue(t: Option<Transport>, data: Seq<u8>) -> Seq<(u8, Seq<u8>)> {
    match t {
        Some(k) => if data.len() < KCP_OVERHEAD {
            kcp_queue(k)
        } else {
            match kcp_queue_after_input(k, data) {
                Some(q) => q,
                None => kcp_queue(k),
            }
        },
        None => Seq::empty(),
    }
}

/// The keys and the packet that receiving from a side whose queue is `q`
/// gives: the message at the head, decrypted, when there is one.
pub open spec fn receive_outcome(k: PairKeys, table: Map<u16, Vec<u8>>, q: Seq<(u8, Seq<u8>)>, is_client: bool) -> (
    PairKeys,
    Option<PacketView>,
) {
    match ready_message(q) {
        Some(m) => if m.len() >= 2 {
            (decrypt_step(k, table, m).0, decrypt_result(k, table, m, is_client))
        } else {
            (k, None)
        },
        None => (k, None),
    }
}

/// Output sink for the transport state machines; what they emit is dropped.
pub struct Source {
    is_client: bool,
}

impl Write for Source {
    fn write(&mut self, data: &[u8]) -> (r: std::io::Result<usize>)
        ensures
            r matches Ok(n) && n == data@.len(),
    {
        Ok(data.len())
    }

    fn flush(&mut self) -> (r: std::io::Result<()>)
        ensures
            r is Ok,
    {
        Ok(())
    }
}

/// Both directions of one game connection: transport reassembly, keys and
/// the key search.
pub struct ClientServerPair {
    client: Option<Transport>,
    server: Option<Transport>,
    dispatch_key: Option<Mtkey>,
    session_key: Option<Mtkey>,
    tokenrspsendtime: Option<u64>,
    tokenrspserverseed: Option<u64>,
    rsa_pem: String,
    key_bf: KeyBruteforce,
    dispatch_keys: HashMap<u16, Vec<u8>>,
}

/// Every key of the table has at least one byte to combine with.
pub open spec fn table_ok(table: Map<u16, Vec<u8>>) -> bool {
    forall|k: u16| #[trigger] table.contains_key(k) ==> table[k]@.len() > 0
}

/// A key that is present has at least one byte.
pub open spec fn key_ok(k: Option<Seq<u8>>) -> bool {
    match k {
        Some(b) => b.len() > 0,
        None => true,
    }
}

impl ClientServerPair {
    /// The key material that decryption works with.
    pub closed spec fn keys(&self) -> PairKeys {
        PairKeys {
            session_key: key_bytes(self.session_key),
            dispatch_key: key_bytes(self.dispatch_key),
            send_time: self.tokenrspsendtime,
            server_seed: self.tokenrspserverseed,
            remembered: self.key_bf.remembered(),
        }
    }

    /// The dispatch keys, by the first two bytes they turn into the head magic.
    pub closed spec fn table(&self) -> Map<u16, Vec<u8>> {
        self.dispatch_keys@
    }

    /// The client-side (`true`) or server-side transport, if set up.
    pub closed spec fn transport(&self, is_client: bool) -> Option<Transport> {
        if is_client {
            self.client
        } else {
            self.server
        }
    }

    /// Whether the client-side (`true`) or server-side transport has been set up.
    pub closed spec fn has_transport(&self, is_client: bool) -> bool {
        if is_client {
            self.client is Some
        } else {
            self.server is Some
        }
    }

    pub closed spec fn wf(&self) -> bool {
        &&& table_ok(self.dispatch_keys@)
        &&& key_ok(key_bytes(self.session_key))
        &&& key_ok(key_bytes(self.dispatch_key))
    }

    /// The PKCS#1 PEM text of the RSA key that decrypts the server's seed.
    pub closed spec fn private_key_pem(&self) -> Seq<char> {
        self.rsa_pem@
    }

    /// A connection with no transport and no key yet, decrypting the key
    /// exchange with the RSA key in `rsa_pem` (PKCS#1 PEM) and finding
    /// dispatch keys in `dispatch_keys`; `None` when the text holds no such key.
    pub fn new(rsa_pem: String, dispatch_keys: HashMap<u16, Vec<u8>>) -> (r: Option<ClientServerPair>)
        requires
            table_ok(dispatch_keys@),
        ensures
            r is Some == pkcs1_pem_accepted(rsa_pem@),
            r matches Some(p) ==> {
                &&& p.wf()
                &&& p.keys() == (PairKeys {
                    session_key: None,
                    dispatch_key: None,
                    send_time: None,
                    server_seed: None,
                    remembered: Seq::empty(),
                })
                &&& p.table() == dispatch_keys@
                &&& p.private_key_pem() == rsa_pem@
                &&& p.transport(true) is None
                &&& p.transport(false) is None
            },
    {
        if !rsa_pem_accepted(rsa_pem.as_str()) {
            return None;
        }
        Some(
            ClientServerPair {
                client: None,
                server: None,
                dispatch_key: None,
                session_key: None,
                tokenrspsendtime: None,
                tokenrspserverseed: None,
                rsa_pem,
                key_bf: KeyBruteforce::new(),
                dispatch_keys,
            },
        )
    }

    /// The key search and the seeds it remembers.
    pub fn key_bf(&self) -> (kb: &KeyBruteforce)
        ensures
            kb.remembered() == self.keys().remembered,
    {
        &self.key_bf
    }

    /// Sets up both transports for conversation `conv`; the keys stay as they
    /// are. The transport crate takes no token, so `token` goes unused.
    pub fn init_kcp(&mut self, conv: u32, token: u32)
        requires
            old(self).wf(),
        ensures
            final(self).wf(),
            final(self).keys() == old(self).keys(),
            final(self).table() == old(self).table(),
            final(self).private_key_pem() == old(self).private_key_pem(),
            final(self).has_transport(true),
            final(self).has_transport(false),
            queue_of(final(self).transport(true)) == Seq::<(u8, Seq<u8>)>::empty(),
            queue_of(final(self).transport(false)) == Seq::<(u8, Seq<u8>)>::empty(),
            conv_of(final(self).transport(true)) == Some(conv),
            conv_of(final(self).transport(false)) == Some(conv),
    {
        let mut client = kcp_new(conv, Source { is_client: true });
        let mut server = kcp_new(conv, Source { is_client: true });
        kcp_set_nodelay(&mut client, true, 10, 2, false);
        kcp_set_wndsize(&mut client, 128, 128);
        kcp_set_nodelay(&mut server, true, 10, 2, false);
        kcp_set_wndsize(&mut server, 128, 128);
        self.client = Some(client);
        self.server = Some(server);
    }

    /// Feeds captured transport bytes to one side; nothing happens before the
    /// transports are set up.
    pub fn add_data(&mut self, data: &[u8], is_client: bool)
        requires
            old(self).wf(),
            feed_ok(old(self).transport(is_client), data@),
        ensures
            final(self).wf(),
            final(self).keys() == old(self).keys(),
            final(self).table() == old(self).table(),
            final(self).private_key_pem() == old(self).private_key_pem(),
            final(self).has_transport(true) == old(self).has_transport(true),
            final(self).has_transport(false) == old(self).has_transport(false),
            final(self).transport(!is_client) == old(self).transport(!is_client),
            grew_from(queue_of(old(self).transport(is_client)), queue_of(final(self).transport(is_client))),
            data@.len() < KCP_OVERHEAD ==> final(self).transport(is_client) == old(self).transport(is_client),
            queue_of(final(self).transport(is_client)) == fed_queue(old(self).transport(is_client), data@),
            conv_of(final(self).transport(is_client)) == conv_of(old(self).transport(is_client)),
    {
        let ghost before = queue_of(self.transport(is_client));
        if is_client {
            let mut slot = self.client.take();
            match &mut slot {
                Some(k) => kcp_input(k, data),
                None => {},
            }
            self.client = slot;
        } else {
            let mut slot = self.server.take();
            match &mut slot {
                Some(k) => kcp_input(k, data),
                None => {},
            }
            self.server = slot;
        }
        assert(before.subrange(0, before.len() as int) =~= before);
    }

    /// Takes the next reassembled message of one side, if there is one, and
    /// decrypts it.
    pub fn recv_kcp(&mut self, is_client: bool) -> (r: Option<Packet>)
        requires
            old(self).wf(),
            readable(queue_of(old(self).transport(is_client))),
        ensures
            final(self).wf(),
            final(self).table() == old(self).table(),
            final(self).private_key_pem() == old(self).private_key_pem(),
            final(self).has_transport(true) == old(self).has_transport(true),
            final(self).has_transport(false) == old(self).has_transport(false),
            !old(self).has_transport(is_client) ==> r is None && final(self).keys() == old(self).keys(),
            (r is None && final(self).keys() == old(self).keys()) || exists|d: Seq<u8>|
                decrypts_to(old(self).keys(), old(self).table(), d, is_client, final(self).keys(), packet_view(r)),
            final(self).transport(!is_client) == old(self).transport(!is_client),
            conv_of(final(self).transport(is_client)) == conv_of(old(self).transport(is_client)),
            (final(self).keys(), packet_view(r)) == receive_outcome(
                old(self).keys(),
                old(self).table(),
                queue_of(old(self).transport(is_client)),
                is_client,
            ),
            match ready_message(queue_of(old(self).transport(is_client))) {
                None => r is None && final(self).keys() == old(self).keys() && final(self).transport(is_client)
                    == old(self).transport(is_client),
                Some(m) => {
                    &&& taken_from(queue_of(old(self).transport(is_client)), queue_of(final(self).transport(is_client)))
                    &&& m.len() < 2 ==> r is None && final(self).keys() == old(self).keys()
                    &&& m.len() >= 2 ==> decrypts_to(
                        old(self).keys(),
                        old(self).table(),
                        m,
                        is_client,
                        final(self).keys(),
                        packet_view(r),
                    )
                },
            },
    {
        match self.next_message(is_client) {
            Some(buf) => {
                let mut buf = buf;
                let ghost d = buf@;
                let ghost k0 = self.keys();
                let r = self.decrypt_packet(&mut buf, is_client);
                assert(d.len() >= 2 ==> decrypts_to(k0, self.table(), d, is_client, self.keys(), packet_view(r)));
                r
            },
            None => None,
        }
    }

    /// The next complete message of one side's transport, if any; the keys stay.
    fn next_message(&mut self, is_client: bool) -> (r: Option<Vec<u8>>)
        requires
            old(self).wf(),
            readable(queue_of(old(self).transport(is_client))),
        ensures
            final(self).wf(),
            final(self).keys() == old(self).keys(),
            final(self).table() == old(self).table(),
            final(self).private_key_pem() == old(self).private_key_pem(),
            final(self).has_transport(true) == old(self).has_transport(true),
            final(self).has_transport(false) == old(self).has_transport(false),
            !old(self).has_transport(is_client) ==> r is None,
            final(self).transport(!is_client) == old(self).transport(!is_client),
            conv_of(final(self).transport(is_client)) == conv_of(old(self).transport(is_client)),
            match ready_message(queue_of(old(self).transport(is_client))) {
                None => r is None && final(self).transport(is_client) == old(self).transport(is_client),
                Some(m) => r matches Some(v) && v@ == m && taken_from(
                    queue_of(old(self).transport(is_client)),
                    queue_of(final(self).transport(is_client)),
                ),
            },
    {
        let mut slot = if is_client {
            self.client.take()
        } else {
            self.server.take()
        };
        let mut r: Option<Vec<u8>> = None;
        match &mut slot {
            Some(k) => {
                match kcp_peeksize(k) {
                    Some(size) => {
                        let mut buf = zeroed(size);
                        kcp_recv(k, &mut buf);
                        r = Some(buf);
                    },
                    None => {},
                }
            },
            None => {},
        }
        if is_client {
            self.client = slot;
        } else {
            self.server = slot;
        }
        r
    }

    /// Whether `data` is a whole frame: head magic and, past two bytes, tail magic.
    pub fn is_valid(data: &[u8]) -> (r: bool)
        ensures
            r == frame_ok(data@),
    {
        let n = data.len();
        if n < 2 {
            false
        } else if n <= 2 {
            data[0] == HEAD_MAGIC_0 && data[1] == HEAD_MAGIC_1
        } else {
            data[0] == HEAD_MAGIC_0 && data[1] == HEAD_MAGIC_1 && data[n - 2] == TAIL_MAGIC_0
                && data[n - 1] == TAIL_MAGIC_1
        }
    }

    /// Decrypts `data` in place with the key that applies and parses the packet.
    ///
    /// With a session key, the data is decrypted with it and the key is dropped
    /// when the result is no frame. With only a dispatch key, the data is
    /// decrypted with it when that gives a frame head; otherwise the session
    /// key is searched from the token response, and kept when it gives a frame.
    /// With no key, the dispatch key is looked up by the first two bytes.
    pub fn decrypt_packet(&mut self, data: &mut Vec<u8>, is_client: bool) -> (r: Option<Packet>)
        requires
            old(self).wf(),
        ensures
            final(self).wf(),
            final(self).table() == old(self).table(),
            final(self).private_key_pem() == old(self).private_key_pem(),
            final(self).has_transport(true) == old(self).has_transport(true),
            final(self).has_transport(false) == old(self).has_transport(false),
            final(self).transport(true) == old(self).transport(true),
            final(self).transport(false) == old(self).transport(false),
            old(data)@.len() < 2 ==> r is None && final(self).keys() == old(self).keys() && final(data)@ == old(data)@,
            old(data)@.len() >= 2 ==> decrypt_step(old(self).keys(), old(self).table(), old(data)@).1
                == final(data)@,
            old(data)@.len() >= 2 ==> decrypts_to(
                old(self).keys(),
                old(self).table(),
                old(data)@,
                is_client,
                final(self).keys(),
                packet_view(r),
            ),
    {
        if data.len() < 2 {
            return None;
        }
        let ghost k0 = self.keys();
        let ghost d0 = data@;
        let mut go_on = true;
        if self.session_key.is_some() {
            let session_key = self.session_key.as_ref().unwrap();
            session_key.xor(data);
            if !Self::is_valid(data) {
                self.session_key = None;
            }
        } else if self.dispatch_key.is_some() {
            let dispatch_key = self.dispatch_key.as_ref().unwrap();
            let mut testbuf: Vec<u8> = Vec::new();
            testbuf.push(data[0]);
            testbuf.push(data[1]);
            assert(testbuf@ =~= d0.subrange(0, 2));
            dispatch_key.xor(&mut testbuf);
            if Self::is_valid(&testbuf) {
                dispatch_key.xor(data);
            } else {
                if let Some(sent_time) = self.tokenrspsendtime {
                    if let Some(server_seed) = self.tokenrspserverseed {
                        if let Some(seed) = self.key_bf.bruteforce(sent_time, server_seed, data) {
                            let key = Mtkey::from_seed(seed);
                            key.xor(data);
                            self.session_key = Some(key);
                            if !Self::is_valid(data) {
                                self.session_key = None;
                            }
                        }
                    }
                }
                if self.session_key.is_none() {
                    go_on = false;
                }
            }
        } else {
            let first_bytes = ((data[0] ^ HEAD_MAGIC_0) as u16) * 256 + ((data[1] ^ HEAD_MAGIC_1) as u16);
            match self.dispatch_keys.get(&first_bytes) {
                Some(bytes) => {
                    let key = Mtkey { keybuf: bytes.clone() };
                    assert(key.keybuf@ =~= bytes@);
                    key.xor(data);
                    self.dispatch_key = Some(key);
                },
                None => {},
            }
        }
        assert(self.keys() == decrypt_step(k0, self.dispatch_keys@, d0).0);
        assert(data@ == decrypt_step(k0, self.dispatch_keys@, d0).1);
        if !go_on {
            return None;
        }
        if !Self::is_valid(data) {
            return None;
        }
        parse_frame(data, is_client)
    }

    /// Takes the send time and the encrypted server seed of the token
    /// response: the seed is the first eight bytes, big-endian, of the
    /// base64-decoded, RSA-decrypted text. Returns false, leaving the seed as
    /// it was, when the text cannot be decoded or decrypted to eight bytes.
    pub fn record_token_rsp(&mut self, sent_ms: Option<u64>, server_rand_key: Option<String>) -> (ok: bool)
        requires
            old(self).wf(),
        ensures
            final(self).wf(),
            final(self).table() == old(self).table(),
            final(self).has_transport(true) == old(self).has_transport(true),
            final(self).has_transport(false) == old(self).has_transport(false),
            final(self).transport(true) == old(self).transport(true),
            final(self).transport(false) == old(self).transport(false),
            final(self).keys().session_key == old(self).keys().session_key,
            final(self).keys().dispatch_key == old(self).keys().dispatch_key,
            final(self).keys().remembered == old(self).keys().remembered,
            final(self).keys().send_time == (match sent_ms {
                Some(t) => Some(t),
                None => old(self).keys().send_time,
            }),
            final(self).private_key_pem() == old(self).private_key_pem(),
            ok == (match server_rand_key {
                Some(t) => token_seed(old(self).private_key_pem(), t@) is Some,
                None => true,
            }),
            final(self).keys().server_seed == (match server_rand_key {
                Some(t) => match token_seed(old(self).private_key_pem(), t@) {
                    Some(seed) => Some(seed),
                    None => old(self).keys().server_seed,
                },
                None => old(self).keys().server_seed,
            }),
    {
        if let Some(t) = sent_ms {
            self.tokenrspsendtime = Some(t);
        }
        match server_rand_key {
            Some(text) => {
                match self.decode_base64_rsa(text) {
                    Some(x) => match server_seed_from(&x) {
                        Some(seed) => {
                            self.tokenrspserverseed = Some(seed);
                            true
                        },
                        None => false,
                    },
                    None => false,
                }
            },
            None => true,
        }
    }

    /// Base64-decodes `data` and decrypts it with the RSA key (PKCS#1 v1.5).
    fn decode_base64_rsa(&self, data: String) -> (r: Option<Vec<u8>>)
        ensures
            match token_plaintext(self.private_key_pem(), data@) {
                Some(p) => r matches Some(v) && v@ == p,
                None => r is None,
            },
    {
        match base64_decode(data.as_str()) {
            Some(d) => rsa_pkcs1v15_decrypt(self.rsa_pem.as_str(), &d),
            None => None,
        }
    }
}

/// The plaintext of a token text: its base64 bytes decrypted with the key in
/// `pem`.
pub open spec fn token_plaintext(pem: Seq<char>, text: Seq<char>) -> Option<Seq<u8>> {
    match base64_standard_decoded(text) {
        Some(c) => pkcs1v15_decrypted(pem, c),
        None => None,
    }
}

/// The server's seed a token text holds: the first eight bytes of its
/// plaintext, big-endian, when there are eight.
pub open spec fn token_seed(pem: Seq<char>, text: Seq<char>) -> Option<u64> {
    match token_plaintext(pem, text) {
        Some(p) => if p.len() >= 8 { Some(be_u64(p)) } else { None },
        None => None,
    }
}

/// The big-endian 64-bit value of the first eight bytes of `x`.
pub open spec fn be_u64(x: Seq<u8>) -> u64 {
    (x[0] as int * 0x100000000000000 + x[1] as int * 0x1000000000000 + x[2] as int * 0x10000000000
        + x[3] as int * 0x100000000 + x[4] as int * 0x1000000 + x[5] as int * 0x10000 + x[6] as int
        * 0x100 + x[7] as int) as u64
}

/// The server's seed is there exactly when the token text decodes and
/// decrypts to at least eight bytes, and it is their big-endian value:
/// byte `i` of the plaintext weighs 256 to the power `7 - i`.
pub proof fn lemma_token_seed_big_endian(pem: Seq<char>, text: Seq<char>)
    ensures
        token_seed(pem, text) is Some == (token_plaintext(pem, text) matches Some(p) && p.len() >= 8),
        token_seed(pem, text) matches Some(v) ==> {
            let p = token_plaintext(pem, text)->0;
            v as int == p[0] as int * 0x100_0000_0000_0000 + p[1] as int * 0x1_0000_0000_0000 + p[2] as int
                * 0x100_0000_0000 + p[3] as int * 0x1_0000_0000 + p[4] as int * 0x100_0000 + p[5] as int
                * 0x1_0000 + p[6] as int * 0x100 + p[7] as int
        },
{
}

/// The server's seed in the decrypted token text: its first eight bytes,
/// big-endian; `None` when the text is shorter.
pub fn server_seed_from(plain: &Vec<u8>) -> (r: Option<u64>)
    ensures
        r == (if plain@.len() >= 8 { Some(be_u64(plain@)) } else { None::<u64> }),
{
    if plain.len() < 8 {
        None
    } else {
        Some(bytes_be_u64(plain))
    }
}

fn bytes_be_u64(x: &Vec<u8>) -> (r: u64)
    requires
        x@.len() >= 8,
    ensures
        r == be_u64(x@),
{
    let mut v: u64 = 0;
    let mut i: usize = 0;
    while i < 8
        invariant
            i <= 8,
            x@.len() >= 8,
            v as int == be_prefix(x@, i as nat),
            be_prefix(x@, i as nat) < pow256(i as nat),
        decreases 8 - i,
    {
        proof {
            lemma_be_prefix_bound(x@, (i + 1) as nat);
        }
        v = v * 256 + x[i] as u64;
        i = i + 1;
    }
    proof {
        reveal_with_fuel(be_prefix, 9);
        reveal_with_fuel(pow256, 9);
    }
    v
}

/// The value of the first `n` bytes of `x`, big-endian.
pub open spec fn be_prefix(x: Seq<u8>, n: nat) -> int
    decreases n,
{
    if n == 0 {
        0
    } else {
        be_prefix(x, (n - 1) as nat) * 256 + x[n - 1] as int
    }
}

pub open spec fn pow256(n: nat) -> int
    decreases n,
{
    if n == 0 {
        1
    } else {
        pow256((n - 1) as nat) * 256
    }
}

proof fn lemma_be_prefix_bound(x: Seq<u8>, n: nat)
    requires
        n <= x.len(),
    ensures
        0 <= be_prefix(x, n) < pow256(n),
        n <= 8 ==> pow256(n) <= 0x10000000000000000,
    decreases n,
{
    reveal_with_fuel(pow256, 9);
    if n > 0 {
        lemma_be_prefix_bound(x, (n - 1) as nat);
        let p = be_prefix(x, (n - 1) as nat);
        let b = x[n - 1] as int;
        assert(p * 256 + b < pow256(n)) by (nonlinear_arith)
            requires
                0 <= p < pow256((n - 1) as nat),
                0 <= b < 256,
                pow256(n) == pow256((n - 1) as nat) * 256,
        ;
    }
}

/// Reads the packet out of a decrypted frame; the frame must hold the header
/// it announces and the two tail bytes.
fn parse_frame(data: &Vec<u8>, is_client: bool) -> (r: Option<Packet>)
    ensures
        layout_ok(data@) ==> r is Some && r->0@ == frame_packet(data@, is_client),
        !layout_ok(data@) ==> r is None,
{
    let n = data.len();
    if n < FRAME_HEAD_LEN + 2 {
        return None;
    }
    let cmdid = (data[2] as u16) * 256 + data[3] as u16;
    let headsize = (data[4] as u16) * 256 + data[5] as u16;
    let bodysize = (data[6] as u32) * 16777216 + (data[7] as u32) * 65536 + (data[8] as u32) * 256
        + data[9] as u32;
    let head_end = FRAME_HEAD_LEN + headsize as usize;
    if head_end + 2 > n {
        return None;
    }
    let header = copy_range(data, FRAME_HEAD_LEN, head_end);
    let body = copy_range(data, head_end, n - 2);
    Some(
        Packet {
            cmdid,
            header_size: headsize,
            data_size: bodysize,
            header,
            data: body,
            is_client,
        },
    )
}

/// The bytes `from..to` of `data`.
fn copy_range(data: &Vec<u8>, from: usize, to: usize) -> (r: Vec<u8>)
    requires
        from <= to <= data@.len(),
    ensures
        r@ == data@.subrange(from as int, to as int),
{
    let mut r: Vec<u8> = Vec::new();
    let mut i = from;
    while i < to
        invariant
            from <= i <= to,
            to <= data@.len(),
            r@ == data@.subrange(from as int, i as int),
        decreases to - i,
    {
        r.push(data[i]);
        i = i + 1;
    }
    r
}

/// A vector of `n` zero bytes.
fn zeroed(n: usize) -> (r: Vec<u8>)
    ensures
        r@.len() == n,
{
    let mut r: Vec<u8> = Vec::new();
    let mut i: usize = 0;
    while i < n
        invariant
            i <= n,
            r@.len() == i,
        decreases n - i,
    {
        r.push(0u8);
        i = i + 1;
    }
    r
}

#[verifier::external_type_specification]
#[verifier::external_body]
pub struct ExIoError(std::io::Error);

/// One direction's reassembly state machine. Its state is hidden from Verus.
#[verifier::external_body]
pub struct Transport {
    inner: kcp::Kcp<Source>,
}


/// What `base64::decode` (standard alphabet, padded) gives for a text.
pub uninterp spec fn base64_standard_decoded(text: Seq<char>) -> Option<Seq<u8>>;

/// Whether `rsa::RsaPrivateKey::from_pkcs1_pem` accepts a text.
pub uninterp spec fn pkcs1_pem_accepted(pem: Seq<char>) -> bool;

/// `rsa::RsaPrivateKey::from_pkcs1_pem`: whether a text is the PKCS#1 PEM of
/// an RSA private key; named by `pkcs1_pem_accepted`.
#[verifier::external_body]
fn rsa_pem_accepted(pem: &str) -> (r: bool)
    ensures
        r == pkcs1_pem_accepted(pem@),
{
    <rsa::RsaPrivateKey as rsa::pkcs1::DecodeRsaPrivateKey>::from_pkcs1_pem(pem).is_ok()
}

/// What PKCS#1 v1.5 decryption of `ciphertext` with the key whose PKCS#1 PEM
/// text is `pem` gives: `None` when the text holds no key or the ciphertext
/// does not decrypt. Without blinding the decryption depends on these alone.
pub uninterp spec fn pkcs1v15_decrypted(pem: Seq<char>, ciphertext: Seq<u8>) -> Option<Seq<u8>>;

/// Bytes of a transport segment header; shorter input is ignored.
pub const KCP_OVERHEAD: usize = 24;

/// The conversation a transport was made for.
pub uninterp spec fn kcp_conv(t: Transport) -> u32;

/// The receive queue after `kcp::Kcp::input` feeds `data`; it depends on the
/// transport's state and the bytes alone. `None` where the input would take
/// the 32-bit sequence arithmetic (`timediff`) out of range, which panics.
pub uninterp spec fn kcp_queue_after_input(t: Transport, data: Seq<u8>) -> Option<Seq<(u8, Seq<u8>)>>;

/// What the receive queue of a transport holds: each segment's fragment count
/// (how many segments of its message still follow) and its payload, in order.
pub uninterp spec fn kcp_queue(t: Transport) -> Seq<(u8, Seq<u8>)>;

/// `kcp::Kcp::new`: a fresh transport state machine for conversation `conv`;
/// its receive queue is empty.
#[verifier::external_body]
fn kcp_new(conv: u32, output: Source) -> (r: Transport)
    ensures
        kcp_queue(r) == Seq::<(u8, Seq<u8>)>::empty(),
        kcp_conv(r) == conv,
{
    Transport { inner: kcp::Kcp::new(conv, output) }
}

/// `kcp::Kcp::set_nodelay`: tunes the retransmission settings; the receive
/// queue stays.
#[verifier::external_body]
fn kcp_set_nodelay(k: &mut Transport, nodelay: bool, interval: i32, resend: i32, nc: bool)
    ensures
        kcp_queue(*final(k)) == kcp_queue(*old(k)),
        kcp_conv(*final(k)) == kcp_conv(*old(k)),
{
    k.inner.set_nodelay(nodelay, interval, resend, nc)
}

/// `kcp::Kcp::set_wndsize`: sets the send and receive windows; the receive
/// queue stays.
#[verifier::external_body]
fn kcp_set_wndsize(k: &mut Transport, sndwnd: u16, rcvwnd: u16)
    ensures
        kcp_queue(*final(k)) == kcp_queue(*old(k)),
        kcp_conv(*final(k)) == kcp_conv(*old(k)),
{
    k.inner.set_wndsize(sndwnd, rcvwnd)
}

/// `kcp::Kcp::input`: feeds received bytes; its result is dropped, as the
/// capture loop has nothing to do on a malformed segment. Segments only ever
/// join the end of the receive queue; input shorter than a segment header is
/// refused before anything changes. Which segments join is named by
/// `kcp_queue_after_input`. Input on which the sequence arithmetic would
/// overflow, and so panic, is left out.
#[verifier::external_body]
fn kcp_input(k: &mut Transport, data: &[u8])
    requires
        data@.len() < KCP_OVERHEAD || kcp_queue_after_input(*old(k), data@) is Some,
    ensures
        kcp_queue_after_input(*old(k), data@) == Some(kcp_queue(*final(k))),
        grew_from(kcp_queue(*old(k)), kcp_queue(*final(k))),
        data@.len() < KCP_OVERHEAD ==> *final(k) == *old(k),
        kcp_conv(*final(k)) == kcp_conv(*old(k)),
{
    let _ = k.inner.input(data);
}

/// `kcp::Kcp::peeksize`: the size of the complete message at the head of the
/// receive queue, `None` when there is none. A head segment with fragment
/// count 255 makes it panic and is left out.
#[verifier::external_body]
fn kcp_peeksize(k: &Transport) -> (r: Option<usize>)
    requires
        readable(kcp_queue(*k)),
    ensures
        match ready_message(kcp_queue(*k)) {
            Some(m) => r matches Some(n) && n as int == m.len(),
            None => r is None,
        },
{
    match k.inner.peeksize() {
        Ok(size) => Some(size),
        Err(_) => None,
    }
}

/// `kcp::Kcp::recv`: takes the message at the head of the receive queue into
/// `buf`, which has its size; its length result is dropped. Segments that
/// complete the sequence then join the end of the queue.
#[verifier::external_body]
fn kcp_recv(k: &mut Transport, buf: &mut Vec<u8>)
    requires
        readable(kcp_queue(*old(k))),
        ready_message(kcp_queue(*old(k))) is Some,
        old(buf)@.len() == ready_message(kcp_queue(*old(k)))->0.len(),
    ensures
        final(buf)@ == ready_message(kcp_queue(*old(k)))->0,
        taken_from(kcp_queue(*old(k)), kcp_queue(*final(k))),
        kcp_conv(*final(k)) == kcp_conv(*old(k)),
{
    let _ = k.inner.recv(buf.as_mut_slice());
}

/// `base64::decode`: the bytes a base64 text stands for, `None` for a text
/// that is not base64. The result is named by `base64_standard_decoded`.
#[verifier::external_body]
fn base64_decode(text: &str) -> (r: Option<Vec<u8>>)
    ensures
        match r {
            Some(v) => base64_standard_decoded(text@) == Some(v@),
            None => base64_standard_decoded(text@) is None,
        },
{
    #[allow(deprecated)]
    let res = base64::decode(text);
    res.ok()
}

/// `rsa::RsaPrivateKey::decrypt` with PKCS#1 v1.5 padding, with the key read
/// from its PEM text: the plaintext, or `None` when the text holds no key or
/// the ciphertext does not decrypt; named by `pkcs1v15_decrypted`.
#[verifier::external_body]
fn rsa_pkcs1v15_decrypt(pem: &str, ciphertext: &Vec<u8>) -> (r: Option<Vec<u8>>)
    ensures
        match pkcs1v15_decrypted(pem@, ciphertext@) {
            Some(p) => r matches Some(v) && v@ == p,
            None => r is None,
        },
{
    let key = <rsa::RsaPrivateKey as rsa::pkcs1::DecodeRsaPrivateKey>::from_pkcs1_pem(pem).ok()?;
    key.decrypt(rsa::Pkcs1v15Encrypt, ciphertext.as_slice()).ok()
}

} // verus!
