use vstd::prelude::*;
use crate::key_bruteforce::{digits, push_digits};
use vstd::string::StringSliceAdditionalSpecFns;

verus! {

/// The bytes of '{\n    "cmd": "PacketNotify",\n    "data": [{\n        "packetID": '.
pub open spec fn notify_head() -> Seq<u8> {
    seq![123u8, 10u8, 32u8, 32u8, 32u8, 32u8, 34u8, 99u8, 109u8, 100u8, 34u8, 58u8, 32u8, 34u8, 80u8, 97u8, 99u8, 107u8, 101u8, 116u8, 78u8, 111u8, 116u8, 105u8, 102u8, 121u8, 34u8, 44u8, 10u8, 32u8, 32u8, 32u8, 32u8, 34u8, 100u8, 97u8, 116u8, 97u8, 34u8, 58u8, 32u8, 91u8, 123u8, 10u8, 32u8, 32u8, 32u8, 32u8, 32u8, 32u8, 32u8, 32u8, 34u8, 112u8, 97u8, 99u8, 107u8, 101u8, 116u8, 73u8, 68u8, 34u8, 58u8, 32u8]
}
/// The bytes of ',\n    "protoName": "'.
pub open spec fn notify_name() -> Seq<u8> {
    seq![44u8, 10u8, 32u8, 32u8, 32u8, 32u8, 34u8, 112u8, 114u8, 111u8, 116u8, 111u8, 78u8, 97u8, 109u8, 101u8, 34u8, 58u8, 32u8, 34u8]
}
/// The bytes of '",\n    "object": '.
pub open spec fn notify_object() -> Seq<u8> {
    seq![34u8, 44u8, 10u8, 32u8, 32u8, 32u8, 32u8, 34u8, 111u8, 98u8, 106u8, 101u8, 99u8, 116u8, 34u8, 58u8, 32u8]
}
/// The bytes of ',\n    "packet": ""'.
pub open spec fn notify_packet() -> Seq<u8> {
    seq![44u8, 10u8, 32u8, 32u8, 32u8, 32u8, 34u8, 112u8, 97u8, 99u8, 107u8, 101u8, 116u8, 34u8, 58u8, 32u8, 34u8, 34u8]
}
/// The bytes of ',\n    "source": '.
pub open spec fn notify_source() -> Seq<u8> {
    seq![44u8, 10u8, 32u8, 32u8, 32u8, 32u8, 34u8, 115u8, 111u8, 117u8, 114u8, 99u8, 101u8, 34u8, 58u8, 32u8]
}
/// The bytes of '  }]\n}'.
pub open spec fn notify_tail() -> Seq<u8> {
    seq![32u8, 32u8, 125u8, 93u8, 10u8, 125u8]
}
/// The notification that hands one decoded packet to the viewer: the packet
/// id, the message name and its JSON text, and the side it came from
/// (0 from the server, 1 from the client).
pub open spec fn notify_text(object: Seq<u8>, cmdid: u16, proto_name: Seq<u8>, is_server: bool) -> Seq<u8> {
    notify_head() + digits(cmdid as nat) + notify_name() + proto_name + notify_object() + object
        + notify_packet() + notify_source() + seq![if is_server { 48u8 } else { 49u8 }] + notify_tail()
}

/// Appends `b`.
fn push_all(out: &mut Vec<u8>, b: &[u8])
    ensures
        final(out)@ == old(out)@ + b@,
{
    let mut i: usize = 0;
    while i < b.len()
        invariant
            i <= b@.len(),
            out@ == old(out)@ + b@.subrange(0, i as int),
        decreases b@.len() - i,
    {
        out.push(b[i]);
        i = i + 1;
    }
    assert(b@.subrange(0, b@.len() as int) =~= b@);
}

/// Builds the notification for a packet whose message reads as `object` in JSON.
pub fn packet_notify(object: &str, cmdid: u16, proto_name: &str, is_server: bool) -> (r: Vec<u8>)
    ensures
        r@ == notify_text(object.spec_bytes(), cmdid, proto_name.spec_bytes(), is_server),
{
    let notify_head_bytes: [u8; 64] = [123u8, 10u8, 32u8, 32u8, 32u8, 32u8, 34u8, 99u8, 109u8, 100u8, 34u8, 58u8, 32u8, 34u8, 80u8, 97u8, 99u8, 107u8, 101u8, 116u8, 78u8, 111u8, 116u8, 105u8, 102u8, 121u8, 34u8, 44u8, 10u8, 32u8, 32u8, 32u8, 32u8, 34u8, 100u8, 97u8, 116u8, 97u8, 34u8, 58u8, 32u8, 91u8, 123u8, 10u8, 32u8, 32u8, 32u8, 32u8, 32u8, 32u8, 32u8, 32u8, 34u8, 112u8, 97u8, 99u8, 107u8, 101u8, 116u8, 73u8, 68u8, 34u8, 58u8, 32u8];
    assert(notify_head_bytes@ =~= notify_head());
    let notify_name_bytes: [u8; 20] = [44u8, 10u8, 32u8, 32u8, 32u8, 32u8, 34u8, 112u8, 114u8, 111u8, 116u8, 111u8, 78u8, 97u8, 109u8, 101u8, 34u8, 58u8, 32u8, 34u8];
    assert(notify_name_bytes@ =~= notify_name());
    let notify_object_bytes: [u8; 17] = [34u8, 44u8, 10u8, 32u8, 32u8, 32u8, 32u8, 34u8, 111u8, 98u8, 106u8, 101u8, 99u8, 116u8, 34u8, 58u8, 32u8];
    assert(notify_object_bytes@ =~= notify_object());
    let notify_packet_bytes: [u8; 18] = [44u8, 10u8, 32u8, 32u8, 32u8, 32u8, 34u8, 112u8, 97u8, 99u8, 107u8, 101u8, 116u8, 34u8, 58u8, 32u8, 34u8, 34u8];
    assert(notify_packet_bytes@ =~= notify_packet());
    let notify_source_bytes: [u8; 16] = [44u8, 10u8, 32u8, 32u8, 32u8, 32u8, 34u8, 115u8, 111u8, 117u8, 114u8, 99u8, 101u8, 34u8, 58u8, 32u8];
    assert(notify_source_bytes@ =~= notify_source());
    let notify_tail_bytes: [u8; 6] = [32u8, 32u8, 125u8, 93u8, 10u8, 125u8];
    assert(notify_tail_bytes@ =~= notify_tail());
    let mut r: Vec<u8> = Vec::new();
    push_all(&mut r, notify_head_bytes.as_slice());
    push_digits(cmdid as u64, &mut r);
    push_all(&mut r, notify_name_bytes.as_slice());
    push_all(&mut r, proto_name.as_bytes());
    push_all(&mut r, notify_object_bytes.as_slice());
    push_all(&mut r, object.as_bytes());
    push_all(&mut r, notify_packet_bytes.as_slice());
    push_all(&mut r, notify_source_bytes.as_slice());
    r.push(if is_server { 48u8 } else { 49u8 });
    push_all(&mut r, notify_tail_bytes.as_slice());
    assert(r@ =~= notify_text(object.spec_bytes(), cmdid, proto_name.spec_bytes(), is_server));
    r
}

} // verus!
