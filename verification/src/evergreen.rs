use vstd::prelude::*;
use std::collections::HashMap;
use crate::client_server_pair::{ClientServerPair, Packet, packet_view, table_ok, pkcs1_pem_accepted, queue_of, conv_of};
use crate::udp_data_processor::{
    Control, control_message, control_of, feed_and_receive, is_client_port, client_port, feed_outcome, feed_receivable,
};

verus! {

/// The sniffer of the command-line program: every datagram is fed to the
/// transports, control datagrams included.
pub struct Evergreen {
    pub client_server_pair: ClientServerPair,
}

impl Evergreen {
    pub fn new(rsa_pem: String, dispatch_keys: HashMap<u16, Vec<u8>>) -> (r: Option<Evergreen>)
        requires
            table_ok(dispatch_keys@),
        ensures
            r is Some == pkcs1_pem_accepted(rsa_pem@),
            r matches Some(e) ==> {
                &&& e.client_server_pair.wf()
                &&& e.client_server_pair.table() == dispatch_keys@
                &&& e.client_server_pair.private_key_pem() == rsa_pem@
                &&& e.client_server_pair.keys().session_key is None
                &&& e.client_server_pair.keys().dispatch_key is None
                &&& e.client_server_pair.transport(true) is None
                &&& e.client_server_pair.transport(false) is None
            },
    {
        match ClientServerPair::new(rsa_pem, dispatch_keys) {
            Some(client_server_pair) => Some(Evergreen { client_server_pair }),
            None => None,
        }
    }

    /// Handles one UDP payload from `port`: a connect datagram sets up both
    /// transports first; then the datagram is fed to its side and both sides
    /// are asked for a packet.
    pub fn handle_datagram(&mut self, data: &Vec<u8>, port: u16) -> (r: (Option<Control>, Option<Packet>, Option<Packet>))
        requires
            old(self).client_server_pair.wf(),
            (control_of(data@) matches Some(Control::Connect { .. })) || feed_receivable(
                old(self).client_server_pair,
                client_port(port),
                data@,
            ),
        ensures
            final(self).client_server_pair.wf(),
            final(self).client_server_pair.table() == old(self).client_server_pair.table(),
            final(self).client_server_pair.private_key_pem() == old(self).client_server_pair.private_key_pem(),
            r.0 == control_of(data@),
            r.0 matches Some(Control::Connect { conv, .. }) ==> {
                &&& r.1 is None && r.2 is None
                &&& final(self).client_server_pair.keys() == old(self).client_server_pair.keys()
                &&& queue_of(final(self).client_server_pair.transport(true)) == Seq::<(u8, Seq<u8>)>::empty()
                &&& queue_of(final(self).client_server_pair.transport(false)) == Seq::<(u8, Seq<u8>)>::empty()
                &&& conv_of(final(self).client_server_pair.transport(true)) == Some(conv)
                &&& conv_of(final(self).client_server_pair.transport(false)) == Some(conv)
            },
            !(r.0 matches Some(Control::Connect { .. })) ==> (
                final(self).client_server_pair.keys(),
                packet_view(r.1),
                packet_view(r.2),
            ) == feed_outcome(old(self).client_server_pair, client_port(port), data@),
    {
        let is_client = is_client_port(port);
        let control = control_message(data);
        match control {
            Some(Control::Connect { conv, token }) => {
                self.client_server_pair.init_kcp(conv, token);
            },
            _ => {},
        }
        let (p1, p2) = feed_and_receive(&mut self.client_server_pair, data, is_client);
        (control, p1, p2)
    }
}

} // verus!
