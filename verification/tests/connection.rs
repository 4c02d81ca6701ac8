use base64::Engine;
use evergreen::client_server_pair::{server_seed_from, ClientServerPair, Packet};
use evergreen::sniffer::{choice_from, device_choice, DeviceChoice};
use rsa::pkcs1::EncodeRsaPrivateKey;
use evergreen::evergreen::Evergreen;
use evergreen::mtkey::Mtkey;
use evergreen::sniffer;
use evergreen::udp_data_processor::{
    control_message, is_client_port, remove_headers, Control, UdpDataProcessor,
};
use std::cell::RefCell;
use std::collections::HashMap;
use std::io::Write;
use std::rc::Rc;

const N: &str = "6555761825017073966135342740353757949422885003962498681071405902996615380449880362187752088079690536927859068669724621134962692965746585502556049071264859";
const D: &str = "2039741510504343428040126551696804527925935702210954279349482548301020556674095499886248045435637836825106707678660057956285880329339417173587496194545345";
const P: &str = "88065892298713157685062754232192126445072267695118870830616207565232404019963";
const Q: &str = "74441553408445604394915005022183240531070701355763043770003756007748740124193";

fn big(s: &str) -> rsa::BigUint {
    rsa::BigUint::parse_bytes(s.as_bytes(), 10).unwrap()
}

fn test_key() -> rsa::RsaPrivateKey {
    rsa::RsaPrivateKey::from_components(big(N), big("65537"), big(D), vec![big(P), big(Q)]).unwrap()
}

fn test_pem() -> String {
    test_key().to_pkcs1_pem(rsa::pkcs1::LineEnding::LF).unwrap().to_string()
}

struct CountingRng(u64);

impl rsa::rand_core::RngCore for CountingRng {
    fn next_u32(&mut self) -> u32 {
        self.next_u64() as u32
    }
    fn next_u64(&mut self) -> u64 {
        self.0 = self.0.wrapping_mul(6364136223846793005).wrapping_add(1442695040888963407);
        self.0 >> 11
    }
    fn fill_bytes(&mut self, dest: &mut [u8]) {
        for b in dest.iter_mut() {
            *b = (self.next_u64() >> 16) as u8;
        }
    }
    fn try_fill_bytes(&mut self, dest: &mut [u8]) -> Result<(), rsa::rand_core::Error> {
        self.fill_bytes(dest);
        Ok(())
    }
}

impl rsa::rand_core::CryptoRng for CountingRng {}

fn dispatch_key() -> Vec<u8> {
    Mtkey::from_seed(777).keybuf
}

fn table() -> HashMap<u16, Vec<u8>> {
    let k = dispatch_key();
    let mut t = HashMap::new();
    t.insert(u16::from_be_bytes([k[0], k[1]]), k);
    t
}

fn frame(cmdid: u16, header: &[u8], body: &[u8]) -> Vec<u8> {
    let mut f = vec![0x45, 0x67];
    f.extend(cmdid.to_be_bytes());
    f.extend((header.len() as u16).to_be_bytes());
    f.extend((body.len() as u32).to_be_bytes());
    f.extend_from_slice(header);
    f.extend_from_slice(body);
    f.extend([0x89, 0xAB]);
    f
}

fn encrypt(plain: &[u8], key: &[u8]) -> Vec<u8> {
    let mut d = plain.to_vec();
    Mtkey { keybuf: key.to_vec() }.xor(&mut d);
    d
}

fn check_packet(p: &Packet, cmdid: u16, header: &[u8], body: &[u8], is_client: bool) {
    assert_eq!(p.cmdid, cmdid);
    assert_eq!(p.header_size as usize, header.len());
    assert_eq!(p.data_size as usize, body.len());
    assert_eq!(p.header, header.to_vec());
    assert_eq!(p.data, body.to_vec());
    assert_eq!(p.is_client, is_client);
}

#[test]
fn frame_validity() {
    assert!(ClientServerPair::is_valid(&[0x45, 0x67]));
    assert!(!ClientServerPair::is_valid(&[0x45, 0x66]));
    assert!(ClientServerPair::is_valid(&[0x45, 0x67, 0, 0x89, 0xAB]));
    assert!(!ClientServerPair::is_valid(&[0x45, 0x67, 0, 0x89, 0xAA]));
    assert!(!ClientServerPair::is_valid(&[0x45, 0x67, 0x89]));
    assert!(!ClientServerPair::is_valid(&[0x45]));
    assert!(!ClientServerPair::is_valid(&[]));
}

#[test]
fn headers_are_stripped() {
    let mut raw = vec![0u8; 14];
    let mut ip = vec![0u8; 20];
    ip.extend([0x56, 0x55, 0x12, 0x34, 0, 12, 0, 0]);
    ip.extend([1, 2, 3, 4]);
    raw.extend(ip.clone());
    assert_eq!(remove_headers(raw, true), (vec![1, 2, 3, 4], 22101));
    assert_eq!(remove_headers(ip.clone(), false), (vec![1, 2, 3, 4], 22101));
    assert_eq!(sniffer::remove_headers(ip), (vec![1, 2, 3, 4], 22101));
}

#[test]
fn ports_tell_the_sides_apart() {
    assert!(!is_client_port(22101));
    assert!(!is_client_port(22102));
    assert!(is_client_port(22100));
    assert!(is_client_port(50000));
}

#[test]
fn control_datagrams() {
    let mut connect = vec![0, 0, 1, 0x45, 0, 0, 0, 7, 0, 0, 1, 0];
    connect.extend([0u8; 8]);
    assert_eq!(control_message(&connect), Some(Control::Connect { conv: 7, token: 256 }));
    let mut disconnect = vec![0, 0, 1, 0x94];
    disconnect.extend([0u8; 16]);
    assert_eq!(control_message(&disconnect), Some(Control::Disconnect));
    let mut other = vec![0, 0, 0, 0x99];
    other.extend([0u8; 16]);
    assert_eq!(control_message(&other), Some(Control::Unknown { magic: 0x99 }));
    assert_eq!(control_message(&vec![0u8; 19]), None);
    assert_eq!(control_message(&vec![0u8; 21]), None);
}

#[test]
fn dispatch_key_is_found_by_first_bytes() {
    let mut pair = ClientServerPair::new(test_pem(), table()).unwrap();
    let plain = frame(101, &[1, 2, 3], &[9, 8, 7, 6]);
    let mut data = encrypt(&plain, &dispatch_key());
    let p = pair.decrypt_packet(&mut data, true).unwrap();
    check_packet(&p, 101, &[1, 2, 3], &[9, 8, 7, 6], true);
    assert_eq!(data, plain);
    let plain2 = frame(5, &[], &[42]);
    let mut data2 = encrypt(&plain2, &dispatch_key());
    let p2 = pair.decrypt_packet(&mut data2, false).unwrap();
    check_packet(&p2, 5, &[], &[42], false);
}

#[test]
fn unknown_first_bytes_give_nothing() {
    let mut pair = ClientServerPair::new(test_pem(), table()).unwrap();
    let mut data = vec![0x45, 0x67, 0, 1, 0, 0, 0, 0, 0, 0, 0x89, 0xAB];
    let p = pair.decrypt_packet(&mut data, true);
    let p = p.unwrap();
    check_packet(&p, 1, &[], &[], true);
    let mut junk = vec![1u8, 2, 3, 4, 5, 6, 7, 8, 9, 10, 11, 12];
    assert!(pair.decrypt_packet(&mut junk, true).is_none());
    assert_eq!(junk, vec![1u8, 2, 3, 4, 5, 6, 7, 8, 9, 10, 11, 12]);
}

#[test]
fn short_or_misshapen_frames_give_nothing() {
    let mut pair = ClientServerPair::new(test_pem(), HashMap::new()).unwrap();
    let mut one = vec![0x45u8];
    assert!(pair.decrypt_packet(&mut one, true).is_none());
    let mut too_long_header = frame(1, &[1, 2], &[3]);
    too_long_header[5] = 40;
    assert!(pair.decrypt_packet(&mut too_long_header, true).is_none());
    let mut bare = vec![0x45u8, 0x67, 0x89, 0xAB];
    assert!(pair.decrypt_packet(&mut bare, true).is_none());
}

#[test]
fn session_key_is_searched_from_the_token_response() {
    let key = test_key();
    let public = rsa::RsaPublicKey::from(&key);
    let server_seed: u64 = 0x1122334455667788;
    let mut rng = CountingRng(5);
    let cipher = public
        .encrypt(&mut rng, rsa::Pkcs1v15Encrypt, &server_seed.to_be_bytes())
        .unwrap();
    let text = base64::engine::general_purpose::STANDARD.encode(cipher);

    let mut pair = ClientServerPair::new(test_pem(), table()).unwrap();
    let first = frame(1, &[], &[1]);
    let mut data = encrypt(&first, &dispatch_key());
    assert!(pair.decrypt_packet(&mut data, false).is_some());

    assert!(pair.record_token_rsp(Some(1700000000123), Some(text)));

    let session = Mtkey::from_seed(11731321635045515144).keybuf;
    let plain = frame(77, &[5, 5], &[1, 2, 3, 4, 5, 6]);
    let mut data = encrypt(&plain, &session);
    let p = pair.decrypt_packet(&mut data, true).unwrap();
    check_packet(&p, 77, &[5, 5], &[1, 2, 3, 4, 5, 6], true);
    assert_eq!(pair.key_bf().previous_seeds().clone(), vec![1700000000123i64]);

    let plain2 = frame(78, &[], &[9]);
    let mut data2 = encrypt(&plain2, &session);
    let p2 = pair.decrypt_packet(&mut data2, false).unwrap();
    check_packet(&p2, 78, &[], &[9], false);

    let mut junk = encrypt(&frame(79, &[], &[]), &dispatch_key());
    assert!(pair.decrypt_packet(&mut junk, true).is_none());
    let mut data3 = encrypt(&frame(80, &[], &[3]), &dispatch_key());
    let p3 = pair.decrypt_packet(&mut data3, true).unwrap();
    check_packet(&p3, 80, &[], &[3], true);
}

#[test]
fn token_response_with_bad_text_is_refused() {
    let mut pair = ClientServerPair::new(test_pem(), HashMap::new()).unwrap();
    assert!(!pair.record_token_rsp(Some(5), Some("not base64!".to_string())));
    assert!(pair.record_token_rsp(None, None));
}

#[derive(Clone)]
struct Collect(Rc<RefCell<Vec<Vec<u8>>>>);

impl Write for Collect {
    fn write(&mut self, data: &[u8]) -> std::io::Result<usize> {
        self.0.borrow_mut().push(data.to_vec());
        Ok(data.len())
    }
    fn flush(&mut self) -> std::io::Result<()> {
        Ok(())
    }
}

fn segments(conv: u32, message: &[u8]) -> Vec<Vec<u8>> {
    let out = Collect(Rc::new(RefCell::new(Vec::new())));
    let mut sender = kcp::Kcp::new(conv, out.clone());
    sender.update(0).unwrap();
    sender.send(message).unwrap();
    sender.flush().unwrap();
    let segs = out.0.borrow().clone();
    segs
}

#[test]
fn transport_messages_are_reassembled_and_decrypted() {
    let mut pair = ClientServerPair::new(test_pem(), table()).unwrap();
    assert!(pair.recv_kcp(true).is_none());
    pair.add_data(&[1, 2, 3], true);
    pair.init_kcp(9, 0);
    assert!(pair.recv_kcp(true).is_none());
    let plain = frame(300, &[1], &[2, 3]);
    for seg in segments(9, &encrypt(&plain, &dispatch_key())) {
        pair.add_data(&seg, true);
    }
    assert!(pair.recv_kcp(false).is_none());
    let p = pair.recv_kcp(true).unwrap();
    check_packet(&p, 300, &[1], &[2, 3], true);
    assert!(pair.recv_kcp(true).is_none());
}

#[test]
fn capture_step_handles_control_then_data() {
    let mut proc = UdpDataProcessor::new(test_pem(), table()).unwrap();
    let mut connect = vec![0, 0, 1, 0x45, 0, 0, 0, 4, 0, 0, 0, 0];
    connect.extend([0u8; 8]);
    let (c, a, b) = proc.handle_datagram(&connect, 22101);
    assert_eq!(c, Some(Control::Connect { conv: 4, token: 0 }));
    assert!(a.is_none() && b.is_none());
    let plain = frame(12, &[], &[1, 1]);
    let mut got = Vec::new();
    for seg in segments(4, &encrypt(&plain, &dispatch_key())) {
        let (c, a, b) = proc.handle_datagram(&seg, 50000);
        assert_eq!(c, None);
        got.extend(a);
        got.extend(b);
    }
    assert_eq!(got.len(), 1);
    check_packet(&got[0], 12, &[], &[1, 1], true);
}

#[test]
fn command_line_step_feeds_control_datagrams_too() {
    let mut e = Evergreen::new(test_pem(), table()).unwrap();
    let mut connect = vec![0, 0, 1, 0x45, 0, 0, 0, 4, 0, 0, 0, 0];
    connect.extend([0u8; 8]);
    let (c, a, b) = e.handle_datagram(&connect, 22101);
    assert_eq!(c, Some(Control::Connect { conv: 4, token: 0 }));
    assert!(a.is_none() && b.is_none());
    let plain = frame(13, &[7], &[]);
    let mut got = Vec::new();
    for seg in segments(4, &encrypt(&plain, &dispatch_key())) {
        let (_, a, b) = e.handle_datagram(&seg, 22102);
        got.extend(a);
        got.extend(b);
    }
    assert_eq!(got.len(), 1);
    check_packet(&got[0], 13, &[7], &[], false);
}

#[test]
fn connections_need_a_private_key() {
    assert!(ClientServerPair::new("not a key".to_string(), HashMap::new()).is_none());
    assert!(UdpDataProcessor::new(String::new(), HashMap::new()).is_none());
    assert!(Evergreen::new(test_pem(), HashMap::new()).is_some());
}

#[test]
fn server_seed_is_the_first_eight_bytes() {
    assert_eq!(server_seed_from(&vec![1, 2, 3, 4, 5, 6, 7, 8, 9]), Some(0x0102030405060708));
    assert_eq!(server_seed_from(&vec![1, 2, 3, 4, 5, 6, 7]), None);
}

#[test]
fn typed_device_choices() {
    assert_eq!(device_choice(" 2\n", 3), DeviceChoice::Chosen(2));
    assert_eq!(device_choice("3\n", 3), DeviceChoice::OutOfBounds);
    assert_eq!(device_choice("two\n", 3), DeviceChoice::NotANumber);
    assert_eq!(choice_from(Some(0), 1), DeviceChoice::Chosen(0));
    assert_eq!(choice_from(Some(1), 1), DeviceChoice::OutOfBounds);
    assert_eq!(choice_from(None, 1), DeviceChoice::NotANumber);
}

#[test]
fn typed_device_choices_follow_number_syntax() {
    assert_eq!(device_choice("+2", 3), DeviceChoice::Chosen(2));
    assert_eq!(device_choice("\u{3000}1\t\r\n", 3), DeviceChoice::Chosen(1));
    assert_eq!(device_choice("", 3), DeviceChoice::NotANumber);
    assert_eq!(device_choice("+", 3), DeviceChoice::NotANumber);
    assert_eq!(device_choice("-1", 3), DeviceChoice::NotANumber);
    assert_eq!(device_choice("1 2", 3), DeviceChoice::NotANumber);
    assert_eq!(device_choice("99999999999999999999999999", 3), DeviceChoice::NotANumber);
}
