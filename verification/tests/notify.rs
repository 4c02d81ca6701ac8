use evergreen::iridium::packet_notify;

#[test]
fn packet_notification_text() {
    let r = String::from_utf8(packet_notify("{\"a\":1}", 123, "GetPlayerTokenRsp", true)).unwrap();
    assert_eq!(
        r,
        "{\n    \"cmd\": \"PacketNotify\",\n    \"data\": [{\n        \"packetID\": 123,\n    \"protoName\": \"GetPlayerTokenRsp\",\n    \"object\": {\"a\":1},\n    \"packet\": \"\",\n    \"source\": 0  }]\n}"
    );
}

#[test]
fn packet_notification_from_the_client() {
    let r = String::from_utf8(packet_notify("{}", 0, "X", false)).unwrap();
    assert!(r.contains("\"packetID\": 0,"));
    assert!(r.ends_with("\"source\": 1  }]\n}"));
}
