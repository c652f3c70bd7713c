use contact_relay::client_ip::{extract_client_ip, forwarded_ip_text, real_ip, Header};

const PEER: &str = "198.51.100.7";

#[test]
fn forwarded_header_comes_first() {
    assert_eq!(
        extract_client_ip(
            Some("for=192.0.2.60;proto=http;by=203.0.113.43"),
            Some("10.0.0.1"),
            Some("10.0.0.2"),
            PEER
        ),
        "192.0.2.60"
    );
    assert_eq!(
        extract_client_ip(Some("proto=http , by=1.1.1.1; for=1.2.3.4 ,for=5.6.7.8"), None, None, PEER),
        "1.2.3.4"
    );
}

#[test]
fn quotes_and_brackets_around_the_value_are_dropped() {
    assert_eq!(extract_client_ip(Some("for=\"[2001:db8::1]\""), None, None, PEER), "2001:db8::1");
    assert_eq!(extract_client_ip(Some("for=\"192.0.2.1\""), None, None, PEER), "192.0.2.1");
    // Only the ends are stripped: a port behind the bracket keeps the bracket.
    assert_eq!(
        extract_client_ip(Some("for=\"[2001:db8:cafe::17]:4711\""), None, None, PEER),
        "2001:db8:cafe::17]:4711"
    );
}

#[test]
fn forwarded_without_a_client_falls_through() {
    assert_eq!(extract_client_ip(Some("For=1.2.3.4"), Some("10.0.0.1"), None, PEER), "10.0.0.1");
    assert_eq!(extract_client_ip(Some("for=\"\""), Some("10.0.0.1"), None, PEER), "10.0.0.1");
    assert_eq!(extract_client_ip(Some("for=[]"), None, Some("10.0.0.2"), PEER), "10.0.0.2");
    assert_eq!(extract_client_ip(Some(""), None, None, PEER), PEER);
    assert_eq!(extract_client_ip(Some("for= 1.2.3.4"), None, None, PEER), " 1.2.3.4");
    assert_eq!(extract_client_ip(Some("for=\"\";for=7.7.7.7"), None, None, PEER), "7.7.7.7");
}

#[test]
fn x_forwarded_for_gives_its_first_entry() {
    assert_eq!(extract_client_ip(None, Some(" 10.0.0.1 , 10.0.0.2"), Some("9.9.9.9"), PEER), "10.0.0.1");
    assert_eq!(extract_client_ip(None, Some(" , 1.1.1.1"), Some(" 9.9.9.9 "), PEER), "9.9.9.9");
    assert_eq!(extract_client_ip(None, Some(""), None, PEER), PEER);
}

#[test]
fn x_real_ip_then_the_peer() {
    assert_eq!(extract_client_ip(None, None, Some(" 9.9.9.9 "), PEER), "9.9.9.9");
    assert_eq!(extract_client_ip(None, None, Some("  "), PEER), PEER);
    assert_eq!(extract_client_ip(None, None, None, PEER), PEER);
}

#[test]
fn address_text_from_the_headers() {
    assert_eq!(
        forwarded_ip_text(Header::Text(" 10.0.0.1 , 10.0.0.2"), Header::Text("9.9.9.9")),
        Some("10.0.0.1".to_string())
    );
    assert_eq!(forwarded_ip_text(Header::Text(""), Header::Text("9.9.9.9")), Some("".to_string()));
    assert_eq!(forwarded_ip_text(Header::Opaque, Header::Text("9.9.9.9")), None);
    assert_eq!(forwarded_ip_text(Header::Absent, Header::Text(" 9.9.9.9")), Some(" 9.9.9.9".to_string()));
    assert_eq!(forwarded_ip_text(Header::Absent, Header::Opaque), None);
    assert_eq!(forwarded_ip_text(Header::Absent, Header::Absent), None);
}

#[test]
fn address_falls_back_to_peer_then_loopback() {
    assert_eq!(real_ip(Some(1), Some(2), 3), 1);
    assert_eq!(real_ip(None, Some(2), 3), 2);
    assert_eq!(real_ip(None, None, 3), 3);
}
