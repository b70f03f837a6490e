use hosts_core::is_ip;

fn ip(s: &str) -> bool {
    is_ip(s.to_string())
}

#[test]
fn ipv4_valid_addresses() {
    assert!(ip("0.0.0.0"));
    assert!(ip("255.255.255.255"));
    assert!(ip("192.168.1.1"));
    assert!(ip("127.0.0.1"));
}

#[test]
fn ipv4_invalid_addresses() {
    assert!(!ip("256.1.1.1"));
    assert!(!ip("1.1.1"));
    assert!(!ip("a.b.c.d"));
    assert!(!ip("1.1.1.1.1"));
    assert!(!ip("1..1.1"));
    assert!(!ip("1000.1.1.1"));
    assert!(!ip(""));
    assert!(!ip(" 1.1.1.1"));
    assert!(!ip("1.1.1.1 "));
}

#[test]
fn ipv6_valid_addresses() {
    assert!(ip("::1"));
    assert!(ip("2001:db8::1"));
    assert!(ip("::"));
    assert!(ip("fe80::"));
    assert!(ip("1:2:3:4:5:6:7:8"));
    assert!(ip("2001:DB8:0:0:8:800:200C:417A"));
    assert!(ip("1::8"));
    assert!(ip("1:2:3:4:5:6:7::"));
}

#[test]
fn ipv6_invalid_addresses() {
    assert!(!ip("fe80::1%eth0"));
    assert!(!ip("1::2::3"));
    assert!(!ip("1:2:3:4:5:6:7:8:9"));
    assert!(!ip("1:2:3:4:5:6:7"));
    assert!(!ip("1:2:3:4::5:6:7:8"));
    assert!(!ip("12345::1"));
    assert!(!ip(":::1"));
    assert!(!ip("g::1"));
    assert!(!ip(":1"));
}
