use file_transfer::networking::peers::PeerAddr;
use file_transfer::networking::peers::PeerSet;
use file_transfer::networking::peers::PingResponse;

fn peer(ip: &str, port: u16, os: &str, name: &str) -> PingResponse {
    PingResponse::new(
        PeerAddr::new(ip.as_bytes().to_vec(), port),
        os.as_bytes().to_vec(),
        name.as_bytes().to_vec(),
    )
}

#[test]
fn addresses_hold_ip_and_port() {
    let addr = PeerAddr::new(b"192.168.1.7".to_vec(), 24936);
    assert_eq!(addr.ip, b"192.168.1.7".to_vec());
    assert_eq!(addr.port, 24936);
    assert!(addr.has_ip(b"192.168.1.7"));
    assert!(!addr.has_ip(b"192.168.1.70"));
    assert!(!addr.has_ip(b""));
}

#[test]
fn the_unspecified_address() {
    let addr = PeerAddr::unspecified();
    assert_eq!(addr.ip, b"0.0.0.0".to_vec());
    assert_eq!(addr.port, 0);
}

#[test]
fn another_port_of_the_same_host() {
    let addr = PeerAddr::new(b"fe80::1".to_vec(), 24936);
    let control = addr.with_port(24934);
    assert_eq!(control, PeerAddr::new(b"fe80::1".to_vec(), 24934));
    assert_eq!(addr.port, 24936);
}

#[test]
fn addresses_are_the_same_by_ip_and_port() {
    let a = PeerAddr::new(b"10.0.0.1".to_vec(), 1);
    assert!(a.same(&PeerAddr::new(b"10.0.0.1".to_vec(), 1)));
    assert!(!a.same(&PeerAddr::new(b"10.0.0.1".to_vec(), 2)));
    assert!(!a.same(&PeerAddr::new(b"10.0.0.2".to_vec(), 1)));
    assert_eq!(a.clone(), a);
}

#[test]
fn a_peer_is_what_it_was_made_of() {
    let p = peer("10.0.0.2", 24934, "linux", "bob");
    assert_eq!(p.addr, PeerAddr::new(b"10.0.0.2".to_vec(), 24934));
    assert_eq!(p.os, b"linux".to_vec());
    assert_eq!(p.hostname, b"bob".to_vec());
    assert_eq!(p.clone(), p);
}

#[test]
fn the_default_peer_has_no_name_and_no_address() {
    let p = PingResponse::default();
    assert_eq!(p.addr, PeerAddr::unspecified());
    assert_eq!(p.os, Vec::<u8>::new());
    assert_eq!(p.hostname, Vec::<u8>::new());
}

#[test]
fn peers_are_the_same_by_all_three_fields() {
    let p = peer("10.0.0.2", 24934, "linux", "bob");
    assert!(p.same(&peer("10.0.0.2", 24934, "linux", "bob")));
    assert!(!p.same(&peer("10.0.0.3", 24934, "linux", "bob")));
    assert!(!p.same(&peer("10.0.0.2", 24935, "linux", "bob")));
    assert!(!p.same(&peer("10.0.0.2", 24934, "macos", "bob")));
    assert!(!p.same(&peer("10.0.0.2", 24934, "linux", "bobby")));
}

#[test]
fn a_set_holds_each_peer_once() {
    let mut set = PeerSet::new();
    assert_eq!(set.len(), 0);
    assert!(set.insert(peer("10.0.0.2", 24934, "linux", "bob")));
    assert!(!set.insert(peer("10.0.0.2", 24934, "linux", "bob")));
    assert!(set.insert(peer("10.0.0.2", 24934, "linux", "alice")));
    assert!(set.insert(peer("10.0.0.3", 24934, "linux", "bob")));
    assert_eq!(set.len(), 3);
    assert!(set.contains(&peer("10.0.0.2", 24934, "linux", "alice")));
    assert!(!set.contains(&peer("10.0.0.2", 24934, "windows", "alice")));
    assert_eq!(
        set.to_vec(),
        vec![
            peer("10.0.0.2", 24934, "linux", "bob"),
            peer("10.0.0.2", 24934, "linux", "alice"),
            peer("10.0.0.3", 24934, "linux", "bob"),
        ]
    );
}

#[test]
fn peers_are_read_by_their_place() {
    let mut set = PeerSet::new();
    set.insert(peer("10.0.0.2", 24934, "linux", "bob"));
    set.insert(peer("10.0.0.3", 24934, "macos", "carol"));
    assert_eq!(set.get(0), Some(peer("10.0.0.2", 24934, "linux", "bob")));
    assert_eq!(set.get(1), Some(peer("10.0.0.3", 24934, "macos", "carol")));
    assert_eq!(set.get(2), None);
}

#[test]
fn a_peer_is_found_by_its_ip_whatever_its_port() {
    let mut set = PeerSet::new();
    set.insert(peer("10.0.0.2", 24934, "linux", "bob"));
    set.insert(peer("10.0.0.3", 24934, "macos", "carol"));
    set.insert(peer("10.0.0.3", 24934, "macos", "dave"));
    assert_eq!(set.find_by_ip(b"10.0.0.3"), Some(peer("10.0.0.3", 24934, "macos", "carol")));
    assert_eq!(set.find_by_ip(b"10.0.0.2"), Some(peer("10.0.0.2", 24934, "linux", "bob")));
    assert_eq!(set.find_by_ip(b"10.0.0.4"), None);
    assert_eq!(PeerSet::new().find_by_ip(b"10.0.0.2"), None);
}

#[test]
fn peers_with_an_ip_are_left_out() {
    let mut set = PeerSet::new();
    set.insert(peer("10.0.0.2", 24934, "linux", "bob"));
    set.insert(peer("10.0.0.1", 24934, "linux", "me"));
    set.insert(peer("10.0.0.3", 24934, "macos", "carol"));
    set.insert(peer("10.0.0.1", 24934, "linux", "me too"));
    let others = set.without_ip(b"10.0.0.1");
    assert_eq!(
        others.to_vec(),
        vec![peer("10.0.0.2", 24934, "linux", "bob"), peer("10.0.0.3", 24934, "macos", "carol")]
    );
    assert_eq!(set.len(), 4);
    assert_eq!(set.without_ip(b"10.0.0.9").to_vec(), set.to_vec());
    assert_eq!(others.clone().to_vec(), others.to_vec());
}
