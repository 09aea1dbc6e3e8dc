use pulsar_network::{Bootstrap, Chain, Connection, Envelope, Kind, Message, Network, Peer, Route, Table, Topic};

fn hello(tag: u8, route: u8, key: &[u8; 32]) -> Vec<u8> {
    let mut v = vec![tag, route];
    v.extend_from_slice(key);
    v
}

#[test]
fn configure_makes_a_key_pair() {
    let n = Network::configure(Route::Validation);
    assert_eq!(n.public_key, fides::x25519::public_key(&n.private_key));
    assert_eq!(n.route, Route::Validation);
    assert!(n.peers.buckets().is_empty());
}

#[test]
fn ping_request_files_the_sender_and_answers() {
    let mut n = Network::configure(Route::Peer);
    let peer_key = fides::x25519::public_key(&fides::x25519::private_key());
    let buf = hello(3, 1, &peer_key);
    assert!(n.bootstrap_handles(&buf));
    match n.bootstrap_step(&buf, &"4.4.4.4:4".to_string()) {
        Bootstrap::Send(v) => {
            assert_eq!(v, vec![(hello(4, 1, &n.public_key), "4.4.4.4:4".to_string())]);
        },
        _ => panic!("expected a ping response"),
    }
    let filed: Vec<&(String, [u8; 32])> = n.peers.buckets().iter().flat_map(|b| b.1.iter().map(|e| &e.1)).collect();
    assert_eq!(filed.len(), 1);
    assert_eq!(filed[0].0, "4.4.4.4:4");
    assert_eq!(filed[0].1, fides::x25519::shared_key(&n.private_key, &peer_key));
    // A ping response files the sender without answering.
    let other = fides::x25519::public_key(&fides::x25519::private_key());
    assert!(matches!(n.bootstrap_step(&hello(4, 1, &other), &"6.6.6.6:6".to_string()), Bootstrap::Ignore));
    // Another route is ignored.
    let before = n.peers.buckets().len();
    assert!(matches!(n.bootstrap_step(&hello(3, 2, &other), &"7.7.7.7:7".to_string()), Bootstrap::Ignore));
    assert_eq!(n.peers.buckets().len(), before);
}

#[test]
fn join_request_is_answered_with_known_addresses() {
    let mut n = Network::configure(Route::Peer);
    let peer_key = fides::x25519::public_key(&fides::x25519::private_key());
    n.bootstrap_step(&hello(3, 1, &peer_key), &"4.4.4.4:4".to_string());
    match n.bootstrap_step(&[1, 1], &"8.8.8.8:8".to_string()) {
        Bootstrap::Send(v) => {
            assert_eq!(v.len(), 2);
            assert_eq!(v[0], (hello(3, 1, &n.public_key), "8.8.8.8:8".to_string()));
            let mut resp = vec![2u8];
            resp.extend_from_slice(b"4.4.4.4:4");
            assert_eq!(v[1], (resp, "8.8.8.8:8".to_string()));
        },
        _ => panic!("expected replies"),
    }
    assert!(matches!(n.bootstrap_step(&[1, 2], &"8.8.8.8:8".to_string()), Bootstrap::Ignore));
}

#[test]
fn join_response_pings_the_named_address() {
    let mut n = Network::configure(Route::Peer);
    let mut buf = vec![2u8];
    buf.extend_from_slice(b"9.9.9.9:9");
    match n.bootstrap_step(&buf, &"1.1.1.1:1".to_string()) {
        Bootstrap::Send(v) => assert_eq!(v, vec![(hello(3, 1, &n.public_key), "9.9.9.9:9".to_string())]),
        _ => panic!("expected a ping request"),
    }
    assert!(!n.bootstrap_handles(&[2, 0xff]));
}

#[test]
fn sealed_message_is_opened_and_handed_over() {
    let mut n = Network::configure(Route::Peer);
    let sender_private = fides::x25519::private_key();
    let sender_public = fides::x25519::public_key(&sender_private);
    let shared = fides::x25519::shared_key(&sender_private, &n.public_key);
    let m = Message::new(b"secret", &Chain::Test, &Topic::Transaction).unwrap();
    let sealed = fides::chacha20poly1305::encrypt(&shared, &m.to_bytes()).unwrap();
    let mut buf = vec![5u8];
    buf.extend_from_slice(&sender_public);
    buf.extend_from_slice(&sealed);
    assert!(n.bootstrap_handles(&buf));
    match n.bootstrap_step(&buf, &"2.2.2.2:2".to_string()) {
        Bootstrap::Deliver(got, peer) => {
            assert_eq!(got.body, b"secret".to_vec());
            assert_eq!(peer.address, "2.2.2.2:2");
            assert_eq!(peer.public_key, sender_public);
            assert_eq!(peer.shared_key, shared);
        },
        _ => panic!("expected a delivery"),
    }
    let mut tampered = buf.clone();
    let last = tampered.len() - 1;
    tampered[last] ^= 1;
    assert!(!n.bootstrap_handles(&tampered));
}

#[test]
fn panicking_datagrams_are_found() {
    let n = Network::configure(Route::Peer);
    assert!(!n.bootstrap_handles(&[]));
    assert!(!n.bootstrap_handles(&[1]));
    assert!(!n.bootstrap_handles(&[3, 1, 0]));
    assert!(n.bootstrap_handles(&[3, 2, 0]));
    assert!(!n.bootstrap_handles(&[5, 1, 2]));
    assert!(n.bootstrap_handles(&[9]));
    let mut m = Network::configure(Route::Peer);
    let before = m.public_key;
    assert!(m.try_bootstrap_step(&[3, 1, 0], &"1.1.1.1:1".to_string()).is_none());
    assert_eq!(m.public_key, before);
    assert!(m.peers.buckets().is_empty());
    assert!(matches!(m.try_bootstrap_step(&[9], &"1.1.1.1:1".to_string()), Some(Bootstrap::Ignore)));
}

#[test]
fn refresh_pings_every_peer_and_forgets_them() {
    let mut n = Network::configure(Route::Validation);
    let k1 = fides::x25519::public_key(&fides::x25519::private_key());
    n.bootstrap_step(&hello(4, 2, &k1), &"4.4.4.4:4".to_string());
    let out = n.refresh();
    assert_eq!(out, vec![(hello(3, 2, &n.public_key), "4.4.4.4:4".to_string())]);
    assert!(n.peers.buckets().is_empty());
}

#[test]
fn connection_seals_for_each_peer() {
    let my_private = fides::x25519::private_key();
    let my_public = fides::x25519::public_key(&my_private);
    let their_private = fides::x25519::private_key();
    let their_public = fides::x25519::public_key(&their_private);
    let mut peer = Peer::new();
    peer.address = "3.3.3.3:3".to_string();
    peer.public_key = their_public;
    peer.shared_key = fides::x25519::shared_key(&my_private, &their_public);
    let mut peers: Table<Peer> = Table::new();
    peers.put("1".to_string(), 1, peer.clone());
    let c = Connection { public_key: my_public, route: Route::Peer, peers };
    let m = Message::new(b"hi", &Chain::Main, &Topic::Block).unwrap();
    let t = std::time::SystemTime::now().duration_since(std::time::UNIX_EPOCH).unwrap().as_secs();
    let out = c.broadcast(m.clone(), t);
    assert_eq!(out.len(), 1);
    assert_eq!(out[0].1, "3.3.3.3:3");
    let e = Envelope::from_bytes(&out[0].0).unwrap();
    assert_eq!(e.kind, Kind::Encrypted);
    assert_eq!(e.sender, my_public);
    let their_shared = fides::x25519::shared_key(&their_private, &my_public);
    let plain = fides::chacha20poly1305::decrypt(&their_shared, &e.message).unwrap();
    assert_eq!(plain, m.to_bytes());
    let (bytes, to) = c.send(m, peer, t).unwrap();
    assert_eq!(to, "3.3.3.3:3");
    assert!(Envelope::from_bytes(&bytes).is_ok());
}
