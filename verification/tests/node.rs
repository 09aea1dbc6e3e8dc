use pulsar_network::client::{listen_port, refresh_due, Incoming, Node};
use pulsar_network::{Chain, Config, Message, Route, Topic};

fn now() -> u64 {
    std::time::SystemTime::now().duration_since(std::time::UNIX_EPOCH).unwrap().as_secs()
}

fn node() -> Node {
    let mut n = Node::new(false, Chain::Test, Route::Peer, "127.0.0.1:50000".to_string(), vec!["1.1.1.1:1".to_string(), "2.2.2.2:2".to_string()]);
    n.peers.put("p".to_string(), 1, "10.0.0.1:1000".to_string());
    n.peers.put("p".to_string(), 2, "10.0.0.2:1000".to_string());
    n.peers.put("q".to_string(), 2, "10.0.0.3:1000".to_string());
    n.validators.put("v".to_string(), 1, "10.0.1.1:1000".to_string());
    n
}

#[test]
fn config_defaults() {
    let c = Config::new();
    assert!(!c.bootstrap);
    assert_eq!(c.chain, Chain::Test);
    assert!(c.seeders.is_empty());
}

#[test]
fn refresh_comes_after_five_minutes() {
    assert!(!refresh_due(0));
    assert!(!refresh_due(300));
    assert!(refresh_due(301));
}

#[test]
fn ports() {
    assert_eq!(listen_port(true), 55555);
    for _ in 0..20 {
        let p = listen_port(false);
        assert!((49152..65535).contains(&p));
    }
}

#[test]
fn broadcast_goes_to_every_address_of_the_route() {
    let n = node();
    let out = n.broadcast(b"tx", &Route::Peer, &Topic::Transaction, now());
    let addrs: Vec<&str> = out.iter().map(|d| d.1.as_str()).collect();
    assert_eq!(addrs, vec!["10.0.0.1:1000", "10.0.0.2:1000", "10.0.0.3:1000"]);
    let m = Message::from_bytes(&out[0].0).unwrap();
    assert_eq!(m.body, b"tx".to_vec());
    assert_eq!(m.topic, Topic::Transaction);
    assert_eq!(m.chain, Chain::Test);
    assert!(out.iter().all(|d| d.0 == out[0].0));
    let v = n.broadcast(b"blk", &Route::Validation, &Topic::Block, now());
    assert_eq!(v.len(), 1);
    assert_eq!(v[0].1, "10.0.1.1:1000");
}

#[test]
fn send_goes_to_one_address() {
    let n = node();
    let (bytes, to) = n.send(&"9.9.9.9:9".to_string(), b"req", &Topic::BlockRequest, now());
    assert_eq!(to, "9.9.9.9:9");
    let m = Message::from_bytes(&bytes).unwrap();
    assert_eq!(m.topic, Topic::BlockRequest);
    assert_eq!(m.valid(), Some(true));
}

#[test]
fn seeding_and_refreshing() {
    let mut n = node();
    let join = n.join_request(now());
    let m = Message::from_bytes(&join).unwrap();
    assert_eq!(m.topic, Topic::JoinRequest);
    assert_eq!(m.body, vec![1]);
    let seeds = n.seed(&join);
    assert_eq!(seeds.iter().map(|d| d.1.clone()).collect::<Vec<_>>(), vec!["1.1.1.1:1", "2.2.2.2:2"]);
    let pings = n.refresh(&join);
    assert_eq!(pings.len(), 4);
    assert_eq!(pings[3].1, "10.0.1.1:1000");
    assert!(n.peers.buckets().is_empty());
    assert!(n.validators.buckets().is_empty());
    let boot = Node::new(true, Chain::Main, Route::Validation, "127.0.0.1:55555".to_string(), vec!["1.1.1.1:1".to_string()]);
    assert!(boot.seed(&join).is_empty());
}

#[test]
fn incoming_delivers_application_topics() {
    let mut n = node();
    for t in [Topic::Block, Topic::BlockRequest, Topic::CancelTransaction, Topic::Transaction] {
        let bytes = Message::new(b"payload", &Chain::Main, &t).unwrap().to_bytes();
        assert!(Node::handles(&bytes));
        match n.incoming(&bytes, &"5.5.5.5:5".to_string(), now()) {
            Incoming::Deliver(m, from) => {
                assert_eq!(m.topic, t);
                assert_eq!(m.body, b"payload".to_vec());
                assert_eq!(from, "5.5.5.5:5");
            },
            _ => panic!("expected a delivery"),
        }
    }
}

#[test]
fn incoming_join_request_is_answered() {
    let mut n = node();
    let bytes = Message::new(&[2], &Chain::Main, &Topic::JoinRequest).unwrap().to_bytes();
    match n.incoming(&bytes, &"5.5.5.5:5".to_string(), now()) {
        Incoming::Send(v) => {
            assert_eq!(v.len(), 4);
            assert!(v.iter().all(|d| d.1 == "5.5.5.5:5"));
            let ping = Message::from_bytes(&v[0].0).unwrap();
            assert_eq!(ping.topic, Topic::PingResponse);
            assert_eq!(ping.body, vec![2]);
            assert_eq!(ping.chain, Chain::Test);
            let first = Message::from_bytes(&v[1].0).unwrap();
            assert_eq!(first.topic, Topic::JoinResponse);
            assert_eq!(first.body, b"10.0.0.1:1000".to_vec());
            let validator = Message::from_bytes(&v[2].0).unwrap();
            assert_eq!(validator.body, b"10.0.1.1:1000".to_vec());
            let asker = Message::from_bytes(&v[3].0).unwrap();
            assert_eq!(asker.body, b"5.5.5.5:5".to_vec());
        },
        _ => panic!("expected replies"),
    }
    assert_eq!(n.peers.buckets().len(), 2);
    assert_eq!(n.validators.buckets().len(), 2);
    let filed = &n.validators.buckets()[1];
    assert!(filed.0.starts_with("b'"));
    assert_eq!(filed.1, vec![(1u8, "5.5.5.5:5".to_string())]);
}

#[test]
fn incoming_join_request_with_unknown_route_is_ignored() {
    let mut n = node();
    let bytes = Message::new(&[7], &Chain::Main, &Topic::JoinRequest).unwrap().to_bytes();
    assert!(matches!(n.incoming(&bytes, &"5.5.5.5:5".to_string(), now()), Incoming::Ignore));
}

#[test]
fn incoming_join_response_names_an_address() {
    let mut n = node();
    let bytes = Message::new(b"3.3.3.3:3", &Chain::Main, &Topic::JoinResponse).unwrap().to_bytes();
    match n.incoming(&bytes, &"5.5.5.5:5".to_string(), now()) {
        Incoming::PingAddress(b, a) => {
            assert_eq!(a, "3.3.3.3:3");
            let m = Message::from_bytes(&b).unwrap();
            assert_eq!(m.topic, Topic::PingRequest);
            assert_eq!(m.body, vec![1]);
        },
        _ => panic!("expected a ping"),
    }
    let not_text = Message::new(&[0xff, 0xfe], &Chain::Main, &Topic::JoinResponse).unwrap().to_bytes();
    assert!(matches!(n.incoming(&not_text, &"5.5.5.5:5".to_string(), now()), Incoming::Ignore));
}

#[test]
fn incoming_pings() {
    let mut n = node();
    let req = Message::new(&[1], &Chain::Main, &Topic::PingRequest).unwrap().to_bytes();
    match n.incoming(&req, &"5.5.5.5:5".to_string(), now()) {
        Incoming::Send(v) => {
            assert_eq!(v.len(), 1);
            assert_eq!(v[0].1, "5.5.5.5:5");
            let m = Message::from_bytes(&v[0].0).unwrap();
            assert_eq!(m.topic, Topic::PingResponse);
            assert_eq!(m.body, vec![1]);
        },
        _ => panic!("expected a ping response"),
    }
    assert_eq!(n.peers.buckets().len(), 3);
    assert_eq!(n.peers.buckets()[2].1, vec![(1u8, "5.5.5.5:5".to_string())]);
    let resp = Message::new(&[2], &Chain::Main, &Topic::PingResponse).unwrap().to_bytes();
    assert!(matches!(n.incoming(&resp, &"5.5.5.5:5".to_string(), now()), Incoming::Ignore));
    assert_eq!(n.validators.buckets().len(), 2);
    assert_eq!(n.validators.buckets()[1].1, vec![(1u8, "5.5.5.5:5".to_string())]);
}

#[test]
fn listening_starts_with_a_join_request_to_the_seeders() {
    let n = node();
    let (ping, seeding) = n.listen(now());
    let m = Message::from_bytes(&ping).unwrap();
    assert_eq!(m.topic, Topic::JoinRequest);
    assert_eq!(m.body, vec![1]);
    assert_eq!(seeding, vec![(ping.clone(), "1.1.1.1:1".to_string()), (ping.clone(), "2.2.2.2:2".to_string())]);
    let boot = Node::new(true, Chain::Main, Route::Validation, "127.0.0.1:55555".to_string(), vec!["1.1.1.1:1".to_string()]);
    assert!(boot.listen(now()).1.is_empty());
}

#[test]
fn incoming_garbage_is_ignored_and_panicking_input_is_found() {
    let mut n = node();
    assert!(Node::handles(&[20, 20]));
    assert!(matches!(n.incoming(&[20, 20], &"5.5.5.5:5".to_string(), now()), Incoming::Ignore));
    let empty_route = Message::new(&[], &Chain::Main, &Topic::PingRequest).unwrap().to_bytes();
    assert!(!Node::handles(&empty_route));
    assert!(!Node::handles(&[5, 0, 1]));
    let empty_block = Message::new(&[], &Chain::Main, &Topic::Block).unwrap().to_bytes();
    assert!(Node::handles(&empty_block));
}
