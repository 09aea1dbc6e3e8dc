use pulsar_network::{Chain, Error, Message, Natural, Topic};

fn now() -> u64 {
    std::time::SystemTime::now().duration_since(std::time::UNIX_EPOCH).unwrap().as_secs()
}

#[test]
fn new_message_meets_the_difficulty_and_is_valid() {
    let m = Message::new(b"block bytes", &Chain::Test, &Topic::Block).unwrap();
    assert_eq!(m.body, b"block bytes".to_vec());
    assert_eq!(m.chain, Chain::Test);
    assert_eq!(m.topic, Topic::Block);
    assert_eq!(m.hash()[0], 0);
    assert_eq!(m.valid(), Some(true));
}

#[test]
fn stamped_message_is_valid_at_its_own_time_only_briefly() {
    let t = 1_700_000_000u64;
    let m = Message::new_at(b"tx", &Chain::Main, &Topic::Transaction, t);
    assert_eq!(m.time.to_bytes(), Natural::from_u64(t).to_bytes());
    assert!(m.valid_at(t));
    assert!(m.valid_at(t + 4));
    assert!(!m.valid_at(t + 5));
    assert!(!m.valid_at(t - 1));
}

#[test]
fn nonce_search_starts_at_zero_and_counts_up() {
    let t = 1_650_000_000u64;
    let m = Message::new_at(b"abc", &Chain::Test, &Topic::Block, t);
    let mut probe = Message {
        body: b"abc".to_vec(),
        chain: Chain::Test,
        nonce: Natural::zero(),
        time: Natural::from_u64(t),
        topic: Topic::Block,
    };
    // Every smaller nonce misses the difficulty.
    while probe.nonce.to_bytes() != m.nonce.to_bytes() {
        assert_ne!(probe.hash()[0], 0);
        probe.nonce = probe.nonce.add(&Natural::one());
    }
    assert_eq!(probe.hash(), m.hash());
}

#[test]
fn message_bytes_round_trip() {
    let m = Message::new(&[1, 2, 3, 0, 9], &Chain::Main, &Topic::PingRequest).unwrap();
    let bytes = m.to_bytes();
    assert!(Message::readable(&bytes));
    let back = Message::from_bytes(&bytes).unwrap();
    assert_eq!(back.body, m.body);
    assert_eq!(back.chain, m.chain);
    assert_eq!(back.topic, m.topic);
    assert_eq!(back.nonce.bits(), m.nonce.bits());
    assert_eq!(back.time.bits(), m.time.bits());
    assert_eq!(back.hash(), m.hash());
}

#[test]
fn message_with_empty_body_round_trips() {
    let m = Message::new(&[], &Chain::Test, &Topic::BlockRequest).unwrap();
    let back = Message::from_bytes(&m.to_bytes()).unwrap();
    assert!(back.body.is_empty());
    assert_eq!(back.hash(), m.hash());
}

#[test]
fn body_whose_length_has_a_zero_byte_does_not_come_back() {
    // 256 is written as the length bytes 0 1, which the reader takes for an
    // empty array followed by garbage.
    let m = Message::new_at(&[7u8; 256], &Chain::Test, &Topic::Block, 1_700_000_000);
    assert_eq!(Message::from_bytes(&m.to_bytes()).unwrap_err(), Error::Decode);
}

#[test]
fn message_reading_errors() {
    assert_eq!(Message::from_bytes(&[20, 20]).unwrap_err(), Error::Decode);
    let four: Vec<&[u8]> = vec![&[1], &[1], &[0], &[0]];
    assert_eq!(Message::from_bytes(&astro_format::arrays::encode(&four)).unwrap_err(), Error::FieldCount);
    let bad_chain: Vec<&[u8]> = vec![&[1], &[3], &[0], &[0], &[1]];
    assert_eq!(Message::from_bytes(&astro_format::arrays::encode(&bad_chain)).unwrap_err(), Error::UnknownChain);
    let bad_topic: Vec<&[u8]> = vec![&[1], &[1], &[0], &[0], &[9]];
    assert_eq!(Message::from_bytes(&astro_format::arrays::encode(&bad_topic)).unwrap_err(), Error::UnknownTopic);
    let good: Vec<&[u8]> = vec![&[1], &[2], &[0, 3], &[], &[8]];
    let m = Message::from_bytes(&astro_format::arrays::encode(&good)).unwrap();
    assert_eq!(m.chain, Chain::Test);
    assert_eq!(m.topic, Topic::Transaction);
    assert_eq!(m.nonce.to_bytes(), vec![3]);
    assert!(m.time.bits().is_empty());
}

#[test]
fn unreadable_messages_are_found() {
    assert!(!Message::readable(&[5, 0, 1]));
    let empty_chain: Vec<&[u8]> = vec![&[1], &[], &[0], &[0], &[1]];
    assert!(!Message::readable(&astro_format::arrays::encode(&empty_chain)));
    let empty_topic: Vec<&[u8]> = vec![&[1], &[1], &[0], &[0], &[]];
    assert!(!Message::readable(&astro_format::arrays::encode(&empty_topic)));
    let empty_topic_bad_chain: Vec<&[u8]> = vec![&[1], &[5], &[0], &[0], &[]];
    assert!(Message::readable(&astro_format::arrays::encode(&empty_topic_bad_chain)));
    assert!(Message::readable(&[20, 20]));
}

#[test]
fn old_and_future_messages_are_not_valid() {
    let t = now();
    let old = Message::new_at(b"x", &Chain::Test, &Topic::Block, t - 60);
    assert_eq!(old.valid(), Some(false));
    let future = Message::new_at(b"x", &Chain::Test, &Topic::Block, t + 600);
    assert_eq!(future.valid(), Some(false));
}

#[test]
fn a_message_that_misses_the_difficulty_is_not_valid() {
    let t = 1_700_000_000u64;
    let mut m = Message::new_at(b"difficulty", &Chain::Test, &Topic::Block, t);
    while m.hash()[0] == 0 {
        m.nonce = m.nonce.add(&Natural::one());
    }
    assert!(!m.valid_at(t));
}

#[test]
fn hash_does_not_cover_the_topic() {
    let t = 1_700_000_000u64;
    let m = Message::new_at(b"same", &Chain::Main, &Topic::Block, t);
    let mut other = m.clone();
    other.topic = Topic::CancelTransaction;
    assert_eq!(other.hash(), m.hash());
    assert!(other.valid_at(t));
    let mut moved = m.clone();
    moved.body = b"different".to_vec();
    assert_ne!(moved.hash(), m.hash());
}
