use pulsar_network::{Chain, Error, Kind, Route, Topic};

#[test]
fn chain_bytes_round_trip() {
    for c in [Chain::Main, Chain::Test] {
        assert_eq!(Chain::from_bytes(&c.to_bytes()), Ok(c));
    }
    assert_eq!(Chain::Main.to_bytes(), vec![1]);
    assert_eq!(Chain::Test.to_bytes(), vec![2]);
}

#[test]
fn chain_reads_only_the_first_byte() {
    assert_eq!(Chain::from_bytes(&[2, 9, 9]), Ok(Chain::Test));
    assert_eq!(Chain::from_bytes(&[0]), Err(Error::UnknownChain));
    assert_eq!(Chain::from_bytes(&[3]), Err(Error::UnknownChain));
}

#[test]
fn route_bytes_round_trip() {
    for r in [Route::Peer, Route::Validation] {
        assert_eq!(Route::from_bytes(&r.to_bytes()), Ok(r));
        assert_eq!(Route::from_byte(r.to_bytes()[0]), Ok(r));
    }
    assert_eq!(Route::Peer.to_bytes(), vec![1]);
    assert_eq!(Route::Validation.to_bytes(), vec![2]);
    assert_eq!(Route::from_bytes(&[7]), Err(Error::UnknownRoute));
    assert_eq!(Route::from_byte(0), Err(Error::UnknownRoute));
}

#[test]
fn topic_bytes_round_trip() {
    let all = [
        Topic::Block,
        Topic::BlockRequest,
        Topic::CancelTransaction,
        Topic::JoinRequest,
        Topic::JoinResponse,
        Topic::PingRequest,
        Topic::PingResponse,
        Topic::Transaction,
    ];
    for (i, t) in all.iter().enumerate() {
        assert_eq!(t.to_bytes(), vec![(i + 1) as u8]);
        assert_eq!(Topic::from_bytes(&t.to_bytes()), Ok(*t));
    }
    assert_eq!(Topic::from_bytes(&[9]), Err(Error::UnknownTopic));
    assert_eq!(Topic::from_bytes(&[0, 1]), Err(Error::UnknownTopic));
}

#[test]
fn kind_bytes_round_trip() {
    let all = [Kind::JoinRequest, Kind::JoinResponse, Kind::PingRequest, Kind::PingResponse, Kind::Encrypted];
    for (i, k) in all.iter().enumerate() {
        assert_eq!(k.to_bytes(), vec![(i + 1) as u8]);
        assert_eq!(Kind::from_bytes(&k.to_bytes()), Ok(*k));
    }
    assert_eq!(Kind::from_bytes(&[6]), Err(Error::UnknownKind));
}
