use pulsar_network::{Envelope, Error, Kind, Natural, Route};

#[test]
fn new_envelope_reads_back() {
    let key = [7u8; 32];
    let e = Envelope::new(Kind::PingRequest, b"hello", &key, &Route::Validation).unwrap();
    assert_eq!(e.hash()[0], 0);
    assert!(Envelope::readable(&e.to_bytes()));
    let back = Envelope::from_bytes(&e.to_bytes()).unwrap();
    assert_eq!(back.kind, Kind::PingRequest);
    assert_eq!(back.message, b"hello".to_vec());
    assert_eq!(back.route, Route::Validation);
    assert_eq!(back.sender, key);
    assert_eq!(back.nonce.bits(), e.nonce.bits());
    assert_eq!(back.time.bits(), e.time.bits());
}

#[test]
fn envelope_freshness_is_a_day() {
    let t = 1_700_000_000u64;
    let e = Envelope::new_at(Kind::Encrypted, &[1, 2], &[1u8; 32], &Route::Peer, t);
    let bytes = e.to_bytes();
    assert!(Envelope::from_bytes_at(&bytes, t).is_ok());
    assert!(Envelope::from_bytes_at(&bytes, t + 86399).is_ok());
    assert_eq!(Envelope::from_bytes_at(&bytes, t + 86400).unwrap_err(), Error::TooOld);
    assert_eq!(Envelope::from_bytes_at(&bytes, t - 1).unwrap_err(), Error::TooOld);
}

#[test]
fn route_is_not_hashed() {
    let t = 1_700_000_000u64;
    let e = Envelope::new_at(Kind::JoinRequest, b"r", &[3u8; 32], &Route::Peer, t);
    let mut f = e.clone();
    f.route = Route::Validation;
    assert_eq!(e.hash(), f.hash());
    assert!(Envelope::from_bytes_at(&f.to_bytes(), t).is_ok());
}

#[test]
fn envelope_that_misses_the_difficulty_is_too_easy() {
    let t = 1_700_000_000u64;
    let mut e = Envelope::new_at(Kind::JoinResponse, b"j", &[4u8; 32], &Route::Peer, t);
    while e.hash()[0] == 0 {
        e.nonce = e.nonce.add(&Natural::one());
    }
    assert_eq!(Envelope::from_bytes_at(&e.to_bytes(), t).unwrap_err(), Error::TooEasy);
}

#[test]
fn envelope_reading_errors() {
    assert_eq!(Envelope::from_bytes_at(&[20, 20], 0).unwrap_err(), Error::Decode);
    let five: Vec<&[u8]> = vec![&[1], &[], &[0], &[1], &[0; 32]];
    assert_eq!(Envelope::from_bytes_at(&astro_format::arrays::encode(&five), 0).unwrap_err(), Error::FieldCount);
    let bad_kind: Vec<&[u8]> = vec![&[9], &[], &[0], &[1], &[0; 32], &[0]];
    assert_eq!(Envelope::from_bytes_at(&astro_format::arrays::encode(&bad_kind), 0).unwrap_err(), Error::UnknownKind);
    let bad_route: Vec<&[u8]> = vec![&[1], &[], &[0], &[3], &[0; 31], &[0]];
    assert_eq!(Envelope::from_bytes_at(&astro_format::arrays::encode(&bad_route), 0).unwrap_err(), Error::UnknownRoute);
    let short_key: Vec<&[u8]> = vec![&[1], &[], &[0], &[1], &[0; 31], &[0]];
    assert_eq!(Envelope::from_bytes_at(&astro_format::arrays::encode(&short_key), 0).unwrap_err(), Error::SenderLength);
}

#[test]
fn reading_now_reports_field_errors_before_the_clock() {
    assert_eq!(Envelope::from_bytes(&[20, 20]).unwrap_err(), Error::Decode);
    let five: Vec<&[u8]> = vec![&[1], &[], &[0], &[1], &[0; 32]];
    assert_eq!(Envelope::from_bytes(&astro_format::arrays::encode(&five)).unwrap_err(), Error::FieldCount);
    let short_key: Vec<&[u8]> = vec![&[1], &[], &[0], &[1], &[0; 31], &[0]];
    assert_eq!(Envelope::from_bytes(&astro_format::arrays::encode(&short_key)).unwrap_err(), Error::SenderLength);
    let old = Envelope::new_at(Kind::PingResponse, b"p", &[2u8; 32], &Route::Peer, 1_000_000);
    assert_eq!(Envelope::from_bytes(&old.to_bytes()).unwrap_err(), Error::TooOld);
}

#[test]
fn unreadable_envelopes_are_found() {
    let empty_kind: Vec<&[u8]> = vec![&[], &[], &[0], &[1], &[0; 32], &[0]];
    assert!(!Envelope::readable(&astro_format::arrays::encode(&empty_kind)));
    let empty_route: Vec<&[u8]> = vec![&[2], &[], &[0], &[], &[0; 32], &[0]];
    assert!(!Envelope::readable(&astro_format::arrays::encode(&empty_route)));
    assert!(!Envelope::readable(&[9, 0, 1]));
}

#[test]
fn hash_does_not_cover_the_time() {
    let t = 1_700_000_000u64;
    let e = Envelope::new_at(Kind::PingResponse, b"p", &[2u8; 32], &Route::Peer, t);
    let mut later = e.clone();
    later.time = Natural::from_u64(t + 1000);
    assert_eq!(later.hash(), e.hash());
    assert!(Envelope::from_bytes_at(&later.to_bytes(), t + 1000).is_ok());
}
