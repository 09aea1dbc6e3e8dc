use pulsar_network::client::{add_peer as file_source, nearest_peer};
use pulsar_network::peers::{add_peer, bits_of_bytes};
use pulsar_network::{Peer, Table};

fn keys_of<V>(t: &Table<V>) -> Vec<String> {
    t.buckets().iter().map(|b| b.0.clone()).collect()
}

#[test]
fn table_put_and_get() {
    let mut t: Table<String> = Table::new();
    assert!(t.get(&"k".to_string()).is_none());
    t.put("k".to_string(), 1, "a".to_string());
    t.put("k".to_string(), 2, "b".to_string());
    t.put("k".to_string(), 1, "c".to_string());
    t.put("j".to_string(), 1, "d".to_string());
    let k = t.get(&"k".to_string()).unwrap();
    assert_eq!(k, &vec![(1u8, "c".to_string()), (2u8, "b".to_string())]);
    assert_eq!(keys_of(&t), vec!["k".to_string(), "j".to_string()]);
    t.clear();
    assert!(t.buckets().is_empty());
}

#[test]
fn bits_of_bytes_are_big_endian() {
    assert_eq!(bits_of_bytes(&[0x80, 0x01]), {
        let mut v = vec![true];
        v.extend(vec![false; 14]);
        v.push(true);
        v
    });
}

#[test]
fn peers_are_filed_under_the_first_differing_prefix() {
    let mut table: Table<(String, [u8; 32])> = Table::new();
    let private_key = fides::x25519::private_key();
    let node = [0u8; 32];
    let mut peer_key = [0u8; 32];
    peer_key[0] = 0b0010_0000;
    add_peer(&mut table, private_key, node, "10.0.0.1:1".to_string(), peer_key);
    assert_eq!(keys_of(&table), vec!["001".to_string()]);
    let bucket = table.get(&"001".to_string()).unwrap();
    assert_eq!(bucket.len(), 1);
    assert_eq!(bucket[0].0, 1);
    assert_eq!(bucket[0].1 .0, "10.0.0.1:1");
    assert_eq!(bucket[0].1 .1, fides::x25519::shared_key(&private_key, &peer_key));
}

#[test]
fn a_bucket_keeps_only_its_latest_peer() {
    let mut table: Table<(String, [u8; 32])> = Table::new();
    let private_key = [9u8; 32];
    let node = [0u8; 32];
    let mut a = [0u8; 32];
    a[0] = 0x80;
    let mut b = [0u8; 32];
    b[0] = 0x81;
    add_peer(&mut table, private_key, node, "a".to_string(), a);
    add_peer(&mut table, private_key, node, "b".to_string(), b);
    assert_eq!(keys_of(&table), vec!["1".to_string()]);
    let bucket = table.get(&"1".to_string()).unwrap();
    assert_eq!(bucket.len(), 1);
    assert_eq!(bucket[0].1 .0, "b");
}

#[test]
fn same_key_is_never_filed() {
    let mut table: Table<(String, [u8; 32])> = Table::new();
    add_peer(&mut table, [1u8; 32], [5u8; 32], "self".to_string(), [5u8; 32]);
    assert!(table.buckets().is_empty());
}

#[test]
fn peer_add_peer_uses_binary_keys() {
    let mut table: Table<Peer> = Table::new();
    let mut me = [0u8; 32];
    me[0] = 0xF0;
    let mut p = Peer::new();
    p.public_key = [0u8; 32];
    p.public_key[0] = 0xC0;
    p.add_peer(&mut table, me);
    assert_eq!(keys_of(&table), vec!["b'110".to_string()]);
}

#[test]
fn peer_filing_is_tried_only_where_the_walk_stays_in_bounds() {
    let mut table: Table<Peer> = Table::new();
    let mut me = [0u8; 32];
    me[0] = 0xF0;
    let mut p = Peer::new();
    p.public_key[0] = 0xC0;
    assert!(p.try_add_peer(&mut table, me));
    assert_eq!(keys_of(&table), vec!["b'110".to_string()]);
    let mut short = [0u8; 32];
    short[1] = 0x01;
    let mut q = Peer::new();
    q.public_key[0] = 0x80;
    assert!(!q.try_add_peer(&mut table, short));
    assert_eq!(keys_of(&table), vec!["b'110".to_string()]);
}

#[test]
fn placeholder_peer() {
    let p = Peer::new();
    assert_eq!(p.address, "127.0.0.1:8080");
    assert_eq!(p.public_key, [0u8; 32]);
    assert_eq!(p.shared_key, [0u8; 32]);
}

fn address_bits(a: &str) -> Vec<bool> {
    let h = fides::hash(a.as_bytes());
    let mut bits: Vec<bool> = h.iter().flat_map(|b| (0..8).rev().map(move |i| (b >> i) & 1 == 1)).collect();
    while bits.len() > 1 && !bits[0] {
        bits.remove(0);
    }
    while bits.len() < 256 {
        bits.insert(0, bits[0]);
    }
    bits
}

fn expected_key(own: &str, source: &str) -> String {
    let a = address_bits(own);
    let b = address_bits(source);
    let i = (0..256).find(|&i| a[i] != b[i]).unwrap();
    let mut k = "b'".to_string();
    for x in &b[..=i] {
        k.push(if *x { '1' } else { '0' });
    }
    k
}

#[test]
fn client_files_the_source_by_the_first_differing_bit() {
    let own = "127.0.0.1:50000".to_string();
    let source = "10.0.0.7:4000".to_string();
    let mut t: Table<String> = Table::new();
    t.put("x".to_string(), 1, "1.2.3.4:5".to_string());
    file_source(&mut t, &own, &source);
    let key = expected_key(&own, &source);
    assert_eq!(keys_of(&t), vec!["x".to_string(), key.clone()]);
    assert_eq!(t.get(&key).unwrap(), &vec![(1u8, source.clone())]);
    let other = "10.0.0.8:4000".to_string();
    file_source(&mut t, &own, &other);
    assert!(t.buckets().iter().all(|b| b.1.len() <= 32));
    assert!(t.buckets().iter().any(|b| b.1.iter().any(|e| e.1 == other)));
    let mut same: Table<String> = Table::new();
    file_source(&mut same, &own, &own);
    assert!(same.buckets().is_empty());
}

#[test]
fn nearest_peer_is_by_exclusive_or() {
    let mut table: Table<Peer> = Table::new();
    let mk = |first: u8, addr: &str| {
        let mut p = Peer::new();
        p.public_key[0] = first;
        p.address = addr.to_string();
        p
    };
    table.put("a".to_string(), 1, mk(0x80, "far"));
    table.put("b".to_string(), 1, mk(0x11, "near"));
    table.put("c".to_string(), 1, mk(0x12, "tie"));
    table.put("c".to_string(), 2, mk(0x11, "later"));
    let mut key = [0u8; 32];
    key[0] = 0x10;
    let n = nearest_peer(&key, &table);
    assert_eq!(n.address, "near");
}
