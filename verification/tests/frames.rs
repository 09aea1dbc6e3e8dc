use pulsar_network::list_overruns;

#[test]
fn list_encoding_matches_the_format() {
    let items: Vec<&[u8]> = vec![&[1, 2, 3], &[], &[7]];
    let bytes = astro_format::arrays::encode(&items);
    assert_eq!(bytes, vec![3, 0, 1, 2, 3, 0, 0, 1, 0, 7]);
    assert!(!list_overruns(&bytes));
}

#[test]
fn overrunning_lengths_are_found() {
    assert!(list_overruns(&[5, 0, 1]));
    assert!(list_overruns(&[1, 0, 7, 2, 0, 1]));
    assert!(!list_overruns(&[20, 20]));
    assert!(!list_overruns(&[]));
    assert!(!list_overruns(&[0]));
    assert!(!list_overruns(&[0, 1]));
}
