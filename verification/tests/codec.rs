use leak::Leak;

#[test]
fn decode_then_leak_round_trips_text() {
    let encoded = serde_json::to_string("hello").unwrap();
    let owned: String = serde_json::from_str(&encoded).unwrap();
    let l = Leak::from_string(owned);
    assert_eq!(l.as_str(), "hello");
    let re_encoded = serde_json::to_string(l.as_str()).unwrap();
    assert_eq!(re_encoded, encoded);
}

#[test]
fn decode_then_leak_round_trips_bytes() {
    let original: Vec<u8> = vec![0, 1, 2, 255];
    let encoded = serde_json::to_string(&original).unwrap();
    let owned: Vec<u8> = serde_json::from_str(&encoded).unwrap();
    let l: Leak<[u8]> = Leak::from_vec(owned);
    assert_eq!(l.get(), original.as_slice());
    let re_encoded = serde_json::to_string(l.get()).unwrap();
    assert_eq!(re_encoded, encoded);
}

#[test]
fn decode_then_leak_round_trips_scalars() {
    let encoded = serde_json::to_string(&42u64).unwrap();
    let owned: u64 = serde_json::from_str(&encoded).unwrap();
    let l = Leak::new(owned);
    assert_eq!(*l.get(), 42u64);
    assert_eq!(serde_json::to_string(l.get()).unwrap(), encoded);

    let encoded_unit = serde_json::to_string(&()).unwrap();
    let owned_unit: () = serde_json::from_str(&encoded_unit).unwrap();
    let l = Leak::new(owned_unit);
    assert_eq!(*l.get(), ());
    assert_eq!(serde_json::to_string(l.get()).unwrap(), encoded_unit);
}

#[test]
fn decode_failure_is_surfaced() {
    let bad: Result<u64, serde_json::Error> = serde_json::from_str("\"not a number\"");
    assert!(bad.is_err());
}
