use wordsort::records::{decode_records, encode_records, read_next_record};

fn words(v: &[&str]) -> Vec<Vec<u8>> {
    v.iter().map(|s| s.as_bytes().to_vec()).collect()
}

#[test]
fn encode_exact_bytes() {
    let e = encode_records(&words(&["ab", "c"])).unwrap();
    assert_eq!(e, vec![2, 0, 0, 0, b'a', b'b', 1, 0, 0, 0, b'c']);
}

#[test]
fn encode_long_length_is_little_endian() {
    let w = vec![b'x'; 258];
    let e = encode_records(&vec![w.clone()]).unwrap();
    assert_eq!(&e[..4], &[2, 1, 0, 0]);
    assert_eq!(&e[4..], &w[..]);
}

#[test]
fn encode_empty_list() {
    assert_eq!(encode_records(&Vec::new()).unwrap(), Vec::<u8>::new());
}

#[test]
fn decode_round_trip() {
    let ws = words(&["alpha", "", "beta", "gamma"]);
    let e = encode_records(&ws).unwrap();
    assert_eq!(decode_records(&e), ws);
}

#[test]
fn read_next_record_steps_and_stops() {
    let e = encode_records(&words(&["hi", "there"])).unwrap();
    let mut pos = 0usize;
    assert_eq!(read_next_record(&e, &mut pos), Some(b"hi".to_vec()));
    assert_eq!(pos, 6);
    assert_eq!(read_next_record(&e, &mut pos), Some(b"there".to_vec()));
    assert_eq!(pos, e.len());
    assert_eq!(read_next_record(&e, &mut pos), None);
    assert_eq!(pos, e.len());
}

#[test]
fn read_next_record_truncated_word() {
    let buf = vec![5, 0, 0, 0, b'a', b'b'];
    let mut pos = 0usize;
    assert_eq!(read_next_record(&buf, &mut pos), None);
    assert_eq!(pos, 4);
    assert!(decode_records(&buf).is_empty());
}

#[test]
fn decode_stops_at_partial_record() {
    let mut e = encode_records(&words(&["one", "two"])).unwrap();
    e.extend_from_slice(&[9, 0]);
    assert_eq!(decode_records(&e), words(&["one", "two"]));
}
