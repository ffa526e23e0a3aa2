use shortest_word_path::inout::{from_read, to_write, VERSION};
use shortest_word_path::{DecodeError, Dict, Error, Neighbours};
use std::collections::{HashMap, HashSet};

#[test]
fn record_round_trip() {
    let payload = vec![1u8, 2, 3, 250, 0];
    let mut out = Vec::new();
    to_write(&mut out, &payload).unwrap();
    assert_eq!(&out[..4], b"swpd");
    assert_eq!(out[4], VERSION);
    assert_eq!(&out[5..9], &[5, 0, 0, 0]);
    assert_eq!(from_read(&out).unwrap(), payload);
    out.extend_from_slice(&[9, 9, 9]);
    assert_eq!(from_read(&out).unwrap(), payload);
}

#[test]
fn empty_payload_round_trip() {
    let mut out = vec![7u8];
    to_write(&mut out, &[]).unwrap();
    assert_eq!(out.len(), 10);
    assert_eq!(from_read(&out[1..]).unwrap(), Vec::<u8>::new());
}

#[test]
fn bad_records_are_refused() {
    let mut out = Vec::new();
    to_write(&mut out, &[1, 2, 3]).unwrap();
    let mut bad_magic = out.clone();
    bad_magic[0] = b'x';
    assert_eq!(from_read(&bad_magic), Err(Error::Decode(DecodeError::BadMagic)));
    let mut bad_version = out.clone();
    bad_version[4] = 2;
    assert_eq!(from_read(&bad_version), Err(Error::Decode(DecodeError::BadVersion(2))));
    assert_eq!(from_read(&out[..out.len() - 1]), Err(Error::Decode(DecodeError::Truncated)));
    assert_eq!(from_read(&out[..7]), Err(Error::Decode(DecodeError::Truncated)));
    assert_eq!(from_read(&out[..2]), Err(Error::Decode(DecodeError::Truncated)));
}

#[test]
fn graph_parts_round_trip() {
    let dict = Dict::create_default().unwrap();
    let neighbours = Neighbours::try_from(&dict).unwrap();
    let edges = neighbours.edges().clone();
    let rebuilt = Neighbours::create(Neighbours::try_from(&dict).unwrap().destructure());
    assert_eq!(rebuilt.edges(), &edges);
    let words = Dict::create_default().unwrap().into_words();
    let again = Dict::from_words(words.clone()).unwrap();
    assert_eq!(again.words(), &words);
}

#[test]
fn stored_graph_is_checked() {
    let dict = Dict::create("aa\nab\nbb").unwrap();
    let good = Neighbours::try_from(&dict).unwrap().destructure();
    let checked = Neighbours::from_edges(&dict, good.clone()).unwrap();
    assert_eq!(checked.edges(), &good);
    assert_eq!(shortest_word_path::a_star(&checked, &dict, 0, 2).unwrap(), vec![2, 1, 0]);

    let one_way = HashMap::from([(0u32, HashSet::from([1u32]))]);
    assert_eq!(
        Neighbours::from_edges(&dict, one_way).err(),
        Some(Error::Decode(DecodeError::BadGraph))
    );
    let too_far = HashMap::from([(0u32, HashSet::from([2u32])), (2u32, HashSet::from([0u32]))]);
    assert_eq!(
        Neighbours::from_edges(&dict, too_far).err(),
        Some(Error::Decode(DecodeError::BadGraph))
    );
    let unknown = HashMap::from([(0u32, HashSet::from([7u32])), (7u32, HashSet::from([0u32]))]);
    assert_eq!(
        Neighbours::from_edges(&dict, unknown).err(),
        Some(Error::Decode(DecodeError::BadGraph))
    );
    assert!(Neighbours::from_edges(&dict, HashMap::new()).is_ok());
}
