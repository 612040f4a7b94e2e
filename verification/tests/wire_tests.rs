use cw_sdk::record::{split_tail, join_tail};
use cw_sdk::node_key::NodeKey;
use cw_sdk::bytes_util::{u64_to_be, u64_from_be, u16_to_be, u16_from_be, lex_cmp_bytes};
use cw_sdk::codec::{u128_to_dec, from_hex};
use cw_sdk::execute::to_hex;
use cw_sdk::store::Store;
use cw_sdk::commit::VersionedStore;

#[test]
fn spliting_tail() {
    let key = b"foobar";
    let value = b"fuzzbuzz";

    let mut data = Vec::with_capacity(key.len() + value.len() + 2);
    data.extend_from_slice(key);
    data.extend_from_slice(value);
    data.extend_from_slice(&(key.len() as u16).to_be_bytes());

    assert_eq!((key.to_vec(), value.to_vec()), split_tail(data))
}

#[test]
fn join_then_split_recovers_the_pair() {
    let key = b"a-key".to_vec();
    let value = b"the value".to_vec();
    let data = join_tail(&key, &value);
    let (k2, v2) = split_tail(data);
    assert_eq!(k2, key);
    assert_eq!(v2, value);
}

#[test]
fn join_tail_layout_is_key_value_len16() {
    let data = join_tail(&b"ab".to_vec(), &b"xyz".to_vec());
    assert_eq!(data, vec![b'a', b'b', b'x', b'y', b'z', 0, 2]);
}

#[test]
fn node_key_round_trip() {
    let root = NodeKey::root(7);
    let bytes = root.raw_keys();
    // 8 bytes of version, 2 bytes of bit count, no path bytes
    assert_eq!(bytes, vec![0, 0, 0, 0, 0, 0, 0, 7, 0, 0]);
    let back = NodeKey::deserialize(&bytes).expect("the wire form parses");
    assert_eq!(back.version, 7);
    assert_eq!(back.bits.num_bits, 0);
}

#[test]
fn node_key_with_path_round_trip() {
    let mut k = NodeKey::root(3);
    k.bits.num_bits = 10;
    k.bits.bytes[0] = 0xff;
    k.bits.bytes[1] = 0xc0;
    let bytes = k.raw_keys();
    assert_eq!(bytes, vec![0, 0, 0, 0, 0, 0, 0, 3, 0, 10, 0xff, 0xc0]);
    let back = NodeKey::deserialize(&bytes).expect("the wire form parses");
    assert_eq!(back.version, 3);
    assert_eq!(back.bits.num_bits, 10);
    assert_eq!(back.bits.bytes[0], 0xff);
    assert_eq!(back.bits.bytes[1], 0xc0);
}

#[test]
fn node_key_rejects_malformed() {
    assert!(NodeKey::deserialize(&vec![1, 2, 3]).is_none());
    // bit count says two path bytes, but three are present
    assert!(NodeKey::deserialize(&vec![0, 0, 0, 0, 0, 0, 0, 1, 0, 9, 1, 2, 3]).is_none());
}

#[test]
fn big_endian_round_trips() {
    let bytes = u64_to_be(0x0102030405060708);
    assert_eq!(bytes, vec![1, 2, 3, 4, 5, 6, 7, 8]);
    assert_eq!(u64_from_be(&bytes), 0x0102030405060708);
    assert_eq!(u16_to_be(0xabcd), vec![0xab, 0xcd]);
    assert_eq!(u16_from_be(0xab, 0xcd), 0xabcd);
}

#[test]
fn decimal_and_hex_forms() {
    assert_eq!(u128_to_dec(0), b"0".to_vec());
    assert_eq!(u128_to_dec(105), b"105".to_vec());
    assert_eq!(u128_to_dec(340282366920938463463374607431768211455), b"340282366920938463463374607431768211455".to_vec());
    assert_eq!(to_hex(&vec![0x00, 0xab, 0x1f]), b"00ab1f".to_vec());
    assert_eq!(from_hex(&b"00ab1f".to_vec()), Some(vec![0x00, 0xab, 0x1f]));
    assert_eq!(from_hex(&b"0g".to_vec()), None);
    assert_eq!(from_hex(&b"abc".to_vec()), None);
}

#[test]
fn lex_compare_orders_keys() {
    assert_eq!(lex_cmp_bytes(&b"abc".to_vec(), &b"abd".to_vec()), -1);
    assert_eq!(lex_cmp_bytes(&b"abc".to_vec(), &b"abc".to_vec()), 0);
    assert_eq!(lex_cmp_bytes(&b"abcd".to_vec(), &b"abc".to_vec()), 1);
}

#[test]
fn store_read_write_remove() {
    let mut s = Store::new();
    s.write(&b"k1".to_vec(), &b"v1".to_vec());
    s.write(&b"k2".to_vec(), &b"v2".to_vec());
    s.write(&b"k1".to_vec(), &b"v1b".to_vec());
    assert_eq!(s.read(&b"k1".to_vec()), Some(b"v1b".to_vec()));
    assert_eq!(s.read(&b"k2".to_vec()), Some(b"v2".to_vec()));
    assert_eq!(s.read(&b"k3".to_vec()), None);
    s.remove(&b"k1".to_vec());
    assert_eq!(s.read(&b"k1".to_vec()), None);
    assert_eq!(s.read(&b"k2".to_vec()), Some(b"v2".to_vec()));
}

#[test]
fn versions_stay_queryable() {
    let mut vs = VersionedStore::new();
    let (_root0, v0) = vs.commit(&vec![(b"a".to_vec(), Some(b"1".to_vec()))]);
    let (_root1, v1) = vs.commit(&vec![
        (b"a".to_vec(), Some(b"2".to_vec())),
        (b"b".to_vec(), Some(b"9".to_vec())),
    ]);
    let (_root2, v2) = vs.commit(&vec![(b"a".to_vec(), None)]);
    assert_eq!((v0, v1, v2), (0, 1, 2));
    // each version returns exactly the state as of its commit
    assert_eq!(vs.query_at(v0, &b"a".to_vec()), Some(b"1".to_vec()));
    assert_eq!(vs.query_at(v0, &b"b".to_vec()), None);
    assert_eq!(vs.query_at(v1, &b"a".to_vec()), Some(b"2".to_vec()));
    assert_eq!(vs.query_at(v1, &b"b".to_vec()), Some(b"9".to_vec()));
    assert_eq!(vs.query_at(v2, &b"a".to_vec()), None);
    assert_eq!(vs.query_at(v2, &b"b".to_vec()), Some(b"9".to_vec()));
}

#[test]
fn root_depends_only_on_the_live_set() {
    // two independent write orders reaching the same live set
    let mut vs1 = VersionedStore::new();
    let (root1, _) = vs1.commit(&vec![
        (b"x".to_vec(), Some(b"1".to_vec())),
        (b"y".to_vec(), Some(b"2".to_vec())),
        (b"z".to_vec(), Some(b"3".to_vec())),
        (b"z".to_vec(), None),
    ]);
    let mut vs2 = VersionedStore::new();
    let (_r, _) = vs2.commit(&vec![(b"y".to_vec(), Some(b"0".to_vec()))]);
    let (root2, _) = vs2.commit(&vec![
        (b"y".to_vec(), Some(b"2".to_vec())),
        (b"x".to_vec(), Some(b"1".to_vec())),
    ]);
    assert_eq!(root1, root2);
    // a different live set gives a different root
    let mut vs3 = VersionedStore::new();
    let (root3, _) = vs3.commit(&vec![(b"x".to_vec(), Some(b"1".to_vec()))]);
    assert_ne!(root1, root3);
}
