use aos_kernel::air::{AirNode, NodeKind};
use aos_kernel::hash::{ContentHash, HashParseError, HashRef};
use aos_kernel::store::{MemStore, Store, StoreError};

#[test]
fn node_round_trip() {
    let mut store: MemStore<AirNode> = MemStore::new();
    let value = AirNode {
        kind: NodeKind::Schema,
        name: "demo".to_string(),
        binding_id: String::new(),
        bytes: vec![7],
    };
    let hash = store.put_node(&value).expect("put");
    assert!(store.has_node(hash).expect("has"));
    let loaded = store.get_node(hash).expect("get");
    assert_eq!(value.name, loaded.name);
    assert_eq!(value.bytes, loaded.bytes);
    assert_eq!(hash, ContentHash::of_bytes(&[7]));
}

#[test]
fn blob_round_trip() {
    let mut store: MemStore<AirNode> = MemStore::new();
    let bytes = b"hola".to_vec();
    let hash = store.put_blob(&bytes).expect("put");
    assert!(store.has_blob(hash).expect("has"));
    let loaded = store.get_blob(hash).expect("get");
    assert_eq!(bytes, loaded);
}

#[test]
fn what_was_not_put_is_not_found() {
    let store: MemStore<AirNode> = MemStore::new();
    let hash = ContentHash::of_bytes(b"nothing");
    assert!(!store.has_blob(hash).unwrap());
    assert!(matches!(
        store.get_blob(hash).unwrap_err(),
        StoreError::Io { .. }
    ));
    assert!(!store.has_node(hash).unwrap());
}

#[test]
fn digests_are_written_in_hex() {
    let hash = ContentHash::of_bytes(b"");
    assert_eq!(
        hash.to_hex(),
        "sha256:e3b0c44298fc1c149afbf4c8996fb92427ae41e4649b934ca495991b7852b855"
    );
    assert_eq!(ContentHash::from_hex_str(&hash.to_hex()).unwrap(), hash);
    assert!(matches!(
        ContentHash::from_hex_str("e3b0"),
        Err(HashParseError::MissingPrefix)
    ));
    assert!(matches!(
        ContentHash::from_hex_str("sha256:zz"),
        Err(HashParseError::InvalidHex(_))
    ));
    assert!(matches!(
        ContentHash::from_hex_str("sha256:00"),
        Err(HashParseError::InvalidLength(1))
    ));
    assert!(HashRef::new("abc".to_string()).is_err());
    assert_eq!(ContentHash::from_bytes(&[1, 2]), Err(2));
}
