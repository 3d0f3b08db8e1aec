use aos_kernel::cell_index::{CellIndex, CellMeta, CellNode};
use aos_kernel::hash::ContentHash;
use aos_kernel::store::{MemStore, StoreError};

fn cell(n: u32) -> CellMeta {
    let key = n.to_be_bytes().to_vec();
    CellMeta {
        key_hash: *ContentHash::of_bytes(&key).as_bytes(),
        key_bytes: key,
        state_hash: [n as u8; 32],
        size: n as u64,
        last_active_ns: 7,
    }
}

#[test]
fn an_upserted_cell_is_read() {
    let mut store = MemStore::new();
    let mut root = CellIndex::empty(&mut store).unwrap();
    assert!(CellIndex::get(&store, root, &cell(1).key_hash)
        .unwrap()
        .is_none());
    for n in 0..200 {
        root = CellIndex::upsert(&mut store, root, cell(n)).unwrap();
    }
    for n in 0..200 {
        let got = CellIndex::get(&store, root, &cell(n).key_hash)
            .unwrap()
            .unwrap();
        assert_eq!(got.size, n as u64);
        assert_eq!(got.key_bytes, n.to_be_bytes().to_vec());
    }
    assert_eq!(CellIndex::iter(&store, root).unwrap().len(), 200);
}

#[test]
fn a_second_upsert_replaces_the_first() {
    let mut store = MemStore::new();
    let root = CellIndex::empty(&mut store).unwrap();
    let root = CellIndex::upsert(&mut store, root, cell(3)).unwrap();
    let mut changed = cell(3);
    changed.size = 99;
    let root = CellIndex::upsert(&mut store, root, changed).unwrap();
    let got = CellIndex::get(&store, root, &cell(3).key_hash)
        .unwrap()
        .unwrap();
    assert_eq!(got.size, 99);
    assert_eq!(CellIndex::iter(&store, root).unwrap().len(), 1);
}

#[test]
fn a_deleted_cell_is_gone() {
    let mut store = MemStore::new();
    let mut root = CellIndex::empty(&mut store).unwrap();
    for n in 0..100 {
        root = CellIndex::upsert(&mut store, root, cell(n)).unwrap();
    }
    let (next, removed) = CellIndex::delete(&mut store, root, &cell(5).key_hash).unwrap();
    assert!(removed);
    assert!(CellIndex::get(&store, next, &cell(5).key_hash)
        .unwrap()
        .is_none());
    assert!(CellIndex::get(&store, next, &cell(6).key_hash)
        .unwrap()
        .is_some());
    let (same, removed) = CellIndex::delete(&mut store, next, &cell(5).key_hash).unwrap();
    assert!(!removed);
    assert_eq!(same, next);
}

#[test]
fn an_index_lists_each_of_its_cells_once() {
    let mut store = MemStore::new();
    let mut root = CellIndex::empty(&mut store).unwrap();
    for n in 0..150 {
        root = CellIndex::upsert(&mut store, root, cell(n)).unwrap();
    }
    let listed = CellIndex::iter(&store, root).unwrap();
    let mut sizes: Vec<u64> = listed.iter().map(|m| m.size).collect();
    sizes.sort();
    assert_eq!(sizes, (0..150).collect::<Vec<u64>>());
    for m in &listed {
        let got = CellIndex::get(&store, root, &m.key_hash).unwrap().unwrap();
        assert_eq!(got.size, m.size);
    }
}

#[test]
fn an_index_whose_root_is_missing_gives_the_error_of_the_store() {
    let mut store: MemStore<CellNode> = MemStore::new();
    let root = ContentHash::of_bytes(b"missing");
    let missing = |e: StoreError| matches!(e, StoreError::Io { reason, .. } if reason == "entry not found");
    assert!(missing(CellIndex::get(&store, root, &[0; 32]).unwrap_err()));
    assert!(missing(CellIndex::iter(&store, root).unwrap_err()));
    assert!(missing(CellIndex::upsert(&mut store, root, cell(1)).unwrap_err()));
    assert!(missing(CellIndex::delete(&mut store, root, &[0; 32]).unwrap_err()));
}

#[test]
fn an_old_root_still_reads_what_it_did() {
    let mut store = MemStore::new();
    let empty = CellIndex::empty(&mut store).unwrap();
    let first = CellIndex::upsert(&mut store, empty, cell(1)).unwrap();
    let mut changed = cell(1);
    changed.size = 50;
    let second = CellIndex::upsert(&mut store, first, changed).unwrap();
    let (third, _) = CellIndex::delete(&mut store, second, &cell(1).key_hash).unwrap();
    let size = |root| {
        CellIndex::get(&store, root, &cell(1).key_hash)
            .unwrap()
            .map(|m| m.size)
    };
    assert_eq!(size(empty), None);
    assert_eq!(size(first), Some(1));
    assert_eq!(size(second), Some(50));
    assert_eq!(size(third), None);
}

#[test]
fn an_index_whose_last_cell_is_deleted_is_the_empty_one() {
    let mut store = MemStore::new();
    let empty = CellIndex::empty(&mut store).unwrap();
    let mut root = empty;
    for n in 0..40 {
        root = CellIndex::upsert(&mut store, root, cell(n)).unwrap();
    }
    for n in 0..40 {
        let (next, removed) = CellIndex::delete(&mut store, root, &cell(n).key_hash).unwrap();
        assert!(removed);
        root = next;
    }
    assert_eq!(root, empty);
}
