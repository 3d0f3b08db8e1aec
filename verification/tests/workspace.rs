use aos_kernel::error::KernelError;
use aos_kernel::hash::{ContentHash, HashRef};
use aos_kernel::store::{MemStore, Store};
use aos_kernel::workspace::handlers::{
    handle_workspace_annotations_get, handle_workspace_annotations_set, handle_workspace_diff,
    handle_workspace_empty_root, handle_workspace_list, handle_workspace_read_bytes,
    handle_workspace_read_ref, handle_workspace_remove, handle_workspace_resolve,
    handle_workspace_write_bytes, slice_bytes, WorkspaceCommitMeta, WorkspaceHistory,
    WorkspaceListParams, WorkspaceReadBytesRange, WorkspaceWriteBytesParams,
};
use aos_kernel::workspace::notes::WorkspaceAnnotationsPatch;
use aos_kernel::workspace::ops::{
    load_tree, remove_entry_at_path, resolve_entry, resolve_file_mode, write_file_at_path,
};
use aos_kernel::workspace::{
    join_path, validate_path, validate_workspace_name, WorkspaceNode, WorkspaceTree,
    MODE_FILE_DEFAULT,
};

fn check_paths() {
    assert_eq!(
        validate_path("src/lib.rs").unwrap(),
        vec!["src".to_string(), "lib.rs".to_string()]
    );
    for bad in ["", "/root", "root/", "root//file", "root/..", "root/./file"] {
        assert!(validate_path(bad).is_err(), "expected error for '{bad}'");
    }
}

#[test]
fn internal_effects_validate_path_rejects_invalid() {
    check_paths();
}

#[test]
fn workspace_validate_path_rejects_invalid() {
    check_paths();
}

fn texts(items: &[&str]) -> Vec<String> {
    items.iter().map(|s| s.to_string()).collect()
}

fn write_and_remove() {
    let mut store: MemStore<WorkspaceNode> = MemStore::new();
    let root = store
        .put_node(&WorkspaceNode::Tree(WorkspaceTree {
            entries: Vec::new(),
            annotations_hash: None,
        }))
        .expect("root tree");
    let content = b"hello".to_vec();
    let blob_hash = store.put_blob(&content).expect("put blob");
    let blob_ref = HashRef::of_hash(&blob_hash);
    let new_root = write_file_at_path(
        &mut store,
        &root,
        &texts(&["dir", "file.txt"]),
        &blob_ref,
        content.len() as u64,
        MODE_FILE_DEFAULT,
    )
    .expect("write file");
    let entry = resolve_entry(&store, &new_root, &texts(&["dir", "file.txt"]))
        .expect("resolve")
        .expect("entry");
    assert_eq!(entry.kind, "file");
    assert_eq!(entry.size, content.len() as u64);
    let err = remove_entry_at_path(&mut store, &new_root, &texts(&["dir"])).unwrap_err();
    assert!(matches!(err, KernelError::Query(_)));
    let root_no_file = remove_entry_at_path(&mut store, &new_root, &texts(&["dir", "file.txt"]))
        .expect("remove file");
    let missing =
        resolve_entry(&store, &root_no_file, &texts(&["dir", "file.txt"])).expect("resolve");
    assert!(missing.is_none());
    let root_no_dir =
        remove_entry_at_path(&mut store, &root_no_file, &texts(&["dir"])).expect("remove dir");
    let tree = load_tree(&store, &root_no_dir).expect("load tree");
    assert!(tree.entries.is_empty());
}

#[test]
fn internal_effects_tree_write_and_remove_roundtrip() {
    write_and_remove();
}

#[test]
fn workspace_tree_write_and_remove_roundtrip() {
    write_and_remove();
}

fn write(store: &mut MemStore<WorkspaceNode>, root: &str, path: &str, bytes: &[u8]) -> String {
    let params = WorkspaceWriteBytesParams {
        root_hash: root.to_string(),
        path: path.to_string(),
        bytes: bytes.to_vec(),
        mode: None,
    };
    let receipt = handle_workspace_write_bytes(store, &params).unwrap();
    assert_eq!(
        receipt.blob_hash.as_str(),
        ContentHash::of_bytes(bytes).to_hex()
    );
    receipt.new_root_hash.as_str().to_string()
}

fn empty(store: &mut MemStore<WorkspaceNode>) -> String {
    handle_workspace_empty_root(store, "main")
        .unwrap()
        .as_str()
        .to_string()
}

#[test]
fn written_bytes_are_read() {
    let mut store = MemStore::new();
    let root = empty(&mut store);
    let first = write(&mut store, &root, "a/b.txt", b"hello");
    let second = write(&mut store, &first, "c.txt", b"other");
    assert_eq!(
        handle_workspace_read_bytes(&store, &second, "a/b.txt", None).unwrap(),
        b"hello"
    );
    let part = Some(WorkspaceReadBytesRange { start: 1, end: 3 });
    assert_eq!(
        handle_workspace_read_bytes(&store, &second, "a/b.txt", part).unwrap(),
        b"el"
    );
    let entry = handle_workspace_read_ref(&store, &second, "c.txt")
        .unwrap()
        .unwrap();
    assert_eq!(entry.kind, "file");
    assert_eq!(entry.size, 5);
    assert!(handle_workspace_read_bytes(&store, &second, "a", None).is_err());
    assert!(handle_workspace_read_ref(&store, &second, "zz").unwrap().is_none());
}

#[test]
fn removed_paths_are_gone_and_others_stay() {
    let mut store = MemStore::new();
    let root = empty(&mut store);
    let root = write(&mut store, &root, "a.txt", b"a");
    let root = write(&mut store, &root, "b.txt", b"b");
    let root = handle_workspace_remove(&mut store, &root, "a.txt").unwrap();
    assert!(handle_workspace_read_bytes(&store, root.as_str(), "a.txt", None).is_err());
    assert_eq!(
        handle_workspace_read_bytes(&store, root.as_str(), "b.txt", None).unwrap(),
        b"b"
    );
}

#[test]
fn listings_go_by_pages() {
    let mut store = MemStore::new();
    let root = empty(&mut store);
    let root = write(&mut store, &root, "d/x.txt", b"x");
    let root = write(&mut store, &root, "a.txt", b"a");
    let list = |cursor: Option<&str>, limit: u64, scope: &str| {
        handle_workspace_list(
            &store,
            &WorkspaceListParams {
                root_hash: root.clone(),
                path: None,
                scope: Some(scope.to_string()),
                cursor: cursor.map(|c| c.to_string()),
                limit,
            },
        )
        .unwrap()
    };
    let first = list(None, 1, "subtree");
    assert_eq!(first.entries.len(), 1);
    assert_eq!(first.entries[0].path, "a.txt");
    assert_eq!(first.next_cursor, Some("a.txt".to_string()));
    let rest = list(Some("a.txt"), 10, "subtree");
    let paths: Vec<&str> = rest.entries.iter().map(|e| e.path.as_str()).collect();
    assert_eq!(paths, vec!["d", "d/x.txt"]);
    assert_eq!(rest.next_cursor, None);
    assert_eq!(list(None, 10, "dir").entries.len(), 2);
}

#[test]
fn differences_are_by_path() {
    let mut store = MemStore::new();
    let root = empty(&mut store);
    let a = write(&mut store, &root, "same.txt", b"s");
    let a = write(&mut store, &a, "old.txt", b"1");
    let b = write(&mut store, &root, "same.txt", b"s");
    let b = write(&mut store, &b, "new.txt", b"2");
    let changes = handle_workspace_diff(&store, &a, &b, &None).unwrap();
    let paths: Vec<&str> = changes.iter().map(|c| c.path.as_str()).collect();
    assert_eq!(paths, vec!["new.txt", "old.txt"]);
    assert!(changes[0].old_hash.is_none() && changes[0].new_hash.is_some());
    assert!(changes[1].old_hash.is_some() && changes[1].new_hash.is_none());
    assert!(handle_workspace_diff(&store, &a, &a, &None).unwrap().is_empty());
}

#[test]
fn annotations_are_set_and_read() {
    let mut store = MemStore::new();
    let root = empty(&mut store);
    let root = write(&mut store, &root, "a.txt", b"a");
    let note = HashRef::of_hash(&ContentHash::of_bytes(b"note"));
    let patch = WorkspaceAnnotationsPatch {
        items: vec![("label".to_string(), Some(note.clone()))],
    };
    let set = handle_workspace_annotations_set(
        &mut store,
        &root,
        &Some("a.txt".to_string()),
        &patch,
    )
    .unwrap();
    let got = handle_workspace_annotations_get(
        &store,
        set.new_root_hash.as_str(),
        &Some("a.txt".to_string()),
    )
    .unwrap()
    .unwrap();
    assert_eq!(got.items.len(), 1);
    assert_eq!(got.items[0].0, "label");
    assert_eq!(got.items[0].1.as_str(), note.as_str());
}

#[test]
fn versions_are_resolved() {
    let root = HashRef::of_hash(&ContentHash::of_bytes(b"root"));
    let history = WorkspaceHistory {
        latest: 2,
        versions: vec![(
            2,
            WorkspaceCommitMeta {
                root_hash: root.clone(),
                owner: "me".to_string(),
                created_at: 1,
            },
        )],
    };
    let head = handle_workspace_resolve("main", None, Some(&history)).unwrap();
    assert!(head.exists);
    assert_eq!(head.resolved_version, Some(2));
    assert_eq!(head.root_hash.unwrap().as_str(), root.as_str());
    assert!(!handle_workspace_resolve("main", Some(7), Some(&history)).unwrap().exists);
    assert!(!handle_workspace_resolve("main", None, None).unwrap().exists);
}

#[test]
fn names_ranges_and_modes_are_checked() {
    assert!(validate_workspace_name("main-1.0_x~").is_ok());
    assert!(validate_workspace_name("a/b").is_err());
    assert_eq!(join_path("a", "b"), "a/b");
    assert_eq!(join_path("", "b"), "b");
    let bad = Some(WorkspaceReadBytesRange { start: 2, end: 1 });
    assert!(slice_bytes(vec![1, 2, 3], bad).is_err());
    let long = Some(WorkspaceReadBytesRange { start: 0, end: 4 });
    assert!(slice_bytes(vec![1, 2, 3], long).is_err());
    assert_eq!(resolve_file_mode(None, None).unwrap(), MODE_FILE_DEFAULT);
    assert!(resolve_file_mode(None, Some(7)).is_err());
}
