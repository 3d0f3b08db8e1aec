use aos_kernel::air::{AirNode, Manifest};
use aos_kernel::cell_index::CellMeta;
use aos_kernel::effects::EffectIntent;
use aos_kernel::error::KernelError;
use aos_kernel::governance::{ManifestPatch, Proposal};
use aos_kernel::governance_effects::{
    GovApprovalDecision, GovProposeParams, ManifestSections, PatchCodec,
};
use aos_kernel::hash::ContentHash;
use aos_kernel::internal_effects::dispatch::{
    InternalCodec, InternalReceipt, KernelHandlers, WorkspaceAnnotationsGetParams,
    WorkspaceAnnotationsSetParams, WorkspaceDiffParams, WorkspaceEmptyRootParams,
    WorkspaceReadBytesParams, WorkspaceReadRefParams, WorkspaceRemoveParams,
    WorkspaceResolveParams,
};
use aos_kernel::internal_effects::governance::{
    GovApplyParams, GovApproveParams, GovShadowParams, GovernanceHost,
};
use aos_kernel::internal_effects::introspect::{
    handle_journal_head, handle_reducer_state, CellSource, ListCellsParams, ManifestParams,
    ReducerStateParams,
};
use aos_kernel::internal_effects::{handle_internal_intent, parse_consistency};
use aos_kernel::patch_doc::PatchDocument;
use aos_kernel::query::{Consistency, ReadMeta, StateRead, StateReader};
use aos_kernel::receipts::ReceiptStatus;
use aos_kernel::shadow::summary::ShadowSummary;
use aos_kernel::store::MemStore;
use aos_kernel::workspace::handlers::{
    WorkspaceHistory, WorkspaceListParams, WorkspaceWriteBytesParams,
};
use aos_kernel::workspace::notes::WorkspaceAnnotationsPatch;
use aos_kernel::workspace::WorkspaceNode;
use serde_cbor::Value;
use std::collections::{BTreeMap, HashMap};

fn check_variants() {
    assert!(matches!(parse_consistency("head"), Ok(Consistency::Head)));
    assert_eq!(parse_consistency("exact:5").unwrap(), Consistency::Exact(5));
    assert_eq!(
        parse_consistency("at_least:10").unwrap(),
        Consistency::AtLeast(10)
    );
    assert!(parse_consistency("bogus").is_err());
}

#[test]
fn internal_effects_parse_consistency_variants() {
    check_variants();
}

#[test]
fn mod_parse_consistency_variants() {
    check_variants();
}

#[test]
fn consistency_is_read_in_any_case() {
    assert_eq!(parse_consistency("HEAD").unwrap(), Consistency::Head);
    assert_eq!(parse_consistency("Exact:18").unwrap(), Consistency::Exact(18));
    assert!(parse_consistency("exact:x").is_err());
    assert!(parse_consistency("at_least:18446744073709551616").is_err());
}

#[test]
fn consistency_variants() {
    let c1 = Consistency::Head;
    let c2 = Consistency::Exact(5);
    let c3 = Consistency::AtLeast(10);
    assert!(matches!(c1, Consistency::Head));
    assert!(matches!(c2, Consistency::Exact(5)));
    assert!(matches!(c3, Consistency::AtLeast(10)));
}

#[test]
fn read_meta_fields() {
    let h = ContentHash::of_bytes(b"abc");
    let meta = ReadMeta {
        journal_height: 7,
        snapshot_hash: Some(h),
        manifest_hash: h,
        active_baseline_height: Some(5),
        active_baseline_receipt_horizon_height: Some(5),
    };
    assert_eq!(meta.journal_height, 7);
    assert_eq!(meta.snapshot_hash, Some(h));
    assert_eq!(meta.manifest_hash, h);
    assert_eq!(meta.active_baseline_height, Some(5));
}

fn plain_meta() -> ReadMeta {
    ReadMeta {
        journal_height: 0,
        snapshot_hash: None,
        manifest_hash: ContentHash::of_bytes(b"m"),
        active_baseline_height: None,
        active_baseline_receipt_horizon_height: None,
    }
}

#[test]
fn state_read_wraps_value() {
    let meta = plain_meta();
    let sr = StateRead {
        meta: meta.clone(),
        value: Some(vec![1, 2, 3]),
    };
    assert_eq!(sr.meta.journal_height, 0);
    assert_eq!(sr.value, Some(vec![1, 2, 3]));
}

/// A kernel that has just started, at some height of its journal.
struct Fresh {
    height: u64,
}

impl Fresh {
    fn meta(&self) -> ReadMeta {
        ReadMeta {
            journal_height: self.height,
            ..plain_meta()
        }
    }
}

impl StateReader for Fresh {
    fn get_reducer_state(
        &self,
        _module: &str,
        _key: &Option<Vec<u8>>,
        _consistency: Consistency,
    ) -> Result<StateRead<Option<Vec<u8>>>, KernelError> {
        Ok(StateRead {
            meta: self.meta(),
            value: None,
        })
    }

    fn get_manifest(&self, _consistency: Consistency) -> Result<StateRead<Vec<u8>>, KernelError> {
        Ok(StateRead {
            meta: self.meta(),
            value: vec![0xa0],
        })
    }

    fn get_journal_head(&self) -> ReadMeta {
        self.meta()
    }
}

impl CellSource for Fresh {
    fn list_cells(&self, _reducer: &str) -> Result<Vec<CellMeta>, KernelError> {
        Ok(Vec::new())
    }

    fn read_meta(&self) -> ReadMeta {
        self.meta()
    }
}

/// A governance in which nothing was ever proposed.
struct Quiet {
    proposals: HashMap<u64, Proposal>,
}

impl GovernanceHost for Quiet {
    fn submit_proposal(
        &mut self,
        _patch: ManifestPatch,
        _description: Option<String>,
    ) -> Result<u64, KernelError> {
        Ok(7)
    }

    fn run_shadow(&mut self, id: u64) -> Result<ShadowSummary, KernelError> {
        Err(KernelError::ProposalNotFound(id))
    }

    fn approve_proposal(&mut self, _id: u64, _approver: String) -> Result<(), KernelError> {
        Ok(())
    }

    fn reject_proposal(&mut self, _id: u64, _approver: String) -> Result<(), KernelError> {
        Ok(())
    }

    fn apply_proposal(&mut self, _id: u64) -> Result<(), KernelError> {
        Ok(())
    }

    fn manifest_hash(&self) -> ContentHash {
        ContentHash::of_bytes(b"m")
    }

    fn proposals(&self) -> &HashMap<u64, Proposal> {
        &self.proposals
    }
}

/// No patch can be read.
struct NoPatches;

impl PatchCodec for NoPatches {
    fn decode_patch(&self, _bytes: &Vec<u8>) -> Result<ManifestPatch, String> {
        Err("no patches".to_string())
    }

    fn encode_patch(&self, _patch: &ManifestPatch) -> Result<Vec<u8>, String> {
        Err("no patches".to_string())
    }

    fn decode_doc(&self, _bytes: &Vec<u8>) -> Result<PatchDocument, String> {
        Err("no documents".to_string())
    }

    fn decode_manifest(&self, _bytes: &Vec<u8>) -> Result<Manifest, String> {
        Err("no manifests".to_string())
    }

    fn sections(&self, _manifest: &Manifest) -> ManifestSections {
        unreachable!()
    }
}

/// Params as maps with text keys; receipts as lists.
struct Maps;

type Fields = BTreeMap<Value, Value>;

fn fields(bytes: &Vec<u8>) -> Result<Fields, String> {
    match serde_cbor::from_slice::<Value>(bytes) {
        Ok(Value::Map(m)) => Ok(m),
        Ok(_) => Err("not a map".to_string()),
        Err(e) => Err(e.to_string()),
    }
}

fn maybe(m: &Fields, name: &str) -> Option<String> {
    match m.get(&Value::Text(name.to_string())) {
        Some(Value::Text(t)) => Some(t.clone()),
        _ => None,
    }
}

fn text(m: &Fields, name: &str) -> Result<String, String> {
    maybe(m, name).ok_or(format!("missing {name}"))
}

fn number(m: &Fields, name: &str) -> Option<u64> {
    match m.get(&Value::Text(name.to_string())) {
        Some(Value::Integer(i)) => Some(*i as u64),
        _ => None,
    }
}

impl InternalCodec for Maps {
    fn resolve_params(&self, bytes: &Vec<u8>) -> Result<WorkspaceResolveParams, String> {
        let m = fields(bytes)?;
        Ok(WorkspaceResolveParams {
            workspace: text(&m, "workspace")?,
            version: number(&m, "version"),
        })
    }

    fn manifest_params(&self, bytes: &Vec<u8>) -> Result<ManifestParams, String> {
        Ok(ManifestParams {
            consistency: text(&fields(bytes)?, "consistency")?,
        })
    }

    fn reducer_state_params(&self, bytes: &Vec<u8>) -> Result<ReducerStateParams, String> {
        let m = fields(bytes)?;
        Ok(ReducerStateParams {
            reducer: text(&m, "reducer")?,
            key: None,
            consistency: text(&m, "consistency")?,
        })
    }

    fn list_cells_params(&self, bytes: &Vec<u8>) -> Result<ListCellsParams, String> {
        Ok(ListCellsParams {
            reducer: text(&fields(bytes)?, "reducer")?,
        })
    }

    fn empty_root_params(&self, bytes: &Vec<u8>) -> Result<WorkspaceEmptyRootParams, String> {
        Ok(WorkspaceEmptyRootParams {
            workspace: text(&fields(bytes)?, "workspace")?,
        })
    }

    fn list_params(&self, bytes: &Vec<u8>) -> Result<WorkspaceListParams, String> {
        let m = fields(bytes)?;
        Ok(WorkspaceListParams {
            root_hash: text(&m, "root_hash")?,
            path: maybe(&m, "path"),
            scope: maybe(&m, "scope"),
            cursor: maybe(&m, "cursor"),
            limit: number(&m, "limit").unwrap_or(0),
        })
    }

    fn read_ref_params(&self, bytes: &Vec<u8>) -> Result<WorkspaceReadRefParams, String> {
        let m = fields(bytes)?;
        Ok(WorkspaceReadRefParams {
            root_hash: text(&m, "root_hash")?,
            path: text(&m, "path")?,
        })
    }

    fn read_bytes_params(&self, bytes: &Vec<u8>) -> Result<WorkspaceReadBytesParams, String> {
        let m = fields(bytes)?;
        Ok(WorkspaceReadBytesParams {
            root_hash: text(&m, "root_hash")?,
            path: text(&m, "path")?,
            range: None,
        })
    }

    fn write_bytes_params(&self, bytes: &Vec<u8>) -> Result<WorkspaceWriteBytesParams, String> {
        let m = fields(bytes)?;
        Ok(WorkspaceWriteBytesParams {
            root_hash: text(&m, "root_hash")?,
            path: text(&m, "path")?,
            bytes: text(&m, "bytes")?.into_bytes(),
            mode: number(&m, "mode"),
        })
    }

    fn remove_params(&self, bytes: &Vec<u8>) -> Result<WorkspaceRemoveParams, String> {
        let m = fields(bytes)?;
        Ok(WorkspaceRemoveParams {
            root_hash: text(&m, "root_hash")?,
            path: text(&m, "path")?,
        })
    }

    fn diff_params(&self, bytes: &Vec<u8>) -> Result<WorkspaceDiffParams, String> {
        let m = fields(bytes)?;
        Ok(WorkspaceDiffParams {
            root_a: text(&m, "root_a")?,
            root_b: text(&m, "root_b")?,
            prefix: maybe(&m, "prefix"),
        })
    }

    fn annotations_get_params(
        &self,
        bytes: &Vec<u8>,
    ) -> Result<WorkspaceAnnotationsGetParams, String> {
        let m = fields(bytes)?;
        Ok(WorkspaceAnnotationsGetParams {
            root_hash: text(&m, "root_hash")?,
            path: maybe(&m, "path"),
        })
    }

    fn annotations_set_params(
        &self,
        bytes: &Vec<u8>,
    ) -> Result<WorkspaceAnnotationsSetParams, String> {
        let m = fields(bytes)?;
        Ok(WorkspaceAnnotationsSetParams {
            root_hash: text(&m, "root_hash")?,
            path: maybe(&m, "path"),
            annotations_patch: WorkspaceAnnotationsPatch { items: vec![] },
        })
    }

    fn propose_params(&self, _bytes: &Vec<u8>) -> Result<GovProposeParams, String> {
        Err("no proposals".to_string())
    }

    fn shadow_params(&self, bytes: &Vec<u8>) -> Result<GovShadowParams, String> {
        Ok(GovShadowParams {
            proposal_id: number(&fields(bytes)?, "id").unwrap_or(0),
        })
    }

    fn approve_params(&self, bytes: &Vec<u8>) -> Result<GovApproveParams, String> {
        Ok(GovApproveParams {
            proposal_id: number(&fields(bytes)?, "id").unwrap_or(0),
            decision: GovApprovalDecision::Approve,
            approver: "me".to_string(),
            reason: None,
        })
    }

    fn apply_params(&self, bytes: &Vec<u8>) -> Result<GovApplyParams, String> {
        Ok(GovApplyParams {
            proposal_id: number(&fields(bytes)?, "id").unwrap_or(0),
        })
    }

    fn receipt(&self, receipt: &InternalReceipt) -> Result<Vec<u8>, String> {
        let word = |t: &str| Value::Text(t.to_string());
        let count = |n: usize| Value::Integer(n as i128);
        let items = match receipt {
            InternalReceipt::Manifest(x) => vec![
                Value::Bytes(x.manifest.clone()),
                Value::Integer(x.meta.journal_height as i128),
            ],
            InternalReceipt::JournalHead(x) => {
                vec![Value::Integer(x.meta.journal_height as i128)]
            }
            InternalReceipt::ListCells(x) => vec![count(x.cells.len())],
            InternalReceipt::ReducerState(x) => vec![Value::Bool(x.state.is_some())],
            InternalReceipt::Resolve(x) => vec![Value::Bool(x.exists)],
            InternalReceipt::EmptyRoot(h) => vec![word(h.as_str())],
            InternalReceipt::List(x) => {
                let mut v: Vec<Value> = x.entries.iter().map(|e| word(&e.path)).collect();
                v.push(match &x.next_cursor {
                    Some(c) => word(c),
                    None => Value::Null,
                });
                v
            }
            InternalReceipt::ReadRef(x) => vec![Value::Bool(x.is_some())],
            InternalReceipt::ReadBytes(b) => vec![Value::Bytes(b.clone())],
            InternalReceipt::WriteBytes(x) => vec![word(x.new_root_hash.as_str())],
            InternalReceipt::Remove(h) => vec![word(h.as_str())],
            InternalReceipt::Diff(v) => vec![count(v.len())],
            InternalReceipt::AnnotationsGet(n) => vec![Value::Bool(n.is_some())],
            InternalReceipt::AnnotationsSet(x) => vec![word(x.new_root_hash.as_str())],
            _ => return Err("no such receipt".to_string()),
        };
        serde_cbor::to_vec(&Value::Array(items)).map_err(|e| e.to_string())
    }

    fn workspace_key(&self, workspace: &str) -> Result<Vec<u8>, KernelError> {
        serde_cbor::to_vec(&Value::Text(workspace.to_string()))
            .map_err(|e| KernelError::Query(e.to_string()))
    }

    fn history(&self, _bytes: &Vec<u8>) -> Result<WorkspaceHistory, String> {
        Err("no history".to_string())
    }
}

type Kernel =
    KernelHandlers<Fresh, MemStore<WorkspaceNode>, MemStore<AirNode>, NoPatches, Quiet, Maps>;

fn kernel(height: u64) -> Kernel {
    KernelHandlers {
        reader: Fresh { height },
        store: MemStore::new(),
        defs: MemStore::new(),
        patches: NoPatches,
        host: Quiet {
            proposals: HashMap::new(),
        },
        codec: Maps,
    }
}

fn params(items: &[(&str, &str)]) -> Vec<u8> {
    let m: Fields = items
        .iter()
        .map(|(k, v)| (Value::Text(k.to_string()), Value::Text(v.to_string())))
        .collect();
    serde_cbor::to_vec(&Value::Map(m)).unwrap()
}

/// What a kernel answers to an intent: the parts of the receipt, or the text of the error.
fn ask(kernel: &mut Kernel, kind: &str, items: &[(&str, &str)]) -> Result<Vec<Value>, String> {
    let receipt = handle_internal_intent(kernel, &intent(kind, params(items))).unwrap();
    match serde_cbor::from_slice::<Value>(&receipt.payload_cbor).unwrap() {
        Value::Array(v) => {
            assert_eq!(receipt.status, ReceiptStatus::Success);
            Ok(v)
        }
        Value::Text(t) => {
            assert_eq!(receipt.status, ReceiptStatus::Error);
            Err(t)
        }
        _ => panic!("neither"),
    }
}

fn only_text(v: Vec<Value>) -> String {
    match &v[0] {
        Value::Text(t) => t.clone(),
        _ => panic!("no text"),
    }
}

fn intent(kind: &str, params: Vec<u8>) -> EffectIntent {
    EffectIntent {
        kind: kind.to_string(),
        cap_name: "sys/query@1".to_string(),
        params_cbor: params,
        idempotency_key: [0; 32],
        intent_hash: [9; 32],
        identity: None,
    }
}

fn check_manifest_intent(height: u64) {
    let decoded = ask(
        &mut kernel(height),
        "introspect.manifest",
        &[("consistency", "head")],
    )
    .unwrap();
    assert!(matches!(&decoded[0], Value::Bytes(b) if !b.is_empty()));
    assert_eq!(decoded[1], Value::Integer(height as i128));
}

#[test]
fn internal_effects_manifest_intent_produces_receipt() {
    check_manifest_intent(0);
}

#[test]
fn mod_manifest_intent_produces_receipt() {
    check_manifest_intent(2);
}

fn check_invalid_params() {
    let receipt = handle_internal_intent(
        &mut kernel(0),
        &intent("introspect.manifest", b"\x01\x02\x03".to_vec()),
    )
    .unwrap();
    assert_eq!(receipt.status, ReceiptStatus::Error);
    assert_eq!(receipt.adapter_id, "kernel.introspect");
    assert_eq!(receipt.intent_hash, [9; 32]);
}

#[test]
fn internal_effects_invalid_params_returns_error_receipt() {
    check_invalid_params();
}

#[test]
fn mod_invalid_params_returns_error_receipt() {
    check_invalid_params();
}

fn check_no_cells(reducer: &str) {
    let decoded = ask(
        &mut kernel(0),
        "introspect.list_cells",
        &[("reducer", reducer)],
    )
    .unwrap();
    assert_eq!(decoded, vec![Value::Integer(0)]);
}

#[test]
fn internal_effects_list_cells_empty_for_non_keyed() {
    check_no_cells("missing/Reducer@1");
}

#[test]
fn mod_list_cells_empty_for_non_keyed() {
    check_no_cells("missing/Workflow@1");
}

#[test]
fn what_a_state_stands_on_is_read() {
    assert_eq!(
        handle_journal_head(&Fresh { height: 4 }).meta.journal_height,
        4
    );
    let params = |consistency: &str| ReducerStateParams {
        reducer: "r".to_string(),
        key: None,
        consistency: consistency.to_string(),
    };
    let read = handle_reducer_state(&Fresh { height: 4 }, &params("head")).unwrap();
    assert_eq!(read.state, None);
    assert!(matches!(
        handle_reducer_state(&Fresh { height: 4 }, &params("never")).unwrap_err(),
        KernelError::Query(_)
    ));
}

#[test]
fn other_effects_are_left_to_adapters() {
    assert!(handle_internal_intent(&mut kernel(0), &intent("http.request", vec![])).is_none());
}

#[test]
fn each_effect_goes_to_its_handler() {
    let mut k = kernel(3);
    assert_eq!(
        ask(&mut k, "introspect.journal_head", &[]).unwrap(),
        vec![Value::Integer(3)]
    );
    assert_eq!(
        ask(
            &mut k,
            "introspect.reducer_state",
            &[("reducer", "r"), ("consistency", "head")]
        )
        .unwrap(),
        vec![Value::Bool(false)]
    );
    assert_eq!(
        ask(&mut k, "workspace.resolve", &[("workspace", "w")]).unwrap(),
        vec![Value::Bool(false)]
    );
    let root = only_text(ask(&mut k, "workspace.empty_root", &[("workspace", "w")]).unwrap());
    let written = only_text(
        ask(
            &mut k,
            "workspace.write_bytes",
            &[("root_hash", &root), ("path", "a/b.txt"), ("bytes", "hi")],
        )
        .unwrap(),
    );
    assert_eq!(
        ask(
            &mut k,
            "workspace.read_bytes",
            &[("root_hash", &written), ("path", "a/b.txt")]
        )
        .unwrap(),
        vec![Value::Bytes(b"hi".to_vec())]
    );
    assert_eq!(
        ask(
            &mut k,
            "workspace.list",
            &[("root_hash", &written), ("scope", "subtree")]
        )
        .unwrap(),
        vec![
            Value::Text("a".to_string()),
            Value::Text("a/b.txt".to_string()),
            Value::Null
        ]
    );
    assert_eq!(
        ask(
            &mut k,
            "workspace.diff",
            &[("root_a", &root), ("root_b", &written)]
        )
        .unwrap(),
        vec![Value::Integer(2)]
    );
    assert_eq!(
        ask(&mut k, "workspace.annotations_get", &[("root_hash", &written)]).unwrap(),
        vec![Value::Bool(false)]
    );
    let noted = only_text(
        ask(
            &mut k,
            "workspace.annotations_set",
            &[("root_hash", &written), ("path", "a/b.txt")],
        )
        .unwrap(),
    );
    assert!(noted != written);
    let removed = only_text(
        ask(
            &mut k,
            "workspace.remove",
            &[("root_hash", &written), ("path", "a/b.txt")],
        )
        .unwrap(),
    );
    assert_eq!(
        ask(
            &mut k,
            "workspace.read_ref",
            &[("root_hash", &removed), ("path", "a/b.txt")]
        )
        .unwrap(),
        vec![Value::Bool(false)]
    );
    for kind in ["governance.shadow", "governance.approve", "governance.apply"] {
        let receipt = handle_internal_intent(&mut k, &intent(kind, params(&[]))).unwrap();
        assert_eq!(receipt.status, ReceiptStatus::Error);
        assert_eq!(receipt.adapter_id, "kernel.governance");
    }
    let refused = ask(&mut k, "governance.propose", &[]).unwrap_err();
    assert!(refused.contains("decode params: no proposals"));
    let nameless = ask(&mut k, "workspace.resolve", &[("workspace", "no name")]).unwrap_err();
    assert!(nameless.contains("invalid workspace name"));
}

#[test]
fn cursors_lead_through_a_listing() {
    let mut k = kernel(0);
    let mut root = only_text(ask(&mut k, "workspace.empty_root", &[("workspace", "w")]).unwrap());
    for path in ["b", "a/x", "a/y", "c"] {
        root = only_text(
            ask(
                &mut k,
                "workspace.write_bytes",
                &[("root_hash", &root), ("path", path), ("bytes", "z")],
            )
            .unwrap(),
        );
    }
    let mut seen: Vec<String> = vec![];
    let mut cursor: Option<String> = None;
    loop {
        let mut m: Fields = BTreeMap::new();
        let word = |t: &str| Value::Text(t.to_string());
        m.insert(word("root_hash"), word(&root));
        m.insert(word("scope"), word("subtree"));
        m.insert(word("limit"), Value::Integer(2));
        if let Some(c) = &cursor {
            m.insert(word("cursor"), word(c));
        }
        let bytes = serde_cbor::to_vec(&Value::Map(m)).unwrap();
        let receipt = handle_internal_intent(&mut k, &intent("workspace.list", bytes)).unwrap();
        let mut page = match serde_cbor::from_slice::<Value>(&receipt.payload_cbor).unwrap() {
            Value::Array(v) => v,
            _ => panic!("no list"),
        };
        let next = page.pop().unwrap();
        for item in page {
            match item {
                Value::Text(t) => seen.push(t),
                _ => panic!("no path"),
            }
        }
        match next {
            Value::Text(c) => cursor = Some(c),
            _ => break,
        }
    }
    assert_eq!(seen, vec!["a", "a/x", "a/y", "b", "c"]);
}
