use aos_kernel::air::{
    AirNode, Builtin, Builtins, Manifest, NamedRef, NodeKind, RoutingEvent, CURRENT_AIR_VERSION,
};
use aos_kernel::cbor::CborValue;
use aos_kernel::error::KernelError;
use aos_kernel::governance::{
    parse_secret_name, GovernanceManager, ManifestPatch, Proposal, ProposalState,
};
use aos_kernel::governance_effects::{
    build_patch_summary, decode_approval_decision, decode_change_action, decode_patch_input,
    is_propose_kind, settle_manifest_base, GovApprovalDecision, GovChangeAction, GovPatchInput,
    GovProposeParams, GovProposeParamsRaw, GovernanceParamPreprocessor, ManifestSections, PatchCodec,
};
use aos_kernel::governance_utils::{
    canonicalize_patch, diff_named_refs, rewrite_manifest_refs, NamedRefDiffKind,
};
use aos_kernel::hash::{ContentHash, HashRef};
use aos_kernel::internal_effects::governance::{
    handle_governance_apply, handle_governance_approve, handle_governance_propose,
    handle_governance_shadow, GovApplyParams, GovApproveParams, GovShadowParams, GovernanceHost,
};
use aos_kernel::journal::{
    AppliedRecord, ApprovalDecisionRecord, ApprovedRecord, GovernanceRecord, ProposedRecord,
    ShadowReportRecord,
};
use aos_kernel::manifest::{
    manifest_patch_from_loaded, store_loaded_manifest, LoadedManifest, ManifestCodec,
    ManifestLoader,
};
use aos_kernel::names::NameMap;
use aos_kernel::manifest_catalog::json_refs::{
    collect_secret_refs_in_json, JsonNumber, JsonValue,
};
use aos_kernel::manifest_catalog::load_manifest_from_bytes;
use aos_kernel::patch_doc::{
    compile_patch_document, hash_subscriptions, AddDef, ManifestRef, PatchDocument, PatchOp,
    RemoveDef, SetManifestRefs, SetRoutingSubscriptions,
};
use aos_kernel::shadow::summary::ShadowSummary;
use aos_kernel::store::{MemStore, Store, StoreError};
use serde_cbor::Value;
use std::collections::HashMap;

fn node(kind: NodeKind, name: &str, bytes: &[u8]) -> AirNode {
    AirNode {
        kind,
        name: name.to_string(),
        binding_id: String::new(),
        bytes: bytes.to_vec(),
    }
}

fn reference(name: &str, bytes: &[u8]) -> NamedRef {
    NamedRef {
        name: name.to_string(),
        hash: HashRef::of_hash(&ContentHash::of_bytes(bytes)),
    }
}

fn empty_manifest() -> Manifest {
    Manifest {
        air_version: CURRENT_AIR_VERSION.to_string(),
        schemas: vec![],
        modules: vec![],
        workflows: vec![],
        ops: vec![],
        effects: vec![],
        caps: vec![],
        policies: vec![],
        secrets: vec![],
        routing: None,
    }
}

fn no_builtins() -> Builtins {
    Builtins {
        schemas: vec![],
        modules: vec![],
        workflows: vec![],
        ops: vec![],
        effects: vec![],
        caps: vec![],
    }
}

fn one_builtin() -> Builtins {
    let bytes = b"builtin".to_vec();
    let hash = ContentHash::of_bytes(&bytes);
    Builtins {
        schemas: vec![Builtin {
            node: node(NodeKind::Schema, "sys/Builtin@1", &bytes),
            hash,
            hash_ref: HashRef::of_hash(&hash),
        }],
        ..no_builtins()
    }
}

/// The bytes of a manifest, as far as they are looked at before it is read.
fn manifest_bytes() -> Vec<u8> {
    let mut m = std::collections::BTreeMap::new();
    m.insert(
        Value::Text("air_version".to_string()),
        Value::Text(CURRENT_AIR_VERSION.to_string()),
    );
    serde_cbor::to_vec(&Value::Map(m)).unwrap()
}

#[test]
fn load_manifest_success_without_plans() {
    let mut store = MemStore::new();
    let schema = node(NodeKind::Schema, "com.acme/Event@1", b"schema");
    let schema_hash = store.put_node(&schema).unwrap();
    let builtins = one_builtin();

    let manifest = Manifest {
        schemas: vec![
            NamedRef {
                name: "sys/Builtin@1".to_string(),
                hash: builtins.schemas[0].hash_ref.clone(),
            },
            NamedRef {
                name: schema.name.clone(),
                hash: HashRef::new(schema_hash.to_hex()).unwrap(),
            },
        ],
        ..empty_manifest()
    };

    let catalog = load_manifest_from_bytes(&store, &manifest_bytes(), Ok(manifest), &builtins)
        .expect("load");
    assert!(catalog.nodes.contains_key("com.acme/Event@1"));
    assert!(catalog.nodes.contains_key("sys/Builtin@1"));
}

#[test]
fn manifests_that_cannot_be_loaded_are_refused() {
    let store = MemStore::new();
    let load = |bytes: &[u8], m: Manifest| {
        load_manifest_from_bytes(&store, bytes, Ok(m), &no_builtins()).unwrap_err()
    };
    assert!(matches!(
        load(&[0xa0], empty_manifest()),
        StoreError::MissingAirVersion { .. }
    ));
    assert!(matches!(
        load(
            &manifest_bytes(),
            Manifest {
                air_version: "0".to_string(),
                ..empty_manifest()
            }
        ),
        StoreError::UnsupportedAirVersion { .. }
    ));
    assert!(matches!(
        load(
            &manifest_bytes(),
            Manifest {
                schemas: vec![reference("sys/Mine@1", b"x")],
                ..empty_manifest()
            }
        ),
        StoreError::ReservedSysName { .. }
    ));
    assert!(matches!(
        load_manifest_from_bytes(&store, &[0xff], Ok(empty_manifest()), &no_builtins())
            .unwrap_err(),
        StoreError::Cbor(_)
    ));
}

/// Reads every manifest as one, and refuses it where a reason is given.
struct OneManifest {
    manifest: fn() -> Manifest,
    fault: Option<&'static str>,
}

impl ManifestCodec for OneManifest {
    fn encode(&self, manifest: &Manifest) -> Result<Vec<u8>, String> {
        if manifest.air_version == CURRENT_AIR_VERSION {
            Ok(manifest_bytes())
        } else {
            Err("no version".to_string())
        }
    }

    fn decode(&self, _bytes: &[u8]) -> Result<Manifest, String> {
        Ok((self.manifest)())
    }

    fn check(&self, loaded: &LoadedManifest, secrets: &NameMap<AirNode>) -> Result<(), String> {
        assert_eq!(loaded.effect_catalog.effects.len(), loaded.effects.len());
        assert_eq!(secrets.len(), 0);
        match self.fault {
            Some(t) => Err(t.to_string()),
            None => Ok(()),
        }
    }
}

fn event_manifest() -> Manifest {
    Manifest {
        schemas: vec![reference("com.acme/Event@1", b"schema")],
        ..empty_manifest()
    }
}

#[test]
fn a_manifest_that_does_not_fit_is_refused() {
    let mut store = MemStore::new();
    store
        .put_node(&node(NodeKind::Schema, "com.acme/Event@1", b"schema"))
        .unwrap();
    let held = store
        .put_node(&node(NodeKind::Manifest, "", &manifest_bytes()))
        .unwrap();
    let codec = OneManifest {
        manifest: event_manifest,
        fault: Some("schema is not used"),
    };
    let refused = |r: Result<LoadedManifest, KernelError>| {
        matches!(r.unwrap_err(), KernelError::ManifestValidation(t) if t == "schema is not used")
    };
    let none = no_builtins();
    assert!(refused(ManifestLoader::load_from_bytes(
        &store,
        &manifest_bytes(),
        &codec,
        &none
    )));
    assert!(refused(ManifestLoader::load_from_manifest(
        &store,
        &event_manifest(),
        &codec,
        &none
    )));
    assert!(refused(ManifestLoader::load_from_hash(
        &store, held, &codec, &none
    )));
    let unknown = ContentHash::of_bytes(b"unknown");
    assert!(matches!(
        ManifestLoader::load_from_hash(&store, unknown, &codec, &none).unwrap_err(),
        KernelError::Store(_)
    ));
    let old = Manifest {
        air_version: "0".to_string(),
        ..empty_manifest()
    };
    assert!(matches!(
        ManifestLoader::load_from_manifest(&store, &old, &codec, &none).unwrap_err(),
        KernelError::Manifest(t) if t == "encode manifest: no version"
    ));
}

#[test]
fn a_loaded_manifest_is_stored_and_loaded_again() {
    let mut store = MemStore::new();
    store
        .put_node(&node(NodeKind::Schema, "com.acme/Event@1", b"schema"))
        .unwrap();
    let codec = OneManifest {
        manifest: event_manifest,
        fault: None,
    };
    let loaded =
        ManifestLoader::load_from_bytes(&store, &manifest_bytes(), &codec, &no_builtins()).unwrap();
    assert!(loaded.schemas.contains_key("com.acme/Event@1"));
    assert_eq!(manifest_patch_from_loaded(&loaded).nodes.len(), 1);
    let mut other = MemStore::new();
    let stored = store_loaded_manifest(&mut other, &loaded, &codec, &no_builtins()).unwrap();
    assert_eq!(
        stored.to_hex(),
        ContentHash::of_bytes(&manifest_bytes()).to_hex()
    );
    assert!(other.has_node(ContentHash::of_bytes(b"schema")).unwrap());
    let kept = other.get_node(stored).unwrap();
    assert!(matches!(kept.kind, NodeKind::Manifest));
    assert_eq!(kept.bytes, manifest_bytes());
    let again = ManifestLoader::load_from_hash(&other, stored, &codec, &no_builtins()).unwrap();
    assert!(again.schemas.contains_key("com.acme/Event@1"));
}

fn proposed(id: u64) -> GovernanceRecord {
    GovernanceRecord::Proposed(ProposedRecord {
        proposal_id: id,
        description: None,
        patch_hash: ContentHash::of_bytes(b"patch").to_hex(),
    })
}

#[test]
fn proposals_go_through_their_states() {
    let mut manager = GovernanceManager::new();
    let id = manager.alloc_proposal_id();
    manager.apply_record(&proposed(id));
    assert_eq!(manager.proposals()[&id].state, ProposalState::Submitted);
    manager.apply_record(&GovernanceRecord::ShadowReport(ShadowReportRecord {
        proposal_id: id,
        patch_hash: String::new(),
        manifest_hash: "m".to_string(),
        effects_predicted: vec![],
        pending_workflow_receipts: vec![],
        workflow_instances: vec![],
        module_effect_allowlists: vec![],
    }));
    assert_eq!(manager.proposals()[&id].state, ProposalState::Shadowed);
    manager.apply_record(&GovernanceRecord::Approved(ApprovedRecord {
        proposal_id: id,
        patch_hash: String::new(),
        approver: "me".to_string(),
        decision: ApprovalDecisionRecord::Approve,
    }));
    assert_eq!(manager.proposals()[&id].state, ProposalState::Approved);
    assert_eq!(manager.proposals()[&id].approver, Some("me".to_string()));
    manager.apply_record(&GovernanceRecord::Applied(AppliedRecord {
        proposal_id: id,
        patch_hash: String::new(),
        manifest_hash_new: "n".to_string(),
    }));
    assert_eq!(manager.proposals()[&id].state, ProposalState::Applied);
}

#[test]
fn numbers_are_not_used_again() {
    let mut manager = GovernanceManager::new();
    manager.apply_record(&proposed(7));
    assert_eq!(manager.alloc_proposal_id(), 8);
    assert_eq!(manager.alloc_proposal_id(), 9);
}

#[test]
fn references_are_compared_by_name() {
    let a = vec![reference("x", b"1"), reference("y", b"1")];
    let b = vec![reference("y", b"2"), reference("z", b"1")];
    let diffs = diff_named_refs(&a, &b);
    let found: Vec<(&str, NamedRefDiffKind)> =
        diffs.iter().map(|d| (d.name.as_str(), d.change)).collect();
    assert_eq!(found.len(), 3);
    assert!(found.contains(&("x", NamedRefDiffKind::Removed)));
    assert!(found.contains(&("y", NamedRefDiffKind::Changed)));
    assert!(found.contains(&("z", NamedRefDiffKind::Added)));
    assert!(diff_named_refs(&a, &a).is_empty());
}

#[test]
fn references_follow_their_nodes() {
    let mut manifest = Manifest {
        schemas: vec![reference("com.acme/A@1", b"old")],
        ..empty_manifest()
    };
    rewrite_manifest_refs(
        &mut manifest,
        &vec![node(NodeKind::Schema, "com.acme/A@1", b"new")],
    );
    assert_eq!(
        manifest.schemas[0].hash.as_str(),
        ContentHash::of_bytes(b"new").to_hex()
    );
}

#[test]
fn a_patch_names_only_what_can_be_found() {
    let store = MemStore::new();
    let patch = ManifestPatch {
        manifest: Manifest {
            schemas: vec![reference("com.acme/A@1", b"a")],
            ..empty_manifest()
        },
        nodes: vec![node(NodeKind::Schema, "com.acme/A@1", b"a")],
    };
    let loaded = canonicalize_patch(&store, patch, &no_builtins()).unwrap();
    assert_eq!(loaded.nodes.len(), 1);
    let missing = ManifestPatch {
        manifest: Manifest {
            schemas: vec![reference("com.acme/A@1", b"a")],
            ..empty_manifest()
        },
        nodes: vec![],
    };
    assert!(canonicalize_patch(&store, missing, &no_builtins()).is_err());
}

#[test]
fn names_of_secrets_have_versions() {
    assert_eq!(
        parse_secret_name("pay/stripe@2").unwrap(),
        ("pay/stripe".to_string(), 2)
    );
    assert!(parse_secret_name("pay/stripe").is_err());
    assert!(parse_secret_name("pay/stripe@x").is_err());
}

fn doc(patches: Vec<PatchOp>) -> PatchDocument {
    PatchDocument {
        version: "2".to_string(),
        base_manifest_hash: ContentHash::of_bytes(b"base").to_hex(),
        patches,
    }
}

#[test]
fn a_document_becomes_a_patch() {
    let mut store = MemStore::new();
    let add = PatchOp::AddDef {
        add_def: AddDef {
            kind: "defschema".to_string(),
            node: node(NodeKind::Schema, "com.acme/A@1", b"a"),
        },
    };
    let patch = compile_patch_document(
        &mut store,
        doc(vec![add]),
        empty_manifest(),
        &no_builtins(),
    )
    .unwrap();
    assert_eq!(patch.nodes.len(), 1);
    assert_eq!(patch.manifest.schemas[0].name, "com.acme/A@1");
    assert_eq!(
        patch.manifest.schemas[0].hash.as_str(),
        ContentHash::of_bytes(b"a").to_hex()
    );
}

#[test]
fn documents_that_do_not_fit_are_refused() {
    let refuse = |op: PatchOp| {
        let err = compile_patch_document(
            &mut MemStore::new(),
            doc(vec![op]),
            Manifest {
                schemas: vec![reference("com.acme/A@1", b"b")],
                ..empty_manifest()
            },
            &no_builtins(),
        )
        .unwrap_err();
        match err {
            KernelError::Manifest(m) => m,
            _ => panic!("another error"),
        }
    };
    let add = |kind: &str, name: &str| PatchOp::AddDef {
        add_def: AddDef {
            kind: kind.to_string(),
            node: node(NodeKind::Schema, name, b"a"),
        },
    };
    assert!(refuse(add("defmodule", "com.acme/A@1")).contains("defschema"));
    assert!(refuse(add("defschema", "sys/A@1")).contains("sys/A@1"));
    assert!(refuse(PatchOp::RemoveDef {
        remove_def: RemoveDef {
            kind: "defschema".to_string(),
            name: "com.acme/A@1".to_string(),
            pre_hash: ContentHash::of_bytes(b"a").to_hex(),
        },
    })
    .contains("pre_hash mismatch for com.acme/A@1"));
    assert!(refuse(PatchOp::SetManifestRefs {
        set_manifest_refs: SetManifestRefs {
            add: vec![ManifestRef {
                kind: "defnothing".to_string(),
                name: "n".to_string(),
                hash: ContentHash::of_bytes(b"a").to_hex(),
            }],
            remove: vec![],
        },
    })
    .contains("unsupported manifest ref kind"));
}

fn tag(t: &str) -> CborValue {
    CborValue::Mapping(vec![(
        CborValue::Text("$tag".to_string()),
        CborValue::Text(t.to_string()),
    )])
}

#[test]
fn tags_are_read() {
    assert_eq!(
        decode_change_action(tag("removed")).unwrap(),
        GovChangeAction::Removed
    );
    assert_eq!(
        decode_approval_decision(tag("reject")).unwrap(),
        GovApprovalDecision::Reject
    );
    assert_eq!(
        decode_approval_decision(tag("maybe")).unwrap_err(),
        "unknown GovApprovalDecision tag 'maybe'"
    );
    let input = CborValue::Mapping(vec![
        (
            CborValue::Text("$tag".to_string()),
            CborValue::Text("patch_cbor".to_string()),
        ),
        (
            CborValue::Text("$value".to_string()),
            CborValue::Bytes(vec![1]),
        ),
    ]);
    assert!(matches!(
        decode_patch_input(input).unwrap(),
        GovPatchInput::PatchCbor(b) if b == vec![1]
    ));
}

fn sections() -> ManifestSections {
    ManifestSections {
        defaults: vec![],
        routing_inboxes: vec![],
        module_bindings: vec![],
        secrets: vec![],
    }
}

#[test]
fn a_summary_names_what_changes() {
    let next = Manifest {
        schemas: vec![reference("com.acme/A@1", b"a")],
        ..empty_manifest()
    };
    let hash = HashRef::of_hash(&ContentHash::of_bytes(b"patch"));
    let summary = build_patch_summary(
        &empty_manifest(),
        &sections(),
        &next,
        &sections(),
        None,
        &hash,
    );
    assert_eq!(summary.def_changes.len(), 1);
    assert_eq!(summary.def_changes[0].name, "com.acme/A@1");
    assert_eq!(summary.def_changes[0].action, GovChangeAction::Added);
    assert_eq!(summary.patch_hash.as_str(), hash.as_str());
    let same = build_patch_summary(&next, &sections(), &next, &sections(), None, &hash);
    assert!(same.def_changes.is_empty() && same.ops.is_empty());
}

#[test]
fn a_base_must_be_the_one_that_was_named() {
    let a = || Some(HashRef::of_hash(&ContentHash::of_bytes(b"a")));
    let b = || Some(HashRef::of_hash(&ContentHash::of_bytes(b"b")));
    assert!(settle_manifest_base(a(), &a()).unwrap().is_some());
    assert!(settle_manifest_base(a(), &b()).is_err());
    assert!(settle_manifest_base(None, &b()).unwrap().is_some());
    assert!(is_propose_kind("governance.propose"));
    assert!(!is_propose_kind("governance.apply"));
}

/// Reads one patch, whatever the bytes.
struct OnePatch;

impl PatchCodec for OnePatch {
    fn decode_patch(&self, bytes: &Vec<u8>) -> Result<ManifestPatch, String> {
        if bytes.is_empty() {
            return Err("empty".to_string());
        }
        Ok(ManifestPatch {
            manifest: Manifest {
                schemas: vec![reference("com.acme/A@1", b"a")],
                ..empty_manifest()
            },
            nodes: vec![node(NodeKind::Schema, "com.acme/A@1", b"a")],
        })
    }

    fn encode_patch(&self, _patch: &ManifestPatch) -> Result<Vec<u8>, String> {
        Ok(b"patch".to_vec())
    }

    fn decode_doc(&self, _bytes: &Vec<u8>) -> Result<PatchDocument, String> {
        Err("no documents".to_string())
    }

    fn decode_manifest(&self, _bytes: &Vec<u8>) -> Result<Manifest, String> {
        Ok(empty_manifest())
    }

    fn sections(&self, _manifest: &Manifest) -> ManifestSections {
        sections()
    }
}

fn raw(bytes: Vec<u8>) -> GovProposeParamsRaw {
    GovProposeParamsRaw {
        patch: GovPatchInput::PatchCbor(bytes),
        manifest_base: None,
        description: Some("why".to_string()),
    }
}

#[test]
fn proposals_are_prepared() {
    let mut store = MemStore::new();
    let preprocessor = GovernanceParamPreprocessor::new(empty_manifest());
    let params = preprocessor
        .preprocess(
            &mut store,
            &OnePatch,
            "governance.propose",
            Ok(raw(vec![1])),
            &no_builtins(),
        )
        .unwrap()
        .unwrap();
    let hash = ContentHash::of_bytes(b"patch");
    assert!(matches!(
        params.patch,
        GovPatchInput::PatchHash(h) if h.as_str() == hash.to_hex()
    ));
    assert_eq!(params.summary.def_changes.len(), 1);
    assert!(store.has_blob(hash).unwrap());
    assert!(preprocessor
        .preprocess(
            &mut store,
            &OnePatch,
            "governance.apply",
            Ok(raw(vec![1])),
            &no_builtins()
        )
        .unwrap()
        .is_none());
    assert!(preprocessor
        .preprocess(
            &mut store,
            &OnePatch,
            "governance.propose",
            Ok(raw(vec![])),
            &no_builtins()
        )
        .is_err());
}

struct Agreeable {
    manager: GovernanceManager,
    decided: Vec<(u64, String, bool)>,
}

fn agreeable() -> Agreeable {
    Agreeable {
        manager: GovernanceManager::new(),
        decided: vec![],
    }
}

impl GovernanceHost for Agreeable {
    fn submit_proposal(
        &mut self,
        _patch: ManifestPatch,
        _description: Option<String>,
    ) -> Result<u64, KernelError> {
        Ok(1)
    }

    fn run_shadow(&mut self, _proposal_id: u64) -> Result<ShadowSummary, KernelError> {
        Err(KernelError::ProposalNotFound(1))
    }

    fn approve_proposal(&mut self, id: u64, approver: String) -> Result<(), KernelError> {
        self.decided.push((id, approver, true));
        Ok(())
    }

    fn reject_proposal(&mut self, id: u64, approver: String) -> Result<(), KernelError> {
        self.decided.push((id, approver, false));
        Ok(())
    }

    fn apply_proposal(&mut self, _id: u64) -> Result<(), KernelError> {
        Ok(())
    }

    fn manifest_hash(&self) -> ContentHash {
        ContentHash::of_bytes(b"new")
    }

    fn proposals(&self) -> &HashMap<u64, Proposal> {
        self.manager.proposals()
    }
}

#[test]
fn decisions_are_answered() {
    let mut host = agreeable();
    host.manager.apply_record(&proposed(3));
    let params = |id: u64, decision: GovApprovalDecision| GovApproveParams {
        proposal_id: id,
        decision,
        approver: "me".to_string(),
        reason: None,
    };
    let receipt =
        handle_governance_approve(&mut host, &params(3, GovApprovalDecision::Approve)).unwrap();
    assert_eq!(receipt.proposal_id, 3);
    assert_eq!(
        receipt.patch_hash.as_str(),
        ContentHash::of_bytes(b"patch").to_hex()
    );
    handle_governance_approve(&mut host, &params(3, GovApprovalDecision::Reject)).unwrap();
    assert!(matches!(
        handle_governance_approve(&mut host, &params(4, GovApprovalDecision::Approve)).unwrap_err(),
        KernelError::ProposalNotFound(4)
    ));
    assert_eq!(
        host.decided,
        vec![(3, "me".to_string(), true), (3, "me".to_string(), false)]
    );
    let applied =
        handle_governance_apply(&mut host, &GovApplyParams { proposal_id: 3 }).unwrap();
    assert_eq!(
        applied.manifest_hash_new.as_str(),
        ContentHash::of_bytes(b"new").to_hex()
    );
}

#[test]
fn secrets_are_found_in_json() {
    let secret = JsonValue::Object(vec![
        ("alias".to_string(), JsonValue::Text("a".to_string())),
        (
            "version".to_string(),
            JsonValue::Number(JsonNumber::Natural(2)),
        ),
    ]);
    let mut refs = Vec::new();
    collect_secret_refs_in_json(&JsonValue::Array(vec![JsonValue::Null, secret]), &mut refs);
    assert_eq!(refs.len(), 1);
    assert_eq!(refs[0].alias, "a");
    assert_eq!(refs[0].version, 2);
}

#[test]
fn proposals_are_submitted_and_tried() {
    let store = {
        let mut store = MemStore::new();
        store.put_blob(&vec![1]).unwrap();
        store
    };
    let hash = HashRef::of_hash(&ContentHash::of_bytes(&[1]));
    let params = GovProposeParams {
        patch: GovPatchInput::PatchHash(hash.clone()),
        summary: build_patch_summary(
            &empty_manifest(),
            &sections(),
            &empty_manifest(),
            &sections(),
            None,
            &hash,
        ),
        manifest_base: None,
        description: None,
    };
    let receipt =
        handle_governance_propose(&store, &OnePatch, &mut agreeable(), &params).unwrap();
    assert_eq!(receipt.proposal_id, 1);
    assert_eq!(receipt.patch_hash.as_str(), hash.as_str());
    assert!(matches!(
        handle_governance_shadow(&mut agreeable(), &GovShadowParams { proposal_id: 1 }).unwrap_err(),
        KernelError::ProposalNotFound(1)
    ));
    assert!(handle_governance_propose(&MemStore::new(), &OnePatch, &mut agreeable(), &params)
        .is_err());
}

fn subscription(event: &str, key: Option<&str>) -> RoutingEvent {
    RoutingEvent {
        event: event.to_string(),
        module: "com.acme/M@1".to_string(),
        key_field: key.map(|k| k.to_string()),
    }
}

#[test]
fn subscriptions_have_the_digest_of_their_encoding() {
    // The empty list, and a list with one map, in canonical order.
    assert_eq!(
        hash_subscriptions(&None).to_hex(),
        ContentHash::of_bytes(&[0x80]).to_hex()
    );
    assert_eq!(
        hash_subscriptions(&Some(vec![])).to_hex(),
        ContentHash::of_bytes(&[0x80]).to_hex()
    );
    let text = |t: &str| Value::Text(t.to_string());
    let encode = |fields: Vec<(&str, &str)>| {
        let mut bytes = vec![0x81, 0xa0 + fields.len() as u8];
        for (k, v) in fields {
            bytes.extend(serde_cbor::to_vec(&text(k)).unwrap());
            bytes.extend(serde_cbor::to_vec(&text(v)).unwrap());
        }
        ContentHash::of_bytes(&bytes).to_hex()
    };
    assert_eq!(
        hash_subscriptions(&Some(vec![subscription("com.acme/E@1", None)])).to_hex(),
        encode(vec![("event", "com.acme/E@1"), ("module", "com.acme/M@1")])
    );
    assert_eq!(
        hash_subscriptions(&Some(vec![subscription("com.acme/E@1", Some("id"))])).to_hex(),
        encode(vec![
            ("event", "com.acme/E@1"),
            ("module", "com.acme/M@1"),
            ("key_field", "id")
        ])
    );
}

#[test]
fn subscriptions_are_changed_from_what_they_are_by_then() {
    let change = |pre: String, event: &str| PatchOp::SetRoutingSubscriptions {
        set_routing_subscriptions: SetRoutingSubscriptions {
            pre_hash: pre,
            subscriptions: vec![subscription(event, None)],
        },
    };
    let first = hash_subscriptions(&None).to_hex();
    let then = hash_subscriptions(&Some(vec![subscription("com.acme/A@1", None)])).to_hex();
    let patch = compile_patch_document(
        &mut MemStore::new(),
        doc(vec![
            change(first.clone(), "com.acme/A@1"),
            change(then, "com.acme/B@1"),
        ]),
        empty_manifest(),
        &no_builtins(),
    )
    .unwrap();
    assert_eq!(patch.manifest.routing.unwrap()[0].event, "com.acme/B@1");
    let err = compile_patch_document(
        &mut MemStore::new(),
        doc(vec![
            change(first.clone(), "com.acme/A@1"),
            change(first, "com.acme/B@1"),
        ]),
        empty_manifest(),
        &no_builtins(),
    )
    .unwrap_err();
    assert!(matches!(
        err,
        KernelError::Manifest(m) if m == "pre_hash mismatch for routing.subscriptions"
    ));
}
