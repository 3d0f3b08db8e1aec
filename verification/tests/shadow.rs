use aos_kernel::air::{AirNode, Builtins, Manifest, NamedRef, NodeKind, CURRENT_AIR_VERSION};
use aos_kernel::effects::EffectIntent;
use aos_kernel::error::KernelError;
use aos_kernel::governance::ManifestPatch;
use aos_kernel::hash::{ContentHash, HashRef};
use aos_kernel::receipts::ReceiptStatus;
use aos_kernel::shadow::config::{ShadowConfig, ShadowHarness};
use aos_kernel::shadow::runner::{ModuleReader, ShadowExecutor, ShadowRun, ShadowStep};
use aos_kernel::shadow::summary::ShadowSummary;
use aos_kernel::snapshot::{
    WorkflowInflightIntentSnapshot, WorkflowInstanceSnapshot, WorkflowStatusSnapshot,
};
use aos_kernel::store::MemStore;

fn empty_manifest() -> Manifest {
    Manifest {
        air_version: CURRENT_AIR_VERSION.to_string(),
        schemas: vec![],
        modules: vec![],
        workflows: vec![],
        ops: vec![],
        effects: vec![],
        caps: vec![],
        policies: vec![],
        secrets: vec![],
        routing: None,
    }
}

fn no_builtins() -> Builtins {
    Builtins {
        schemas: vec![],
        modules: vec![],
        workflows: vec![],
        ops: vec![],
        effects: vec![],
        caps: vec![],
    }
}

fn config(patch: ManifestPatch, patch_hash: String) -> ShadowConfig {
    ShadowConfig {
        proposal_id: 1,
        patch,
        patch_hash,
        harness: None,
    }
}

/// Reads the names of effects, one to a line; a definition without any is no workflow's.
struct Lines;

impl ModuleReader for Lines {
    fn effects_emitted(&self, module: &AirNode) -> Option<Vec<String>> {
        let text = String::from_utf8(module.bytes.clone()).unwrap();
        if text.is_empty() {
            None
        } else {
            Some(text.lines().map(|l| l.to_string()).collect())
        }
    }
}

/// Runs a patch in a world in which nothing happens.
fn run(config: &ShadowConfig, encoded: &[u8]) -> Result<ShadowSummary, KernelError> {
    let store: MemStore<AirNode> = MemStore::new();
    let loaded = ShadowExecutor::load_patch(&store, config, &Ok(encoded.to_vec()), &no_builtins())?;
    let mut run = ShadowRun::new(config, &loaded, &Lines);
    loop {
        match run.next() {
            ShadowStep::Seed(_) => run.seed_submitted(),
            ShadowStep::Drain => run.drained(vec![]),
            ShadowStep::Handle(_) => panic!("no intents"),
            ShadowStep::Done => break,
        }
    }
    ShadowExecutor::summarize(run, Ok(b"manifest".to_vec()), &vec![])
}

#[test]
fn shadow_executor_rejects_hash_mismatch() {
    let patch = ManifestPatch {
        manifest: empty_manifest(),
        nodes: vec![],
    };
    let config = config(
        patch,
        "sha256:ffffffffffffffffffffffffffffffffffffffffffffffffffffffffffffffff".to_string(),
    );

    let result = run(&config, b"patch");
    assert!(matches!(
        result,
        Err(KernelError::ShadowPatchMismatch { .. })
    ));
}

#[test]
fn shadow_executor_sets_manifest_hash_on_summary() {
    let cap = AirNode {
        kind: NodeKind::Cap,
        name: "cap@1".to_string(),
        binding_id: String::new(),
        bytes: b"cap".to_vec(),
    };
    let patch = ManifestPatch {
        manifest: Manifest {
            caps: vec![NamedRef {
                name: cap.name.clone(),
                hash: HashRef::of_hash(&ContentHash::of_bytes(b"cap")),
            }],
            ..empty_manifest()
        },
        nodes: vec![cap],
    };
    let patch_hash = ContentHash::of_bytes(b"patch").to_hex();
    let summary = run(&config(patch, patch_hash), b"patch").expect("shadow run");

    assert_eq!(
        summary.manifest_hash,
        ContentHash::of_bytes(b"manifest").to_hex()
    );
}

#[test]
fn shadow_executor_uses_placeholder_when_secrets_present() {
    let secret = AirNode {
        kind: NodeKind::Secret,
        name: "payments/stripe@1".to_string(),
        binding_id: "stripe:prod".to_string(),
        bytes: b"secret".to_vec(),
    };
    let patch = ManifestPatch {
        manifest: Manifest {
            secrets: vec![NamedRef {
                name: secret.name.clone(),
                hash: HashRef::of_hash(&ContentHash::of_bytes(b"secret")),
            }],
            ..empty_manifest()
        },
        nodes: vec![secret],
    };
    let patch_hash = ContentHash::of_bytes(b"patch").to_hex();
    let summary = run(&config(patch, patch_hash), b"patch")
        .expect("shadow should allow placeholder secrets");

    assert_eq!(
        summary.manifest_hash,
        ContentHash::of_bytes(b"manifest").to_hex()
    );
}

#[test]
fn a_patch_hash_that_is_none_is_refused() {
    let patch = ManifestPatch {
        manifest: empty_manifest(),
        nodes: vec![],
    };
    assert!(run(&config(patch, "nope".to_string()), b"patch").is_err());
    assert!(ShadowExecutor::check_patch("nope", &Err("bad".to_string())).is_err());
}

fn intent() -> EffectIntent {
    EffectIntent {
        kind: "timer.set".to_string(),
        cap_name: String::new(),
        identity: None,
        params_cbor: vec![0x01],
        idempotency_key: [0; 32],
        intent_hash: [2; 32],
    }
}

#[test]
fn effects_are_predicted_in_order() {
    let module = |name: &str, bytes: &[u8]| AirNode {
        kind: NodeKind::Module,
        name: name.to_string(),
        binding_id: String::new(),
        bytes: bytes.to_vec(),
    };
    let mut config = config(
        ManifestPatch {
            manifest: empty_manifest(),
            nodes: vec![module("m", b"timer.set\nblob.put"), module("pure", b"")],
        },
        ContentHash::of_bytes(b"patch").to_hex(),
    );
    config.harness = Some(ShadowHarness {
        seed_events: vec![("com.acme/E@1".to_string(), vec![0xa0])],
    });
    let store: MemStore<AirNode> = MemStore::new();
    let loaded =
        ShadowExecutor::load_patch(&store, &config, &Ok(b"patch".to_vec()), &no_builtins())
            .unwrap();
    let mut run = ShadowRun::new(&config, &loaded, &Lines);
    assert!(matches!(run.next(), ShadowStep::Seed(0)));
    run.seed_submitted();
    assert!(matches!(run.next(), ShadowStep::Drain));
    run.drained(vec![intent()]);
    assert!(matches!(run.next(), ShadowStep::Handle(_)));
    assert_eq!(run.current().kind, "timer.set");
    let receipt = run.handled(None);
    assert_eq!(receipt.intent_hash, [2; 32]);
    assert_eq!(receipt.status, ReceiptStatus::Success);
    while !matches!(run.next(), ShadowStep::Done) {
        run.drained(vec![]);
    }
    let instance = WorkflowInstanceSnapshot {
        instance_id: "i".to_string(),
        state_bytes: vec![],
        inflight_intents: vec![WorkflowInflightIntentSnapshot {
            intent_id: [3; 32],
            origin_module_id: "m".to_string(),
            origin_instance_key: Some(vec![1, 2]),
            effect_kind: "blob.put".to_string(),
            params_hash: None,
            emitted_at_seq: 4,
        }],
        status: WorkflowStatusSnapshot::Waiting,
        last_processed_event_seq: 5,
        module_version: None,
    };
    let summary = ShadowExecutor::summarize(
        run,
        Ok(vec![]),
        &vec![instance],
    )
    .unwrap();
    assert_eq!(summary.predicted_effects.len(), 1);
    assert_eq!(summary.predicted_effects[0].op, "timer.set");
    assert_eq!(
        summary.predicted_effects[0].params_json,
        Some("1".to_string())
    );
    assert_eq!(
        summary.pending_workflow_receipts[0].origin_instance_key_b64,
        Some("AQI=".to_string())
    );
    assert_eq!(summary.workflow_instances[0].inflight_intents, 1);
    assert_eq!(summary.module_effect_allowlists.len(), 1);
    assert_eq!(summary.module_effect_allowlists[0].module, "m");
    assert_eq!(
        summary.module_effect_allowlists[0].effects_emitted,
        vec!["blob.put", "timer.set"]
    );
}
