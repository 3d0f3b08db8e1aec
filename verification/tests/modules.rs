use aos_kernel::air::AirNode;
use aos_kernel::cap_enforcer::{
    decode_cap_output, encode_cap_input, CapCheckInput, CapEffectOrigin,
};
use aos_kernel::error::KernelError;
use aos_kernel::event::{IngressStamp, ReducerEvent};
use aos_kernel::hash::HashRef;
use aos_kernel::module_runtime::{
    is_wasm_module, wasm_hash_string, DefModule, ModuleKind, ModuleRuntime, WasmRuntime,
};
use aos_kernel::plan::{DomainEvent, PlanContext};
use aos_kernel::pure::PureRegistry;
use aos_kernel::reducer::ReducerRegistry;
use aos_kernel::scheduler::{Scheduler, Task};
use aos_kernel::snapshot::{
    receipts_to_vecdeque, EffectIntentSnapshot, KernelSnapshot, WorkflowInstanceSnapshot,
    WorkflowStatusSnapshot,
};
use aos_kernel::store::{MemStore, Store};
use aos_kernel::workflow::WorkflowRegistry;
use serde_cbor::Value;

/// Runs code by handing back its length, and the input.
struct Echo;

impl WasmRuntime for Echo {
    type Module = usize;
    type Input = String;
    type Output = String;

    fn prepare(&self, code: &Vec<u8>) -> Result<usize, String> {
        if code.is_empty() {
            return Err("no code".to_string());
        }
        Ok(code.len())
    }

    fn run(&self, module: &usize, export: &str, input: &String) -> Result<String, String> {
        Ok(format!("{module} {export} {input}"))
    }
}

fn module(hash: HashRef) -> DefModule {
    DefModule {
        name: "com.acme/M@1".to_string(),
        module_kind: ModuleKind::Pure,
        runtime: ModuleRuntime::Wasm { hash },
    }
}

#[test]
fn modules_are_loaded_and_run() {
    let mut store: MemStore<AirNode> = MemStore::new();
    let hash = HashRef::of_hash(&store.put_blob(&b"code".to_vec()).unwrap());
    let def = module(hash.clone());
    assert!(is_wasm_module(&def));
    assert_eq!(wasm_hash_string("m", &def).unwrap(), hash.as_str());

    let mut pure = PureRegistry::new();
    assert!(matches!(
        pure.invoke(&Echo, "m", &"x".to_string()).unwrap_err(),
        KernelError::PureNotFound(_)
    ));
    pure.ensure_loaded(&store, &Echo, "m", &def).unwrap();
    assert_eq!(
        pure.invoke(&Echo, "m", &"x".to_string()).unwrap(),
        "4 run x"
    );

    let mut reducers = ReducerRegistry::new();
    reducers.ensure_loaded(&store, &Echo, "m", &def).unwrap();
    assert_eq!(
        reducers.invoke(&Echo, "m", &"x".to_string()).unwrap(),
        "4 step x"
    );

    let mut workflows = WorkflowRegistry::new();
    workflows.ensure_loaded(&store, &Echo, "w", &def).unwrap();
    assert_eq!(
        workflows
            .invoke_export(&Echo, "w", "other", &"x".to_string())
            .unwrap(),
        "4 other x"
    );
    assert!(matches!(
        workflows.invoke(&Echo, "v", &"x".to_string()).unwrap_err(),
        KernelError::WorkflowNotFound(_)
    ));
}

#[test]
fn modules_without_code_are_not_loaded() {
    let mut store: MemStore<AirNode> = MemStore::new();
    let empty = HashRef::of_hash(&store.put_blob(&vec![]).unwrap());
    let mut pure = PureRegistry::new();
    assert!(matches!(
        pure.ensure_loaded(&store, &Echo, "m", &module(empty)).unwrap_err(),
        KernelError::Wasm(_)
    ));
    let builtin = DefModule {
        name: "com.acme/M@1".to_string(),
        module_kind: ModuleKind::Pure,
        runtime: ModuleRuntime::Builtin,
    };
    assert!(matches!(
        pure.ensure_loaded(&store, &Echo, "m", &builtin).unwrap_err(),
        KernelError::Manifest(_)
    ));
}

#[test]
fn enforcers_are_shown_what_they_judge() {
    let input = CapCheckInput {
        cap_def: "sys/http.out@1".to_string(),
        grant_name: "g".to_string(),
        cap_params: vec![1],
        effect_kind: "http.request".to_string(),
        effect_params: vec![2],
        origin: CapEffectOrigin {
            kind: "workflow".to_string(),
            name: "w".to_string(),
        },
        logical_now_ns: 3,
    };
    match serde_cbor::from_slice::<Value>(&encode_cap_input(&input)).unwrap() {
        Value::Map(m) => {
            assert_eq!(
                m.get(&Value::Text("grant_name".to_string())),
                Some(&Value::Text("g".to_string()))
            );
            assert_eq!(m.len(), 7);
        }
        _ => panic!("not a map"),
    }
    assert!(decode_cap_output(&[0xff]).is_err());
}

fn event(reducer: &str) -> ReducerEvent {
    ReducerEvent {
        reducer: reducer.to_string(),
        event: DomainEvent::new("com.acme/E@1".to_string(), vec![]),
        stamp: IngressStamp {
            now_ns: 1,
            logical_now_ns: 2,
            entropy: vec![],
            journal_height: 3,
            manifest_hash: "m".to_string(),
        },
    }
}

#[test]
fn tasks_come_in_order() {
    let mut s = Scheduler::new();
    assert!(s.is_empty());
    s.push_reducer(event("a"));
    s.push_reducer(event("b"));
    match s.pop() {
        Some(Task::Reducer(e)) => assert_eq!(e.reducer, "a"),
        None => panic!("no task"),
    }
    let first = s.alloc_plan_id();
    assert_eq!(s.alloc_plan_id(), first + 1);
    s.clear();
    assert!(s.pop().is_none());
    let context = PlanContext::from_stamp(&event("a").stamp);
    assert_eq!(context.journal_height, 3);
    assert_eq!(context.logical_now_ns, 2);
}

#[test]
fn snapshots_hold_what_they_were_made_of() {
    let queued = EffectIntentSnapshot {
        intent_hash: [1; 32],
        kind: "timer.set".to_string(),
        cap_name: "c".to_string(),
        params_cbor: vec![2],
        idempotency_key: [3; 32],
    };
    let instance = WorkflowInstanceSnapshot {
        instance_id: "i".to_string(),
        state_bytes: vec![9],
        inflight_intents: vec![],
        status: WorkflowStatusSnapshot::Running,
        last_processed_event_seq: 4,
        module_version: None,
    };
    let mut snapshot = KernelSnapshot::new(
        7,
        vec![],
        vec![[1; 32]],
        vec![queued],
        vec![],
        vec![instance],
        8,
        Some([5; 32]),
    );
    snapshot.set_reducer_index_roots(vec![("r".to_string(), [6; 32])]);
    assert_eq!(snapshot.height(), 7);
    assert_eq!(snapshot.logical_now_ns(), 8);
    assert_eq!(snapshot.manifest_hash(), Some(&[5u8; 32][..]));
    assert_eq!(snapshot.workflow_instances()[0].instance_id, "i");
    assert_eq!(snapshot.reducer_index_roots().len(), 1);
    assert_eq!(snapshot.queued_effects()[0].kind, "timer.set");
}

#[test]
fn intents_come_back_from_snapshots() {
    let snapshot = EffectIntentSnapshot {
        intent_hash: [1; 32],
        kind: "timer.set".to_string(),
        cap_name: "c".to_string(),
        params_cbor: vec![2],
        idempotency_key: [3; 32],
    };
    let intent = snapshot.into_intent();
    assert_eq!(intent.kind, "timer.set");
    let again = EffectIntentSnapshot::from_intent(&intent);
    assert_eq!(again.idempotency_key, [3; 32]);
    assert_eq!(again.cap_name, "c");
}

#[test]
fn only_so_many_receipts_are_kept() {
    let all = [[1; 32], [2; 32], [3; 32]];
    let (queue, seen) = receipts_to_vecdeque(&all, 2);
    assert_eq!(queue.len(), 2);
    assert_eq!(queue[0], [1; 32]);
    assert!(seen.contains(&[2; 32]));
    assert!(!seen.contains(&[3; 32]));
}

fn output(ok: bool, deny: Option<(&str, &str)>) -> Vec<u8> {
    let text = |t: &str| Value::Text(t.to_string());
    let mut m = std::collections::BTreeMap::new();
    m.insert(text("constraints_ok"), Value::Bool(ok));
    if let Some((code, message)) = deny {
        let mut d = std::collections::BTreeMap::new();
        d.insert(text("code"), text(code));
        d.insert(text("message"), text(message));
        m.insert(text("deny"), Value::Map(d));
    }
    serde_cbor::to_vec(&Value::Map(m)).unwrap()
}

#[test]
fn what_enforcers_say_is_read() {
    let agreed = decode_cap_output(&output(true, None)).unwrap();
    assert!(agreed.constraints_ok && agreed.deny.is_none());
    let denied = decode_cap_output(&output(false, Some(("host", "not allowed")))).unwrap();
    assert!(!denied.constraints_ok);
    let reason = denied.deny.unwrap();
    assert_eq!(reason.code, "host");
    assert_eq!(reason.message, "not allowed");
}
