use std::collections::BTreeMap;

use aos_kernel::capability::{CapGrantResolution, CapabilityGrant, CapabilityResolver};
use aos_kernel::cbor::{decode_cbor, CborValue};
use aos_kernel::cbor_codec::encode_value;
use aos_kernel::effects::{
    EffectCodec, EffectIntent, EffectManager, EffectParamPreprocessor, EffectQueue,
    EffectRuntimeIdentity, EffectSource,
};
use aos_kernel::error::KernelError;
use aos_kernel::hash::ContentHash;
use aos_kernel::literal::ValueLiteral;
use aos_kernel::names::NameMap;
use aos_kernel::plan::readiness::Evaluated;
use aos_kernel::plan::effect_host::EffectHost;
use aos_kernel::plan::tick::{LiteralFault, PlanEvaluator};
use aos_kernel::plan::{
    DefPlan, DomainEvent, Expr, ExprEnv, ExprOrValue, PlanEdge, PlanInstance, PlanRegistry,
    PlanStep, PlanStepKind, StepState,
};
use aos_kernel::secret::PlaceholderSecretResolver;
use aos_kernel::types::{SchemaIndex, TypeExpr, TypePrimitive};
use aos_kernel::value::ExprValue;
use serde_cbor::Value;

/// Keeps the effects of plans, with an evaluator that knows a few expressions.
type Host = EffectHost<Words, Unchanged, PlaceholderSecretResolver, Words>;

fn host_knowing(effect: &str) -> Host {
    let mut effects = NameMap::new();
    effects.insert(effect.to_string(), "schema".to_string());
    EffectHost {
        evaluator: Words,
        manager: EffectManager::new(effects, None, None, Some(PlaceholderSecretResolver)),
        codec: Words,
        queue: EffectQueue::new(),
    }
}

fn host() -> Host {
    host_knowing("http.request")
}

/// The kinds and params of the effects that were queued.
fn drain(host: &mut Host) -> Vec<(String, Vec<u8>)> {
    host.queue
        .drain()
        .into_iter()
        .map(|i| (i.kind, i.params_cbor))
        .collect()
}

fn number(v: &ExprValue) -> Option<i64> {
    match v {
        ExprValue::Int(n) => Some(*n),
        _ => None,
    }
}

fn words(v: &ExprValue) -> Option<String> {
    match v {
        ExprValue::Text(t) => Some(t.clone()),
        _ => None,
    }
}

fn field(v: &ExprValue, name: &str) -> Evaluated {
    match v {
        ExprValue::Record(fields) => fields
            .iter()
            .find(|(n, _)| n == name)
            .map(|(_, v)| v.copied())
            .ok_or_else(|| format!("no field '{name}'")),
        _ => Err("not a record".to_string()),
    }
}

fn eval_text(source: &str, env: &ExprEnv) -> Evaluated {
    if let Some((a, b)) = source.split_once(" == ") {
        let same = words(&eval_text(a, env)?) == words(&eval_text(b, env)?);
        return Ok(ExprValue::Bool(same));
    }
    if let Some((a, b)) = source.split_once(" < ") {
        let less = number(&eval_text(a, env)?) < number(&eval_text(b, env)?);
        return Ok(ExprValue::Bool(less));
    }
    if let Some(inner) = source.strip_prefix('{') {
        let (name, value) = inner.trim_end_matches('}').split_once(": ").unwrap();
        return Ok(ExprValue::Record(vec![(
            name.to_string(),
            eval_text(value, env)?,
        )]));
    }
    if let Some(name) = source.strip_prefix("@var:") {
        return env
            .vars
            .get(name)
            .map(|v| v.copied())
            .ok_or_else(|| format!("no variable '{name}'"));
    }
    if let Some(path) = source.strip_prefix("@step:") {
        let (step, name) = path.split_once('.').unwrap();
        return match env.steps.get(step) {
            Some(v) => field(v, name),
            None => Err(format!("no step '{step}'")),
        };
    }
    if let Some(name) = source.strip_prefix("@event.") {
        return match &env.current_event {
            Some(v) => field(v, name),
            None => Err("no event".to_string()),
        };
    }
    if let Some(t) = source.strip_prefix('"') {
        return Ok(ExprValue::Text(t.trim_end_matches('"').to_string()));
    }
    match source {
        "true" => Ok(ExprValue::Bool(true)),
        "false" => Ok(ExprValue::Bool(false)),
        other => other
            .parse::<i64>()
            .map(ExprValue::Int)
            .map_err(|e| e.to_string()),
    }
}

/// Evaluates a few expressions, and leaves params as they are.
struct Words;

impl PlanEvaluator for Words {
    fn eval(&self, expr: &Expr, env: &ExprEnv) -> Evaluated {
        eval_text(&expr.source, env)
    }

    fn normalize_literal(
        &self,
        literal: ValueLiteral,
        schema: &TypeExpr,
        _schema_name: &str,
        _schemas: &SchemaIndex,
    ) -> Result<ValueLiteral, LiteralFault> {
        let fits = match schema {
            TypeExpr::Primitive(TypePrimitive::Int) => matches!(literal, ValueLiteral::Int(_)),
            TypeExpr::Record(_) => matches!(literal, ValueLiteral::Record(_)),
            _ => true,
        };
        if fits {
            Ok(literal)
        } else {
            Err(LiteralFault::Validation("wrong shape".to_string()))
        }
    }

    fn encode_value(&self, value: &ExprValue) -> Result<Vec<u8>, String> {
        encode_value(value)
    }
}

struct Unchanged;

impl EffectParamPreprocessor for Unchanged {
    fn preprocess(
        &self,
        _source: &EffectSource,
        _effect: &str,
        params_cbor: Vec<u8>,
    ) -> Result<Vec<u8>, KernelError> {
        Ok(params_cbor)
    }
}

impl EffectCodec for Words {
    fn normalize_params(&self, _effect: &str, params_cbor: &[u8]) -> Result<Vec<u8>, String> {
        Ok(params_cbor.to_vec())
    }

    fn normalize_secrets(&self, params_cbor: &[u8]) -> Result<Vec<u8>, String> {
        Ok(params_cbor.to_vec())
    }

    fn make_intent(
        &self,
        effect: &str,
        identity: Option<EffectRuntimeIdentity>,
        params_cbor: Vec<u8>,
        idempotency_key: [u8; 32],
    ) -> Result<EffectIntent, String> {
        Ok(EffectIntent {
            kind: effect.to_string(),
            cap_name: String::new(),
            identity,
            intent_hash: *ContentHash::of_bytes(&params_cbor).as_bytes(),
            params_cbor,
            idempotency_key,
        })
    }
}

fn expr(source: &str) -> Expr {
    Expr {
        source: source.to_string(),
    }
}

fn wanted(source: &str) -> ExprOrValue {
    ExprOrValue::Expr(expr(source))
}

fn step(id: &str, kind: PlanStepKind) -> PlanStep {
    PlanStep {
        id: id.to_string(),
        kind,
    }
}

fn assign(id: &str, what: ExprOrValue, var: &str) -> PlanStep {
    step(
        id,
        PlanStepKind::Assign {
            expr: what,
            var: var.to_string(),
        },
    )
}

fn emit(id: &str, tag: &str, handle: &str) -> PlanStep {
    step(
        id,
        PlanStepKind::EmitEffect {
            kind: "http.request".to_string(),
            params: http_params_literal(tag),
            cap: "cap".to_string(),
            effect_id_as: handle.to_string(),
            idempotency_key: None,
        },
    )
}

fn await_receipt(id: &str, handle: &str, var: &str) -> PlanStep {
    step(
        id,
        PlanStepKind::AwaitReceipt {
            for_expr: expr(&format!("\"{handle}\"")),
            var: var.to_string(),
        },
    )
}

fn await_event(id: &str, where_clause: Option<Expr>) -> PlanStep {
    step(
        id,
        PlanStepKind::AwaitEvent {
            event: "com.test/Evt@1".to_string(),
            where_clause,
            var: "evt".to_string(),
        },
    )
}

fn end(result: Option<ExprOrValue>) -> PlanStep {
    step("end", PlanStepKind::End { result })
}

fn edge(from: &str, to: &str, when: Option<&str>) -> PlanEdge {
    PlanEdge {
        from: from.to_string(),
        to: to.to_string(),
        when: when.map(expr),
    }
}

fn base_plan(steps: Vec<PlanStep>) -> DefPlan {
    DefPlan {
        name: "test/plan@1".to_string(),
        input: "test/Input@1".to_string(),
        output: None,
        steps,
        edges: vec![],
        required_caps: vec!["cap".to_string()],
        allowed_effects: vec!["http.request".to_string()],
        invariants: vec![],
    }
}

fn default_env() -> ExprValue {
    ExprValue::Record(vec![])
}

fn test_capability_resolver() -> CapabilityResolver {
    let cap_params = serde_cbor::to_vec(&Value::Map(BTreeMap::new())).expect("cap params");
    let mut effects = NameMap::new();
    effects.insert("http.request".to_string(), "http.out".to_string());
    let grant = |name: &str| {
        (
            CapabilityGrant {
                name: name.to_string(),
                cap: "sys/http.out@1".to_string(),
                params_cbor: cap_params.clone(),
                expiry_ns: None,
            },
            "http.out".to_string(),
        )
    };
    CapabilityResolver::from_runtime_grants(vec![grant("cap"), grant("cap_http")], effects)
}

fn test_cap_handles(plan: &DefPlan) -> NameMap<CapGrantResolution> {
    let resolver = test_capability_resolver();
    let mut handles = NameMap::new();
    for step in &plan.steps {
        if let PlanStepKind::EmitEffect { kind, cap, .. } = &step.kind {
            let resolved = resolver.resolve(cap, kind).expect("cap handle");
            handles.insert(step.id.clone(), resolved);
        }
    }
    handles
}

fn empty_schema_index() -> SchemaIndex {
    SchemaIndex {
        schemas: NameMap::new(),
    }
}

fn schema_index_with_event(name: &str, schema: TypeExpr) -> SchemaIndex {
    let mut schemas = NameMap::new();
    schemas.insert(name.to_string(), schema);
    SchemaIndex { schemas }
}

fn schema_index_with_output() -> SchemaIndex {
    schema_index_with_event("test/Out@1", TypeExpr::Primitive(TypePrimitive::Int))
}

fn plan_instance_with_schema(plan: DefPlan, schema_index: SchemaIndex) -> PlanInstance {
    let cap_handles = test_cap_handles(&plan);
    PlanInstance::new(1, plan, default_env(), schema_index, None, cap_handles)
}

fn new_plan_instance(plan: DefPlan) -> PlanInstance {
    plan_instance_with_schema(plan, empty_schema_index())
}

fn http_params_literal(tag: &str) -> ExprOrValue {
    let text = |t: &str| ValueLiteral::Text(t.to_string());
    ExprOrValue::Literal(ValueLiteral::Record(vec![
        ("method".to_string(), text("GET")),
        (
            "url".to_string(),
            text(&format!("https://example.com/{tag}")),
        ),
        ("headers".to_string(), ValueLiteral::Mapping(vec![])),
        ("body_ref".to_string(), ValueLiteral::Null),
    ]))
}

fn assign_updates_env() {
    let mut plan = new_plan_instance(base_plan(vec![assign("assign", wanted("42"), "answer")]));
    let outcome = plan.tick(&mut host()).unwrap();
    assert!(outcome.completed);
    assert!(matches!(
        plan.env.vars.get("answer").unwrap(),
        ExprValue::Int(42)
    ));
}

#[test]
fn plan_assign_step_updates_env() {
    assign_updates_env();
}

#[test]
fn step_handlers_assign_step_updates_env() {
    assign_updates_env();
}

fn assign_accepts_literal() {
    let literal = ExprOrValue::Literal(ValueLiteral::Text("literal".to_string()));
    let mut plan = new_plan_instance(base_plan(vec![assign("assign_lit", literal, "greeting")]));
    let outcome = plan.tick(&mut host()).unwrap();
    assert!(outcome.completed);
    assert!(matches!(
        plan.env.vars.get("greeting"),
        Some(ExprValue::Text(t)) if t == "literal"
    ));
}

#[test]
fn plan_assign_step_accepts_literal_value() {
    assign_accepts_literal();
}

#[test]
fn step_handlers_assign_step_accepts_literal_value() {
    assign_accepts_literal();
}

fn emit_enqueues() {
    let mut plan = new_plan_instance(base_plan(vec![emit("emit", "data", "req")]));
    let mut effects = host();
    let outcome = plan.tick(&mut effects).unwrap();
    assert!(outcome.completed);
    assert_eq!(drain(&mut effects).len(), 1);
    assert!(plan.effect_handles.contains_key("req"));
}

#[test]
fn plan_emit_effect_enqueues_intent() {
    emit_enqueues();
}

#[test]
fn step_handlers_emit_effect_enqueues_intent() {
    emit_enqueues();
}

fn emit_accepts_literal() {
    let text = |t: &str| ValueLiteral::Text(t.to_string());
    let params_literal = ValueLiteral::Record(vec![
        ("url".to_string(), text("https://example.com/literal")),
        ("method".to_string(), text("GET")),
        ("headers".to_string(), ValueLiteral::Mapping(vec![])),
        ("body_ref".to_string(), ValueLiteral::Null),
    ]);
    let steps = vec![step(
        "emit",
        PlanStepKind::EmitEffect {
            kind: "http.request".to_string(),
            params: ExprOrValue::Literal(params_literal),
            cap: "cap".to_string(),
            effect_id_as: "req".to_string(),
            idempotency_key: None,
        },
    )];
    let mut plan = new_plan_instance(base_plan(steps));
    let mut effects = host();
    let outcome = plan.tick(&mut effects).unwrap();
    assert!(outcome.completed);
    let queued = drain(&mut effects);
    assert_eq!(queued.len(), 1);
    assert_eq!(queued[0].0, "http.request");
    let decoded: Value = serde_cbor::from_slice(&queued[0].1).unwrap();
    assert!(matches!(decoded, Value::Map(m) if m.len() == 4));
}

#[test]
fn plan_emit_effect_accepts_literal_params() {
    emit_accepts_literal();
}

#[test]
fn step_handlers_emit_effect_accepts_literal_params() {
    emit_accepts_literal();
}

fn await_receipt_resumes() {
    let steps = vec![
        emit("emit", "data", "req"),
        await_receipt("await", "req", "rcpt"),
    ];
    let mut plan = new_plan_instance(base_plan(steps));
    let mut effects = host();
    let first = plan.tick(&mut effects).unwrap();
    assert_eq!(first.waiting_receipts.len(), 1);
    let hash = first.waiting_receipts[0];
    assert!(plan.deliver_receipt(hash, None, &b"\x01".to_vec()).unwrap());
    let second = plan.tick(&mut effects).unwrap();
    assert!(second.completed);
    assert!(plan.env.vars.contains_key("rcpt"));
}

#[test]
fn plan_await_receipt_waits_and_resumes() {
    await_receipt_resumes();
}

#[test]
fn step_handlers_await_receipt_waits_and_resumes() {
    await_receipt_resumes();
}

fn fan_out() {
    let steps = vec![
        emit("emit_a", "alpha", "handle_a"),
        emit("emit_b", "beta", "handle_b"),
        emit("emit_c", "gamma", "handle_c"),
        await_receipt("await_a", "handle_a", "rcpt_a"),
        await_receipt("await_b", "handle_b", "rcpt_b"),
        await_receipt("await_c", "handle_c", "rcpt_c"),
        step("finish", PlanStepKind::End { result: None }),
    ];
    let mut plan = base_plan(steps);
    plan.edges.extend([
        edge("emit_a", "await_a", None),
        edge("emit_b", "await_b", None),
        edge("emit_c", "await_c", None),
        edge("await_a", "finish", None),
        edge("await_b", "finish", None),
        edge("await_c", "finish", None),
    ]);
    let mut plan = new_plan_instance(plan);
    let mut effects = host();
    let first = plan.tick(&mut effects).unwrap();
    let mut hashes = first.waiting_receipts.clone();
    hashes.sort();
    assert_eq!(hashes.len(), 3);
    assert_eq!(drain(&mut effects).len(), 3);

    assert!(plan
        .deliver_receipt(hashes[1], None, &b"\x02".to_vec())
        .unwrap());
    let out_after_first = plan.tick(&mut host()).unwrap();
    assert!(!out_after_first.completed);

    assert!(plan
        .deliver_receipt(hashes[0], None, &b"\x03".to_vec())
        .unwrap());
    let out_after_second = plan.tick(&mut host()).unwrap();
    assert!(!out_after_second.completed);

    assert!(plan
        .deliver_receipt(hashes[2], None, &b"\x04".to_vec())
        .unwrap());
    let final_outcome = plan.tick(&mut host()).unwrap();
    assert!(final_outcome.completed);
}

#[test]
fn plan_fan_out_multiple_receipts_resume_out_of_order() {
    fan_out();
}

#[test]
fn step_handlers_fan_out_multiple_receipts_resume_out_of_order() {
    fan_out();
}

fn parsed(event: &DomainEvent) -> Result<CborValue, String> {
    decode_cbor(&event.value)
}

fn await_event_resumes() {
    let schema_index =
        schema_index_with_event("com.test/Evt@1", TypeExpr::Primitive(TypePrimitive::Int));
    let mut plan =
        plan_instance_with_schema(base_plan(vec![await_event("await", None)]), schema_index);
    let mut effects = host();
    let outcome = plan.tick(&mut effects).unwrap();
    assert_eq!(outcome.waiting_event, Some("com.test/Evt@1".to_string()));
    assert!(plan.event_can_be_read());
    let event = DomainEvent::new(
        "com.test/Evt@1".to_string(),
        serde_cbor::to_vec(&5i64).unwrap(),
    );
    assert!(plan
        .deliver_event(&event, parsed(&event), &effects.evaluator)
        .unwrap());
    let outcome2 = plan.tick(&mut effects).unwrap();
    assert!(outcome2.completed);
    assert!(plan.env.vars.contains_key("evt"));
}

#[test]
fn plan_await_event_waits_for_schema() {
    await_event_resumes();
}

#[test]
fn step_handlers_await_event_waits_for_schema() {
    await_event_resumes();
}

fn guard_blocks() {
    let mut plan = base_plan(vec![end(None)]);
    plan.edges.push(edge("start", "end", Some("false")));
    let mut instance = new_plan_instance(plan);
    let outcome = instance.tick(&mut host()).unwrap();
    assert!(!outcome.completed);
}

#[test]
fn plan_guard_blocks_step_until_true() {
    guard_blocks();
}

#[test]
fn step_handlers_guard_blocks_step_until_true() {
    guard_blocks();
}

#[test]
fn skipped_step_does_not_activate_descendants() {
    let steps = vec![
        assign("gate", wanted("true"), "gate"),
        assign("branch", wanted("\"ok\""), "branch"),
        assign("descendant", wanted("@var:branch"), "descendant"),
    ];
    let mut plan = base_plan(steps);
    plan.edges.push(edge("gate", "branch", Some("false")));
    plan.edges.push(edge("branch", "descendant", None));

    let mut instance = new_plan_instance(plan);
    let outcome = instance.tick(&mut host()).unwrap();

    assert!(outcome.completed);
    assert_eq!(
        instance.step_states.get("branch"),
        Some(&StepState::Skipped)
    );
    assert_eq!(
        instance.step_states.get("descendant"),
        Some(&StepState::Skipped)
    );
    assert!(!instance.env.vars.contains_key("descendant"));
}

fn value_schema() -> TypeExpr {
    TypeExpr::Record(vec![(
        "value".to_string(),
        TypeExpr::Primitive(TypePrimitive::Int),
    )])
}

fn raise(event: &str, value: ExprOrValue) -> PlanStep {
    step(
        "raise",
        PlanStepKind::RaiseEvent {
            event: event.to_string(),
            value,
        },
    )
}

#[test]
fn step_handlers_raise_event_produces_domain_event() {
    let steps = vec![raise("com.test/Evt@1", wanted("{value: 9}"))];
    let mut plan = plan_instance_with_schema(
        base_plan(steps),
        schema_index_with_event("com.test/Evt@1", value_schema()),
    );
    let outcome = plan.tick(&mut host()).unwrap();
    assert_eq!(outcome.raised_events.len(), 1);
    assert_eq!(outcome.raised_events[0].schema, "com.test/Evt@1");
    assert!(outcome.raised_events[0].key.is_none());
}

fn raise_accepts_literal() {
    let literal_event = ValueLiteral::Record(vec![("value".to_string(), ValueLiteral::Int(3))]);
    let steps = vec![raise(
        "com.test/Literal@1",
        ExprOrValue::Literal(literal_event),
    )];
    let mut plan = plan_instance_with_schema(
        base_plan(steps),
        schema_index_with_event("com.test/Literal@1", value_schema()),
    );
    let outcome = plan.tick(&mut host()).unwrap();
    assert!(outcome.completed);
    assert_eq!(outcome.raised_events.len(), 1);
    assert_eq!(outcome.raised_events[0].schema, "com.test/Literal@1");
}

#[test]
fn plan_raise_event_accepts_literal_payload() {
    raise_accepts_literal();
}

#[test]
fn step_handlers_raise_event_accepts_literal_payload() {
    raise_accepts_literal();
}

fn step_refs() {
    let steps = vec![
        assign("first", wanted("{status: \"ok\"}"), "first_state"),
        assign("second", wanted("@step:first.status"), "copied"),
    ];
    let mut plan = base_plan(steps);
    plan.edges.push(edge("first", "second", None));
    let mut instance = new_plan_instance(plan);
    let outcome = instance.tick(&mut host()).unwrap();
    assert!(outcome.completed);
    assert!(matches!(
        instance.env.vars.get("copied"),
        Some(ExprValue::Text(t)) if t == "ok"
    ));
}

#[test]
fn plan_step_values_are_available_via_step_refs() {
    step_refs();
}

#[test]
fn step_handlers_step_values_are_available_via_step_refs() {
    step_refs();
}

fn correlated(value: &str) -> DomainEvent {
    DomainEvent::new(
        "com.test/Evt@1".to_string(),
        serde_cbor::to_vec(&Value::Map(BTreeMap::from([(
            Value::Text("correlation_id".to_string()),
            Value::Text(value.to_string()),
        )])))
        .unwrap(),
    )
}

fn where_filters() {
    let steps = vec![
        await_event("await", Some(expr("@event.correlation_id == \"match\""))),
        end(None),
    ];
    let mut plan = base_plan(steps);
    plan.edges.push(edge("await", "end", None));
    let event_schema = TypeExpr::Record(vec![(
        "correlation_id".to_string(),
        TypeExpr::Primitive(TypePrimitive::Text),
    )]);
    let schema_index = schema_index_with_event("com.test/Evt@1", event_schema);
    let mut instance = plan_instance_with_schema(plan, schema_index);
    let mut effects = host();
    let outcome = instance.tick(&mut effects).unwrap();
    assert_eq!(outcome.waiting_event, Some("com.test/Evt@1".to_string()));

    let mismatch_event = correlated("nope");
    assert!(!instance
        .deliver_event(&mismatch_event, parsed(&mismatch_event), &effects.evaluator)
        .unwrap());

    let match_event = correlated("match");
    assert!(instance
        .deliver_event(&match_event, parsed(&match_event), &effects.evaluator)
        .unwrap());
    let outcome2 = instance.tick(&mut effects).unwrap();
    assert!(outcome2.completed);
    match instance.env.vars.get("evt") {
        Some(ExprValue::Record(fields)) => {
            assert_eq!(fields.len(), 1);
            assert_eq!(fields[0].0, "correlation_id");
            assert!(matches!(&fields[0].1, ExprValue::Text(t) if t == "match"));
        }
        _ => panic!("no event bound"),
    }
}

#[test]
fn plan_await_event_where_clause_filters_events() {
    where_filters();
}

#[test]
fn step_handlers_await_event_where_clause_filters_events() {
    where_filters();
}

fn correlated_needs_predicate() {
    let plan = base_plan(vec![await_event("await", None)]);
    let correlation_value = ExprValue::Text("corr".to_string());
    let cap_handles = test_cap_handles(&plan);
    let mut instance = PlanInstance::new(
        1,
        plan,
        default_env(),
        empty_schema_index(),
        Some((b"corr".to_vec(), correlation_value)),
        cap_handles,
    );
    let err = instance.tick(&mut host()).unwrap_err();
    assert!(matches!(err, KernelError::Manifest(msg) if msg.contains("where predicate")));
}

#[test]
fn plan_await_event_requires_predicate_when_correlated() {
    correlated_needs_predicate();
}

#[test]
fn step_handlers_await_event_requires_predicate_when_correlated() {
    correlated_needs_predicate();
}

fn with_output(steps: Vec<PlanStep>) -> PlanInstance {
    let mut plan = base_plan(steps);
    plan.output = Some("test/Out@1".to_string());
    plan_instance_with_schema(plan, schema_index_with_output())
}

fn end_returns_result() {
    let mut instance = with_output(vec![end(Some(wanted("7")))]);
    let outcome = instance.tick(&mut host()).unwrap();
    assert!(outcome.completed);
    assert!(matches!(outcome.result, Some(ExprValue::Int(7))));
    assert_eq!(outcome.result_schema, Some("test/Out@1".to_string()));
    assert!(outcome.result_cbor.is_some());
}

#[test]
fn plan_end_step_returns_result_when_schema_declared() {
    end_returns_result();
}

#[test]
fn step_handlers_end_step_returns_result_when_schema_declared() {
    end_returns_result();
}

fn end_requires_result() {
    let mut instance = with_output(vec![end(None)]);
    let err = instance.tick(&mut host()).unwrap_err();
    assert!(matches!(err, KernelError::Manifest(msg) if msg.contains("output schema")));
}

#[test]
fn plan_end_step_requires_result_when_schema_present() {
    end_requires_result();
}

#[test]
fn step_handlers_end_step_requires_result_when_schema_present() {
    end_requires_result();
}

fn end_without_schema() {
    let literal = ExprOrValue::Literal(ValueLiteral::Nat(1));
    let mut instance = new_plan_instance(base_plan(vec![end(Some(literal))]));
    let err = instance.tick(&mut host()).unwrap_err();
    assert!(matches!(err, KernelError::Manifest(msg) if msg.contains("without output schema")));
}

#[test]
fn plan_end_step_cannot_return_without_schema() {
    end_without_schema();
}

#[test]
fn step_handlers_end_step_cannot_return_without_schema() {
    end_without_schema();
}

fn end_shape() {
    let mut instance = with_output(vec![end(Some(wanted("\"oops\"")))]);
    let err = instance.tick(&mut host()).unwrap_err();
    assert!(matches!(err, KernelError::Manifest(msg) if msg.contains("validation error")));
}

#[test]
fn plan_end_step_result_must_match_output_schema_shape() {
    end_shape();
}

#[test]
fn step_handlers_end_step_result_must_match_output_schema_shape() {
    end_shape();
}

fn invariant_violation() {
    let steps = vec![
        assign("set_ok", wanted("5"), "val"),
        assign("set_bad", wanted("20"), "val"),
    ];
    let mut plan = base_plan(steps);
    plan.edges.push(edge("set_ok", "set_bad", None));
    plan.invariants.push(expr("@var:val < 10"));
    let mut instance = new_plan_instance(plan);
    let outcome = instance.tick(&mut host()).unwrap();
    assert!(outcome.completed);
    assert!(matches!(
        outcome.plan_error.as_ref().map(|e| e.code.as_str()),
        Some("invariant_violation")
    ));
}

#[test]
fn plan_invariant_violation_errors_out_plan() {
    invariant_violation();
}

#[test]
fn step_handlers_invariant_violation_errors_out_plan() {
    invariant_violation();
}

fn snapshot_restores() {
    let plan_def = || {
        let mut plan_def = base_plan(vec![
            emit("emit", "payload", "req"),
            await_receipt("await", "req", "resp"),
            end(None),
        ]);
        plan_def
            .edges
            .extend([edge("emit", "await", None), edge("await", "end", None)]);
        plan_def
    };
    let mut instance = new_plan_instance(plan_def());
    let first = instance.tick(&mut host()).unwrap();
    let mut hash = first
        .waiting_receipts
        .first()
        .copied()
        .expect("waiting receipt");
    let snapshot = instance.snapshot();

    let cap_handles = test_cap_handles(&plan_def());
    let mut restored =
        PlanInstance::from_snapshot(snapshot, plan_def(), empty_schema_index(), cap_handles);
    hash[0] ^= 0xAA;
    restored.override_pending_receipt_hash(hash);
    assert_eq!(restored.pending_receipt_hash(), Some(hash));
    assert!(restored
        .deliver_receipt(hash, None, &b"\x01".to_vec())
        .unwrap());
    let outcome = restored.tick(&mut host()).unwrap();
    assert!(outcome.completed);
    assert!(restored.receipt_waits.is_empty());
}

#[test]
fn plan_snapshot_restores_waiting_receipt_state() {
    snapshot_restores();
}

#[test]
fn step_handlers_snapshot_restores_waiting_receipt_state() {
    snapshot_restores();
}

#[test]
fn a_completed_run_is_left_alone() {
    let mut plan = new_plan_instance(base_plan(vec![end(None)]));
    assert!(plan.tick(&mut host()).unwrap().completed);
    let again = plan.tick(&mut host()).unwrap();
    assert!(again.completed);
    assert!(again.raised_events.is_empty() && again.plan_error.is_none());
}

#[test]
fn an_effect_needs_a_grant() {
    let plan = base_plan(vec![emit("emit", "data", "req")]);
    let mut instance = PlanInstance::new(
        1,
        plan,
        default_env(),
        empty_schema_index(),
        None,
        NameMap::new(),
    );
    assert!(matches!(
        instance.tick(&mut host()).unwrap_err(),
        KernelError::PlanCapabilityMissing { cap, .. } if cap == "cap"
    ));
}

#[test]
fn a_registry_keeps_the_last_plan_of_a_name() {
    let mut registry = PlanRegistry::new();
    assert!(registry.get("test/plan@1").is_none());
    registry.register(base_plan(vec![]));
    registry.register(base_plan(vec![end(None)]));
    assert_eq!(registry.get("test/plan@1").unwrap().steps.len(), 1);
}

#[test]
fn each_effect_of_a_plan_is_queued_once() {
    let run = |known: &str| {
        let mut plan = new_plan_instance(base_plan(vec![
            emit("emit_a", "alpha", "handle_a"),
            emit("emit_b", "beta", "handle_b"),
        ]));
        let mut host = host_knowing(known);
        let outcome = plan.tick(&mut host);
        (outcome, host.queue.drain())
    };
    let (outcome, queued) = run("http.request");
    let listed = outcome.unwrap().intents_enqueued;
    assert_eq!(queued.len(), 2);
    assert_eq!(listed.len(), 2);
    for (a, b) in queued.iter().zip(&listed) {
        assert_eq!(a.params_cbor, b.params_cbor);
        assert_eq!(a.intent_hash, b.intent_hash);
    }
    let (outcome, queued) = run("other.effect");
    assert!(matches!(
        outcome.unwrap_err(),
        KernelError::UnsupportedEffect(_)
    ));
    assert!(queued.is_empty());
}
