use aos_kernel::capability::CapabilityGrant;
use aos_kernel::effects::{EffectIntent, EffectSource};
use aos_kernel::policy::{
    AllowAllPolicy, DefPolicy, OriginKind, PolicyDecision, PolicyGate, PolicyMatch, PolicyRule,
    RulePolicy,
};

fn http_intent() -> EffectIntent {
    EffectIntent {
        kind: "http.request".to_string(),
        cap_name: "cap_http".to_string(),
        identity: None,
        params_cbor: vec![],
        idempotency_key: [0u8; 32],
        intent_hash: [0u8; 32],
    }
}

fn dummy_grant() -> CapabilityGrant {
    CapabilityGrant {
        name: "cap_http".to_string(),
        cap: "sys/http.out@1".to_string(),
        params_cbor: vec![],
        expiry_ns: None,
    }
}

fn any() -> PolicyMatch {
    PolicyMatch {
        effect_kind: None,
        cap_name: None,
        cap_type: None,
        origin_kind: None,
        origin_name: None,
    }
}

fn reducer() -> EffectSource {
    EffectSource::Reducer {
        name: "r".to_string(),
    }
}

fn plan() -> EffectSource {
    EffectSource::Plan {
        name: "p".to_string(),
    }
}

#[test]
fn default_deny_when_no_rule_matches() {
    let policy = DefPolicy {
        name: "com.acme/none@1".to_string(),
        rules: vec![],
    };
    let gate = RulePolicy::from_def(&policy);
    let decision = gate
        .decide(&http_intent(), &dummy_grant(), &reducer(), "http.out")
        .unwrap();
    assert_eq!(decision.decision, PolicyDecision::Deny);
    assert_eq!(decision.rule_index, None);
}

#[test]
fn reducer_http_can_be_denied() {
    let policy = DefPolicy {
        name: "com.acme/policy@1".to_string(),
        rules: vec![PolicyRule {
            when: PolicyMatch {
                effect_kind: Some("http.request".to_string()),
                origin_kind: Some(OriginKind::Reducer),
                ..any()
            },
            decision: PolicyDecision::Deny,
        }],
    };
    let gate = RulePolicy::from_def(&policy);
    let decision = gate
        .decide(&http_intent(), &dummy_grant(), &reducer(), "http.out")
        .unwrap();
    assert_eq!(decision.decision, PolicyDecision::Deny);
    assert_eq!(decision.rule_index, Some(0));
}

#[test]
fn plan_allowed_by_rule() {
    let policy = DefPolicy {
        name: "com.acme/policy@2".to_string(),
        rules: vec![PolicyRule {
            when: PolicyMatch {
                effect_kind: Some("http.request".to_string()),
                origin_kind: Some(OriginKind::Plan),
                ..any()
            },
            decision: PolicyDecision::Allow,
        }],
    };
    let gate = RulePolicy::from_def(&policy);
    let decision = gate
        .decide(&http_intent(), &dummy_grant(), &plan(), "http.out")
        .unwrap();
    assert_eq!(decision.decision, PolicyDecision::Allow);
    assert_eq!(decision.rule_index, Some(0));
}

#[test]
fn cap_type_must_match_when_present() {
    let policy = DefPolicy {
        name: "com.acme/policy@3".to_string(),
        rules: vec![PolicyRule {
            when: PolicyMatch {
                cap_type: Some("http.out".to_string()),
                ..any()
            },
            decision: PolicyDecision::Allow,
        }],
    };
    let gate = RulePolicy::from_def(&policy);
    let allowed = gate
        .decide(&http_intent(), &dummy_grant(), &plan(), "http.out")
        .unwrap();
    assert_eq!(allowed.decision, PolicyDecision::Allow);
    let denied = gate
        .decide(&http_intent(), &dummy_grant(), &plan(), "llm.basic")
        .unwrap();
    assert_eq!(denied.decision, PolicyDecision::Deny);
}

#[test]
fn the_first_rule_that_matches_decides() {
    let policy = DefPolicy {
        name: "com.acme/policy@4".to_string(),
        rules: vec![
            PolicyRule {
                when: PolicyMatch {
                    origin_name: Some("q".to_string()),
                    ..any()
                },
                decision: PolicyDecision::Allow,
            },
            PolicyRule {
                when: PolicyMatch {
                    cap_name: Some("cap_http".to_string()),
                    ..any()
                },
                decision: PolicyDecision::Deny,
            },
            PolicyRule {
                when: any(),
                decision: PolicyDecision::Allow,
            },
        ],
    };
    let detail = RulePolicy::from_def(&policy)
        .decide(&http_intent(), &dummy_grant(), &plan(), "http.out")
        .unwrap();
    assert_eq!(detail.policy_name, "com.acme/policy@4");
    assert_eq!(detail.rule_index, Some(1));
    assert_eq!(detail.decision, PolicyDecision::Deny);
}

#[test]
fn the_open_policy_allows_all() {
    let detail = AllowAllPolicy
        .decide(&http_intent(), &dummy_grant(), &reducer(), "http.out")
        .unwrap();
    assert_eq!(detail.decision, PolicyDecision::Allow);
    assert_eq!(detail.rule_index, None);
}
