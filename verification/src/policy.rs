//! Policies: which effects are allowed.
use vstd::prelude::*;

use crate::capability::CapabilityGrant;
use crate::effects::{EffectIntent, EffectSource};
use crate::error::KernelError;
use crate::text::{copy_option, str_eq};

verus! {

/// What a policy decides.
#[derive(Clone, Copy, Debug, PartialEq, Eq, Structural)]
pub enum PolicyDecision {
    Allow,
    Deny,
}

/// A decision, with the policy and the rule that it comes from.
#[derive(Debug, PartialEq, Eq)]
pub struct PolicyDecisionDetail {
    pub policy_name: String,
    pub rule_index: Option<u32>,
    pub decision: PolicyDecision,
}

/// What decides whether an effect is allowed.
pub trait PolicyGate {
    /// The decision for an intent: the name of the policy, the rule, and what it says.
    spec fn ruling(
        &self,
        intent: EffectIntent,
        grant: CapabilityGrant,
        source: EffectSource,
        cap_type: Seq<char>,
    ) -> (Seq<char>, Option<u32>, PolicyDecision);

    /// Decides on an intent. A gate may fail to come to a decision.
    fn decide(
        &self,
        intent: &EffectIntent,
        grant: &CapabilityGrant,
        source: &EffectSource,
        cap_type: &str,
    ) -> (r: Result<PolicyDecisionDetail, KernelError>)
        ensures
            match r {
                Ok(d) => (d.policy_name@, d.rule_index, d.decision) == self.ruling(
                    *intent,
                    *grant,
                    *source,
                    cap_type@,
                ),
                Err(_) => true,
            },
    ;
}

/// The policy that allows everything.
#[derive(Clone, Copy, Debug)]
pub struct AllowAllPolicy;

impl PolicyGate for AllowAllPolicy {
    open spec fn ruling(
        &self,
        intent: EffectIntent,
        grant: CapabilityGrant,
        source: EffectSource,
        cap_type: Seq<char>,
    ) -> (Seq<char>, Option<u32>, PolicyDecision) {
        ("allow_all"@, None, PolicyDecision::Allow)
    }

    fn decide(
        &self,
        intent: &EffectIntent,
        grant: &CapabilityGrant,
        source: &EffectSource,
        cap_type: &str,
    ) -> (r: Result<PolicyDecisionDetail, KernelError>)
        ensures
            r is Ok,
    {
        Ok(
            PolicyDecisionDetail {
                policy_name: "allow_all".to_owned(),
                rule_index: None,
                decision: PolicyDecision::Allow,
            },
        )
    }
}

/// What kind of origin a rule speaks of.
#[derive(Clone, Copy, Debug, PartialEq, Eq, Structural)]
pub enum OriginKind {
    Plan,
    Reducer,
}

/// What a rule asks of an intent; what is missing is not asked.
#[derive(Debug)]
pub struct PolicyMatch {
    pub effect_kind: Option<String>,
    pub cap_name: Option<String>,
    pub cap_type: Option<String>,
    pub origin_kind: Option<OriginKind>,
    pub origin_name: Option<String>,
}

/// A rule of a policy.
#[derive(Debug)]
pub struct PolicyRule {
    pub when: PolicyMatch,
    pub decision: PolicyDecision,
}

/// A policy as a manifest defines it.
#[derive(Debug)]
pub struct DefPolicy {
    pub name: String,
    pub rules: Vec<PolicyRule>,
}

/// Whether a text is the one that is asked for.
pub open spec fn text_fits(want: Option<String>, actual: Seq<char>) -> bool {
    match want {
        Some(w) => w@ == actual,
        None => true,
    }
}

/// Whether an origin is of the kind that is asked for.
pub open spec fn origin_fits(want: Option<OriginKind>, source: EffectSource) -> bool {
    match want {
        Some(OriginKind::Plan) => source is Plan,
        Some(OriginKind::Reducer) => source is Reducer,
        None => true,
    }
}

/// Whether a rule speaks of an intent.
pub open spec fn rule_fits(
    when: PolicyMatch,
    intent: EffectIntent,
    source: EffectSource,
    cap_type: Seq<char>,
) -> bool {
    &&& text_fits(when.cap_name, intent.cap_name@)
    &&& text_fits(when.cap_type, cap_type)
    &&& text_fits(when.effect_kind, intent.kind@)
    &&& origin_fits(when.origin_kind, source)
    &&& text_fits(when.origin_name, source.origin())
}

fn fits_text(want: &Option<String>, actual: &str) -> (r: bool)
    ensures
        r == text_fits(*want, actual@),
{
    match want {
        Some(w) => str_eq(w.as_str(), actual),
        None => true,
    }
}

impl PolicyRule {
    /// Whether the rule speaks of an intent.
    pub fn matches(&self, intent: &EffectIntent, source: &EffectSource, cap_type: &str) -> (r: bool)
        ensures
            r == rule_fits(self.when, *intent, *source, cap_type@),
    {
        let origin = match (self.when.origin_kind, source) {
            (None, _) => true,
            (Some(OriginKind::Plan), EffectSource::Plan { .. }) => true,
            (Some(OriginKind::Reducer), EffectSource::Reducer { .. }) => true,
            _ => false,
        };
        fits_text(&self.when.cap_name, intent.cap_name.as_str()) && fits_text(
            &self.when.cap_type,
            cap_type,
        ) && fits_text(&self.when.effect_kind, intent.kind.as_str()) && origin && fits_text(
            &self.when.origin_name,
            source.origin_name(),
        )
    }

    fn copied(&self) -> (r: Self)
        ensures
            r == *self,
    {
        PolicyRule {
            when: PolicyMatch {
                effect_kind: copy_option(&self.when.effect_kind),
                cap_name: copy_option(&self.when.cap_name),
                cap_type: copy_option(&self.when.cap_type),
                origin_kind: self.when.origin_kind,
                origin_name: copy_option(&self.when.origin_name),
            },
            decision: self.decision,
        }
    }
}

/// The first rule that speaks of an intent, or the number of rules.
pub open spec fn first_rule(
    rules: Seq<PolicyRule>,
    intent: EffectIntent,
    source: EffectSource,
    cap_type: Seq<char>,
) -> int
    decreases rules.len(),
{
    if rules.len() == 0 {
        0
    } else if rule_fits(rules[0].when, intent, source, cap_type) {
        0
    } else {
        1 + first_rule(rules.drop_first(), intent, source, cap_type)
    }
}

/// A policy of rules: the first that speaks of an intent decides, and what no rule speaks of is
/// denied.
#[derive(Debug)]
pub struct RulePolicy {
    name: String,
    rules: Vec<PolicyRule>,
}

/// What rules decide.
pub open spec fn ruled(
    name: Seq<char>,
    rules: Seq<PolicyRule>,
    intent: EffectIntent,
    source: EffectSource,
    cap_type: Seq<char>,
) -> (Seq<char>, Option<u32>, PolicyDecision) {
    let i = first_rule(rules, intent, source, cap_type);
    if i < rules.len() {
        (name, Some(#[verifier::truncate] (i as u32)), rules[i].decision)
    } else {
        (name, None, PolicyDecision::Deny)
    }
}

impl RulePolicy {
    pub closed spec fn title(&self) -> Seq<char> {
        self.name@
    }

    pub closed spec fn list(&self) -> Seq<PolicyRule> {
        self.rules@
    }

    pub fn from_def(policy: &DefPolicy) -> (r: Self)
        ensures
            r.title() == policy.name@,
            r.list() == policy.rules@,
    {
        let mut rules: Vec<PolicyRule> = Vec::new();
        let mut i: usize = 0;
        while i < policy.rules.len()
            invariant
                i <= policy.rules@.len(),
                rules@ == policy.rules@.take(i as int),
            decreases policy.rules@.len() - i,
        {
            rules.push(policy.rules[i].copied());
            assert(policy.rules@.take(i + 1) =~= policy.rules@.take(i as int).push(
                policy.rules@[i as int],
            ));
            i += 1;
        }
        assert(policy.rules@.take(i as int) =~= policy.rules@);
        RulePolicy { name: policy.name.clone(), rules }
    }
}

impl PolicyGate for RulePolicy {
    open spec fn ruling(
        &self,
        intent: EffectIntent,
        grant: CapabilityGrant,
        source: EffectSource,
        cap_type: Seq<char>,
    ) -> (Seq<char>, Option<u32>, PolicyDecision) {
        ruled(self.title(), self.list(), intent, source, cap_type)
    }

    fn decide(
        &self,
        intent: &EffectIntent,
        grant: &CapabilityGrant,
        source: &EffectSource,
        cap_type: &str,
    ) -> (r: Result<PolicyDecisionDetail, KernelError>)
        ensures
            r is Ok,
    {
        let ghost all = self.rules@;
        let mut i: usize = 0;
        assert(all.skip(0) =~= all);
        while i < self.rules.len()
            invariant
                i <= self.rules@.len(),
                all == self.rules@,
                first_rule(all, *intent, *source, cap_type@) == i + first_rule(
                    all.skip(i as int),
                    *intent,
                    *source,
                    cap_type@,
                ),
            decreases self.rules@.len() - i,
        {
            assert(all.skip(i as int)[0] == all[i as int]);
            if self.rules[i].matches(intent, source, cap_type) {
                return Ok(
                    PolicyDecisionDetail {
                        policy_name: self.name.clone(),
                        rule_index: Some(#[verifier::truncate] (i as u32)),
                        decision: self.rules[i].decision,
                    },
                );
            }
            assert(all.skip(i as int).drop_first() =~= all.skip(i + 1));
            i += 1;
        }
        Ok(
            PolicyDecisionDetail {
                policy_name: self.name.clone(),
                rule_index: None,
                decision: PolicyDecision::Deny,
            },
        )
    }
}

/// The rule that decides is the first that speaks of the intent.
pub proof fn lemma_first_rule(
    rules: Seq<PolicyRule>,
    intent: EffectIntent,
    source: EffectSource,
    cap_type: Seq<char>,
)
    ensures
        0 <= first_rule(rules, intent, source, cap_type) <= rules.len(),
        first_rule(rules, intent, source, cap_type) < rules.len() ==> rule_fits(
            rules[first_rule(rules, intent, source, cap_type)].when,
            intent,
            source,
            cap_type,
        ),
        forall|i: int|
            0 <= i < first_rule(rules, intent, source, cap_type) ==> !rule_fits(
                (#[trigger] rules[i]).when,
                intent,
                source,
                cap_type,
            ),
    decreases rules.len(),
{
    if rules.len() > 0 && !rule_fits(rules[0].when, intent, source, cap_type) {
        lemma_first_rule(rules.drop_first(), intent, source, cap_type);
        assert forall|i: int|
            0 <= i < first_rule(rules, intent, source, cap_type) implies !rule_fits(
            (#[trigger] rules[i]).when,
            intent,
            source,
            cap_type,
        ) by {
            if i > 0 {
                assert(rules.drop_first()[i - 1] == rules[i]);
            }
        }
    }
}

/// An intent that no rule speaks of is denied.
pub proof fn lemma_denied_by_default(
    name: Seq<char>,
    rules: Seq<PolicyRule>,
    intent: EffectIntent,
    source: EffectSource,
    cap_type: Seq<char>,
)
    requires
        forall|i: int|
            0 <= i < rules.len() ==> !rule_fits(
                (#[trigger] rules[i]).when,
                intent,
                source,
                cap_type,
            ),
    ensures
        ruled(name, rules, intent, source, cap_type) == (
            name,
            None::<u32>,
            PolicyDecision::Deny,
        ),
{
    lemma_first_rule(rules, intent, source, cap_type);
}

/// Whether an intent has everything that a rule names: the effect kind, the name and the type of
/// the capability, and the kind and the name of its origin.
pub open spec fn speaks_of(
    when: PolicyMatch,
    intent: EffectIntent,
    source: EffectSource,
    cap_type: Seq<char>,
) -> bool {
    &&& when.effect_kind matches Some(k) ==> k@ == intent.kind@
    &&& when.cap_name matches Some(n) ==> n@ == intent.cap_name@
    &&& when.cap_type matches Some(t) ==> t@ == cap_type
    &&& when.origin_kind matches Some(OriginKind::Plan) ==> source is Plan
    &&& when.origin_kind matches Some(OriginKind::Reducer) ==> source is Reducer
    &&& when.origin_name matches Some(n) ==> n@ == match source {
        EffectSource::Workflow { name } => name@,
        EffectSource::Plan { name } => name@,
        EffectSource::Reducer { name } => name@,
    }
}

/// The first rule decides of which everything that it names holds of the intent; a rule that names
/// one thing which does not hold never does. What no rule speaks of is denied, and no rule is
/// named.
pub proof fn lemma_first_speaking_rule_decides(
    policy: RulePolicy,
    intent: EffectIntent,
    grant: CapabilityGrant,
    source: EffectSource,
    cap_type: Seq<char>,
)
    ensures
        ({
            let rules = policy.list();
            let (name, index, decision) = policy.ruling(intent, grant, source, cap_type);
            &&& name == policy.title()
            &&& (forall|i: int|
                0 <= i < rules.len() ==> !speaks_of(
                    (#[trigger] rules[i]).when,
                    intent,
                    source,
                    cap_type,
                )) ==> index is None && decision == PolicyDecision::Deny
            &&& forall|k: int|
                0 <= k < rules.len() && speaks_of(
                    (#[trigger] rules[k]).when,
                    intent,
                    source,
                    cap_type,
                ) && (forall|i: int|
                    0 <= i < k ==> !speaks_of(
                        (#[trigger] rules[i]).when,
                        intent,
                        source,
                        cap_type,
                    )) ==> decision == rules[k].decision && (k <= u32::MAX ==> index == Some(
                    k as u32,
                ))
        }),
{
    let rules = policy.list();
    lemma_first_rule(rules, intent, source, cap_type);
    assert forall|i: int| 0 <= i < rules.len() implies rule_fits(
        (#[trigger] rules[i]).when,
        intent,
        source,
        cap_type,
    ) == speaks_of(rules[i].when, intent, source, cap_type) by {}
    assert forall|k: int|
        0 <= k < rules.len() && speaks_of((#[trigger] rules[k]).when, intent, source, cap_type) && (
        forall|i: int|
            0 <= i < k ==> !speaks_of(
                (#[trigger] rules[i]).when,
                intent,
                source,
                cap_type,
            )) implies first_rule(rules, intent, source, cap_type) == k by {
        let f = first_rule(rules, intent, source, cap_type);
        if f < k {
            assert(speaks_of(rules[f].when, intent, source, cap_type));
        }
    }
}

/// What names another effect kind than the intent's decides nothing: where every rule does, the
/// intent is denied.
pub proof fn lemma_other_kinds_do_not_allow(
    policy: RulePolicy,
    intent: EffectIntent,
    grant: CapabilityGrant,
    source: EffectSource,
    cap_type: Seq<char>,
)
    requires
        forall|i: int|
            0 <= i < policy.list().len() ==> ((#[trigger] policy.list()[i]).when.effect_kind
                matches Some(k) && k@ != intent.kind@),
    ensures
        policy.ruling(intent, grant, source, cap_type) == (
            policy.title(),
            None::<u32>,
            PolicyDecision::Deny,
        ),
{
    lemma_first_speaking_rule_decides(policy, intent, grant, source, cap_type);
}

} // verus!
