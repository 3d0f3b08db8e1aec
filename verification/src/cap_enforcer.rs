//! Enforcers of capabilities: pure modules that look at each effect.
use vstd::prelude::*;

use crate::air::AirNode;
use crate::cbor::{cbor_parsed, cbor_printed, clone_bytes, decode_cbor, encode_cbor,
    get_text_entry, lemma_map_tree, lemma_round_trips_writable, round_trips, safe_depth,
    text_entry, CborTree, CborValue};
use crate::cbor_map::{lemma_text_map_has, lemma_text_map_round_trips, text_map, Field, FieldMap};
use crate::error::{is_manifest_error, KernelError};
use crate::module_runtime::{code_digest, made_ready, not_wasm, prepared, ran_by, DefModule,
    ModuleKind, ModuleRuntime, ReadyModule, WasmRuntime};
use crate::names::NameMap;
use crate::pure::PureRegistry;
use crate::store::Store;
use crate::text::{join2, join3};

verus! {

/// Who asked for an effect.
#[derive(Debug)]
pub struct CapEffectOrigin {
    pub kind: String,
    pub name: String,
}

/// What an enforcer is shown.
#[derive(Debug)]
pub struct CapCheckInput {
    pub cap_def: String,
    pub grant_name: String,
    pub cap_params: Vec<u8>,
    pub effect_kind: String,
    pub effect_params: Vec<u8>,
    pub origin: CapEffectOrigin,
    pub logical_now_ns: u64,
}

/// Why an enforcer denies an effect.
#[derive(Debug, PartialEq, Eq)]
pub struct CapDenyReason {
    pub code: String,
    pub message: String,
}

/// What an enforcer says.
#[derive(Debug, PartialEq, Eq)]
pub struct CapCheckOutput {
    pub constraints_ok: bool,
    pub deny: Option<CapDenyReason>,
}

/// What asks enforcers.
pub trait CapEnforcerInvoker {
    fn check(&mut self, module: &str, input: &CapCheckInput) -> Result<CapCheckOutput, KernelError>;
}

/// The fields of the origin of an effect.
pub open spec fn origin_fields(o: CapEffectOrigin) -> Seq<Field> {
    seq![("kind"@, CborTree::Text(o.kind@)), ("name"@, CborTree::Text(o.name@))]
}

/// The fields of what an enforcer is shown.
pub open spec fn input_fields(i: CapCheckInput) -> Seq<Field> {
    seq![
        ("cap_def"@, CborTree::Text(i.cap_def@)),
        ("grant_name"@, CborTree::Text(i.grant_name@)),
        ("cap_params"@, CborTree::Bytes(i.cap_params@)),
        ("effect_kind"@, CborTree::Text(i.effect_kind@)),
        ("effect_params"@, CborTree::Bytes(i.effect_params@)),
        ("origin"@, CborTree::Mapping(text_map(origin_fields(i.origin)))),
        ("logical_now_ns"@, CborTree::Integer(i.logical_now_ns as i128)),
    ]
}

/// What an enforcer is shown, in its canonical encoding.
pub fn encode_cap_input(input: &CapCheckInput) -> (r: Vec<u8>)
    ensures
        cbor_printed(CborTree::Mapping(text_map(input_fields(*input)))) == Ok::<
            Seq<u8>,
            Seq<char>,
        >(r@),
        cbor_parsed(r@) == Ok::<CborTree, Seq<char>>(
            CborTree::Mapping(text_map(input_fields(*input))),
        ),
{
    let mut o = FieldMap::new();
    o.put("kind", CborValue::Text(input.origin.kind.clone()));
    o.put("name", CborValue::Text(input.origin.name.clone()));
    assert(o.fields@ =~= origin_fields(input.origin));
    let mut f = FieldMap::new();
    f.put("cap_def", CborValue::Text(input.cap_def.clone()));
    f.put("grant_name", CborValue::Text(input.grant_name.clone()));
    f.put("cap_params", CborValue::Bytes(clone_bytes(&input.cap_params)));
    f.put("effect_kind", CborValue::Text(input.effect_kind.clone()));
    f.put("effect_params", CborValue::Bytes(clone_bytes(&input.effect_params)));
    f.put("origin", o.finish());
    f.put("logical_now_ns", CborValue::Integer(input.logical_now_ns as i128));
    let ghost fields = input_fields(*input);
    assert(f.fields@ =~= fields);
    let value = f.finish();
    proof {
        let origin = origin_fields(input.origin);
        assert forall|k: int| 0 <= k < origin.len() implies round_trips(
            (#[trigger] origin[k]).1,
            98,
        ) by {
            assert(k == 0 || k == 1);
        }
        lemma_text_map_round_trips(origin, 98);
        assert forall|k: int| 0 <= k < fields.len() implies round_trips(
            (#[trigger] fields[k]).1,
            99,
        ) by {
            assert(k == 0 || k == 1 || k == 2 || k == 3 || k == 4 || k == 5 || k == 6);
        }
        lemma_text_map_round_trips(fields, 99);
        lemma_round_trips_writable(value@, safe_depth());
    }
    match encode_cbor(&value) {
        Ok(b) => b,
        Err(_) => {
            assert(false);
            Vec::new()
        },
    }
}

/// The model of what an enforcer says: whether it agrees, and the code and the message of why not.
pub type OutputView = (bool, Option<(Seq<char>, Seq<char>)>);

impl View for CapCheckOutput {
    type V = OutputView;

    open spec fn view(&self) -> OutputView {
        (
            self.constraints_ok,
            match self.deny {
                Some(d) => Some((d.code@, d.message@)),
                None => None,
            },
        )
    }
}

/// A reason read from a value.
pub open spec fn read_deny(t: CborTree) -> Result<(Seq<char>, Seq<char>), Seq<char>> {
    match t {
        CborTree::Mapping(m) => match (text_entry(m, "code"@), text_entry(m, "message"@)) {
            (Some(CborTree::Text(c)), Some(CborTree::Text(s))) => Ok((c, s)),
            _ => Err("expected a reason with a code and a message"@),
        },
        _ => Err("expected a reason with a code and a message"@),
    }
}

/// What an enforcer says, read from a value.
pub open spec fn read_output(t: CborTree) -> Result<OutputView, Seq<char>> {
    match t {
        CborTree::Mapping(m) => match text_entry(m, "constraints_ok"@) {
            Some(CborTree::Bool(ok)) => match text_entry(m, "deny"@) {
                None => Ok((ok, None)),
                Some(CborTree::Null) => Ok((ok, None)),
                Some(d) => match read_deny(d) {
                    Ok(x) => Ok((ok, Some(x))),
                    Err(e) => Err(e),
                },
            },
            _ => Err("expected a map with `constraints_ok`"@),
        },
        _ => Err("expected a map with `constraints_ok`"@),
    }
}

/// What an enforcer says, read from its output, or the text of the error.
pub open spec fn cap_output(bytes: Seq<u8>) -> Result<OutputView, Seq<char>> {
    match cbor_parsed(bytes) {
        Err(e) => Err("decode cap output: "@ + e),
        Ok(t) => match read_output(t) {
            Err(e) => Err("decode cap output: "@ + e),
            Ok(x) => Ok(x),
        },
    }
}

fn deny_from(v: &CborValue) -> (r: Result<CapDenyReason, String>)
    ensures
        match (r, read_deny(v@)) {
            (Ok(d), Ok(x)) => (d.code@, d.message@) == x,
            (Err(e), Err(t)) => e@ == t,
            _ => false,
        },
{
    if let CborValue::Mapping(m) = v {
        proof {
            lemma_map_tree(*v);
        }
        if let (Some(CborValue::Text(c)), Some(CborValue::Text(s))) = (
            get_text_entry(m, "code"),
            get_text_entry(m, "message"),
        ) {
            return Ok(CapDenyReason { code: c.clone(), message: s.clone() });
        }
    }
    Err("expected a reason with a code and a message".to_owned())
}

fn output_from(v: &CborValue) -> (r: Result<CapCheckOutput, String>)
    ensures
        match (r, read_output(v@)) {
            (Ok(o), Ok(x)) => o@ == x,
            (Err(e), Err(t)) => e@ == t,
            _ => false,
        },
{
    if let CborValue::Mapping(m) = v {
        proof {
            lemma_map_tree(*v);
        }
        if let Some(CborValue::Bool(ok)) = get_text_entry(m, "constraints_ok") {
            let constraints_ok: bool = *ok;
            return match get_text_entry(m, "deny") {
                None => Ok(CapCheckOutput { constraints_ok, deny: None }),
                Some(CborValue::Null) => Ok(CapCheckOutput { constraints_ok, deny: None }),
                Some(d) => match deny_from(d) {
                    Ok(x) => Ok(CapCheckOutput { constraints_ok, deny: Some(x) }),
                    Err(e) => Err(e),
                },
            };
        }
    }
    Err("expected a map with `constraints_ok`".to_owned())
}

/// What an enforcer says, read from its output.
pub fn decode_cap_output(output: &[u8]) -> (r: Result<CapCheckOutput, KernelError>)
    ensures
        match (r, cap_output(output@)) {
            (Ok(o), Ok(x)) => o@ == x,
            (Err(e), Err(t)) => is_manifest_error(e, t),
            _ => false,
        },
{
    match decode_cbor(output) {
        Err(e) => Err(KernelError::Manifest(join2("decode cap output: ", e.as_str()))),
        Ok(v) => match output_from(&v) {
            Ok(o) => Ok(o),
            Err(e) => Err(KernelError::Manifest(join2("decode cap output: ", e.as_str()))),
        },
    }
}

/// Why a module cannot be an enforcer.
pub enum EnforcerFault {
    NotFound(Seq<char>),
    NotPure(Seq<char>),
}

/// Whether a module can be an enforcer: it is defined, and pure.
pub open spec fn enforcer_fault(defs: Map<Seq<char>, DefModule>, module: Seq<char>) -> Option<
    EnforcerFault,
> {
    if !defs.contains_key(module) {
        Some(EnforcerFault::NotFound(module))
    } else if defs[module].module_kind != ModuleKind::Pure {
        Some(EnforcerFault::NotPure("module '"@ + module + "' is not a pure module"@))
    } else {
        None
    }
}

pub open spec fn is_enforcer_fault(e: KernelError, f: EnforcerFault) -> bool {
    match f {
        EnforcerFault::NotFound(m) => e matches KernelError::PureNotFound(n) && n@ == m,
        EnforcerFault::NotPure(t) => is_manifest_error(e, t),
    }
}

/// The definition of an enforcer.
pub fn enforcer_module<'a>(defs: &'a NameMap<DefModule>, module: &str) -> (r: Result<
    &'a DefModule,
    KernelError,
>)
    ensures
        match (r, enforcer_fault(defs.map(), module@)) {
            (Ok(d), None) => *d == defs.map()[module@],
            (Err(e), Some(f)) => is_enforcer_fault(e, f),
            _ => false,
        },
{
    match defs.get(module) {
        None => Err(KernelError::PureNotFound(module.to_owned())),
        Some(d) => {
            if d.module_kind != ModuleKind::Pure {
                Err(KernelError::Manifest(join3("module '", module, "' is not a pure module")))
            } else {
                Ok(d)
            }
        },
    }
}

/// Whether a result is what an enforcer that ran says, read from its output, or why it did not run.
pub open spec fn read_answer(
    r: Result<CapCheckOutput, KernelError>,
    ran: Result<Vec<u8>, KernelError>,
) -> bool {
    match ran {
        Ok(b) => match (r, cap_output(b@)) {
            (Ok(o), Ok(x)) => o@ == x,
            (Err(e), Err(t)) => is_manifest_error(e, t),
            _ => false,
        },
        Err(e) => r == Err::<CapCheckOutput, KernelError>(e),
    }
}

/// Whether a module that is ready was shown an input in its canonical encoding, and answered so.
pub open spec fn enforcer_asked<
    M,
    R: WasmRuntime<Module = M, Input = Vec<u8>, Output = Vec<u8>>,
>(
    r: Result<CapCheckOutput, KernelError>,
    runtime: &R,
    module: M,
    input: CapCheckInput,
) -> bool {
    exists|shown: &Vec<u8>, ran: Result<Vec<u8>, KernelError>|
        cbor_printed(CborTree::Mapping(text_map(input_fields(input)))) == Ok::<
            Seq<u8>,
            Seq<char>,
        >(shown@) && #[trigger] ran_by(runtime, module, "run"@, shown, ran) && read_answer(r, ran)
}

/// What asking an enforcer comes to: code that is not ready is made ready first.
pub open spec fn enforcer_answered<
    S: Store<AirNode>,
    M,
    R: WasmRuntime<Module = M, Input = Vec<u8>, Output = Vec<u8>>,
>(
    r: Result<CapCheckOutput, KernelError>,
    store: S,
    runtime: &R,
    before: Map<Seq<char>, ReadyModule<M>>,
    after: Map<Seq<char>, ReadyModule<M>>,
    name: Seq<char>,
    def: DefModule,
    input: CapCheckInput,
) -> bool {
    match def.runtime {
        ModuleRuntime::Wasm { hash } => if before.contains_key(name) && before[name].wasm_hash@
            == hash@ {
            after == before && enforcer_asked(r, runtime, before[name].module, input)
        } else {
            ||| made_ready(store, runtime, hash, before, after, name) && enforcer_asked(
                r,
                runtime,
                after[name].module,
                input,
            )
            ||| after == before && r is Err && prepared(
                store,
                runtime,
                code_digest(hash),
                Err::<R::Module, KernelError>(r->Err_0),
            )
        },
        _ => after == before && (r matches Err(e) && is_manifest_error(e, not_wasm(name))),
    }
}

/// Enforcers that are pure modules.
pub struct PureCapEnforcer<S, R, M> {
    pub module_defs: NameMap<DefModule>,
    pub store: S,
    pub runtime: R,
    pub pures: PureRegistry<M>,
}

impl<S: Store<AirNode>, M, R: WasmRuntime<Module = M, Input = Vec<u8>, Output = Vec<u8>>> PureCapEnforcer<
    S,
    R,
    M,
> {
    /// What asking an enforcer comes to: a module that is not defined or not pure is refused, and
    /// of another the answer is read from its output.
    pub open spec fn asked(
        self,
        after: Self,
        module: Seq<char>,
        input: CapCheckInput,
        r: Result<CapCheckOutput, KernelError>,
    ) -> bool {
        &&& match enforcer_fault(self.module_defs.map(), module) {
            Some(f) => r is Err && is_enforcer_fault(r->Err_0, f) && after == self,
            None => enforcer_answered(
                r,
                self.store,
                &self.runtime,
                self.pures.ready(),
                after.pures.ready(),
                module,
                self.module_defs.map()[module],
                input,
            ),
        }
        &&& after.module_defs == self.module_defs
        &&& after.store == self.store
        &&& after.runtime == self.runtime
    }

    pub fn new(
        module_defs: NameMap<DefModule>,
        store: S,
        runtime: R,
        pures: PureRegistry<M>,
    ) -> (r: Self)
        ensures
            r.module_defs == module_defs,
            r.store == store,
            r.runtime == runtime,
            r.pures == pures,
    {
        PureCapEnforcer { module_defs, store, runtime, pures }
    }

    /// Asks an enforcer. A module that is not defined or not pure is refused; what it says is read
    /// from its output.
    pub fn ask(&mut self, module: &str, input: &CapCheckInput) -> (r: Result<
        CapCheckOutput,
        KernelError,
    >)
        ensures
            old(self).asked(*final(self), module@, *input, r),
    {
        let def = match enforcer_module(&self.module_defs, module) {
            Ok(d) => d,
            Err(e) => {
                return Err(e);
            },
        };
        let shown = encode_cap_input(input);
        match self.pures.ensure_loaded(&self.store, &self.runtime, module, def) {
            Ok(_) => {},
            Err(e) => {
                return Err(e);
            },
        }
        let ran = self.pures.invoke(&self.runtime, module, &shown);
        let ghost told = ran;
        let r = match ran {
            Ok(output) => decode_cap_output(output.as_slice()),
            Err(e) => Err(e),
        };
        proof {
            let ready = self.pures.ready()[module@].module;
            assert(ran_by(&self.runtime, ready, "run"@, &shown, told));
            assert(enforcer_asked(r, &self.runtime, ready, *input));
        }
        r
    }
}

impl<S: Store<AirNode>, M, R: WasmRuntime<Module = M, Input = Vec<u8>, Output = Vec<u8>>> CapEnforcerInvoker for PureCapEnforcer<
    S,
    R,
    M,
> {
    fn check(&mut self, module: &str, input: &CapCheckInput) -> (r: Result<
        CapCheckOutput,
        KernelError,
    >)
        ensures
            old(self).asked(*final(self), module@, *input, r),
    {
        self.ask(module, input)
    }
}

/// An enforcer is shown the capability, the grant and its params, the effect and its params, who
/// asks, and the time, each under its own name and as they are.
pub proof fn lemma_enforcer_is_shown_everything(i: CapCheckInput)
    ensures
        ({
            let m = text_map(input_fields(i));
            &&& text_entry(m, "cap_def"@) == Some(CborTree::Text(i.cap_def@))
            &&& text_entry(m, "grant_name"@) == Some(CborTree::Text(i.grant_name@))
            &&& text_entry(m, "cap_params"@) == Some(CborTree::Bytes(i.cap_params@))
            &&& text_entry(m, "effect_kind"@) == Some(CborTree::Text(i.effect_kind@))
            &&& text_entry(m, "effect_params"@) == Some(CborTree::Bytes(i.effect_params@))
            &&& text_entry(m, "logical_now_ns"@) == Some(
                CborTree::Integer(i.logical_now_ns as i128),
            )
            &&& text_entry(m, "origin"@) matches Some(CborTree::Mapping(o)) && text_entry(
                o,
                "kind"@,
            ) == Some(CborTree::Text(i.origin.kind@)) && text_entry(o, "name"@) == Some(
                CborTree::Text(i.origin.name@),
            )
        }),
{
    reveal_strlit("cap_def");
    reveal_strlit("grant_name");
    reveal_strlit("cap_params");
    reveal_strlit("effect_kind");
    reveal_strlit("effect_params");
    reveal_strlit("origin");
    reveal_strlit("logical_now_ns");
    reveal_strlit("kind");
    reveal_strlit("name");
    let f = input_fields(i);
    assert("cap_def"@.len() == 7 && "grant_name"@.len() == 10 && "cap_params"@.len() == 10);
    assert("effect_kind"@.len() == 11 && "effect_params"@.len() == 13);
    assert("origin"@.len() == 6 && "logical_now_ns"@.len() == 14);
    assert("grant_name"@[0] == 'g' && "cap_params"@[0] == 'c' && "cap_def"@[0] == 'c');
    assert("effect_kind"@[0] == 'e' && "effect_params"@[0] == 'e');
    assert("kind"@[0] == 'k' && "name"@[0] == 'n');
    lemma_text_map_has(f, 0);
    lemma_text_map_has(f, 1);
    lemma_text_map_has(f, 2);
    lemma_text_map_has(f, 3);
    lemma_text_map_has(f, 4);
    lemma_text_map_has(f, 5);
    lemma_text_map_has(f, 6);
    let o = origin_fields(i.origin);
    lemma_text_map_has(o, 0);
    lemma_text_map_has(o, 1);
}

/// What an enforcer says is read as it says it: whether the constraints hold is what stands under
/// that name, and where it gives a reason the reason is the one that it gives. Where it does not
/// say whether they hold, that is an error.
pub proof fn lemma_answer_is_read_as_given(t: CborTree)
    ensures
        t matches CborTree::Mapping(m) ==> {
            &&& read_output(t) is Ok ==> text_entry(m, "constraints_ok"@) == Some(
                CborTree::Bool(read_output(t)->Ok_0.0),
            )
            &&& !(text_entry(m, "constraints_ok"@) matches Some(CborTree::Bool(_))) ==> read_output(
                t,
            ) is Err
            &&& text_entry(m, "constraints_ok"@) matches Some(CborTree::Bool(ok)) ==> {
                &&& text_entry(m, "deny"@) is None || text_entry(m, "deny"@) == Some(CborTree::Null)
                    ==> read_output(t) == Ok::<OutputView, Seq<char>>((ok, None))
                &&& text_entry(m, "deny"@) matches Some(CborTree::Mapping(d)) ==> text_entry(
                    d,
                    "code"@,
                ) matches Some(CborTree::Text(c)) ==> text_entry(d, "message"@) matches Some(
                    CborTree::Text(s),
                ) ==> read_output(t) == Ok::<OutputView, Seq<char>>((ok, Some((c, s))))
            }
        },
        !(t is Mapping) ==> read_output(t) is Err,
{
}

/// Only a module that is defined and pure can be an enforcer.
pub proof fn lemma_enforcers_are_pure(defs: Map<Seq<char>, DefModule>, module: Seq<char>)
    ensures
        enforcer_fault(defs, module) is None <==> defs.contains_key(module)
            && defs[module].module_kind == ModuleKind::Pure,
        enforcer_fault(defs, module) matches Some(EnforcerFault::NotFound(_)) <==> !defs.contains_key(
            module,
        ),
{
}

/// The answer of an enforcer is had from its bytes if and only if they are CBOR that holds one.
pub proof fn lemma_answer_is_in_its_bytes(bytes: Seq<u8>)
    ensures
        cap_output(bytes) is Ok <==> (cbor_parsed(bytes) matches Ok(t) && read_output(t) is Ok),
        cap_output(bytes) matches Ok(x) ==> (cbor_parsed(bytes) matches Ok(t) && read_output(t)
            == Ok::<OutputView, Seq<char>>(x)),
{
}

} // verus!
