//! Modules and what runs them.
use vstd::prelude::*;

use crate::air::AirNode;
use crate::error::{is_manifest_error, KernelError};
use crate::hash::{hex_bytes, ContentHash, HashRef};
use crate::names::NameMap;
use crate::store::{blob_fails, Store};
use crate::text::{join3, str_eq};

verus! {

/// What a module is for.
#[derive(Clone, Copy, Debug, PartialEq, Eq, Structural)]
pub enum ModuleKind {
    Workflow,
    Reducer,
    Pure,
}

/// What runs a module.
#[derive(Debug)]
pub enum ModuleRuntime {
    /// WebAssembly, by the digest of the code.
    Wasm { hash: HashRef },
    Builtin,
    Python,
}

/// A module as a manifest defines it.
#[derive(Debug)]
pub struct DefModule {
    pub name: String,
    pub module_kind: ModuleKind,
    pub runtime: ModuleRuntime,
}

/// The text of the error for a module that is not WebAssembly.
pub open spec fn not_wasm(module_name: Seq<char>) -> Seq<char> {
    "module '"@ + module_name + "' is not a wasm module"@
}

/// The digest of the code of a WebAssembly module.
pub fn wasm_hash_ref<'a>(module_name: &str, module_def: &'a DefModule) -> (r: Result<
    &'a HashRef,
    KernelError,
>)
    ensures
        match (r, module_def.runtime) {
            (Ok(h), ModuleRuntime::Wasm { hash }) => *h == hash,
            (Err(_), ModuleRuntime::Wasm { .. }) => false,
            (Ok(_), _) => false,
            (Err(e), _) => is_manifest_error(e, not_wasm(module_name@)),
        },
{
    match &module_def.runtime {
        ModuleRuntime::Wasm { hash } => Ok(hash),
        _ => Err(KernelError::Manifest(join3("module '", module_name, "' is not a wasm module"))),
    }
}

/// The digest of the code of a WebAssembly module, as a text.
pub fn wasm_hash_string(module_name: &str, module_def: &DefModule) -> (r: Result<
    String,
    KernelError,
>)
    ensures
        match (r, module_def.runtime) {
            (Ok(s), ModuleRuntime::Wasm { hash }) => s@ == hash@,
            (Err(_), ModuleRuntime::Wasm { .. }) => false,
            (Ok(_), _) => false,
            (Err(e), _) => is_manifest_error(e, not_wasm(module_name@)),
        },
{
    match wasm_hash_ref(module_name, module_def) {
        Ok(h) => Ok(h.as_str().to_owned()),
        Err(e) => Err(e),
    }
}

pub fn is_wasm_module(module_def: &DefModule) -> (r: bool)
    ensures
        r == (module_def.runtime is Wasm),
{
    match &module_def.runtime {
        ModuleRuntime::Wasm { .. } => true,
        _ => false,
    }
}

/// What compiles and runs WebAssembly.
pub trait WasmRuntime {
    type Module;

    type Input;

    type Output;

    /// Code that is ready to run.
    fn prepare(&self, code: &Vec<u8>) -> Result<Self::Module, String>;

    /// Runs an export of a module.
    fn run(&self, module: &Self::Module, export: &str, input: &Self::Input) -> Result<
        Self::Output,
        String,
    >;
}

/// The digest that a reference to code holds.
pub open spec fn code_digest(hash: HashRef) -> Seq<u8> {
    hex_bytes(hash@.skip(7))
}

/// Whether `told` is what the runtime says of code.
pub open spec fn code_prepared<R: WasmRuntime>(
    runtime: &R,
    code: Seq<u8>,
    told: Result<R::Module, String>,
) -> bool {
    exists|c: &Vec<u8>| c@ == code && #[trigger] call_ensures(R::prepare, (runtime, c), told)
}

/// Whether `told` is what getting code ready comes to: what the runtime makes of the bytes in the
/// store, its error, or that of the store.
pub open spec fn prepared<S: Store<AirNode>, R: WasmRuntime>(
    store: S,
    runtime: &R,
    digest: Seq<u8>,
    told: Result<R::Module, KernelError>,
) -> bool {
    match told {
        Err(KernelError::Store(e)) => blob_fails::<AirNode, S>(store, digest, e),
        Ok(m) => store.blobs().contains_key(digest) && code_prepared(
            runtime,
            store.blobs()[digest],
            Ok::<R::Module, String>(m),
        ),
        Err(KernelError::Wasm(t)) => store.blobs().contains_key(digest) && code_prepared(
            runtime,
            store.blobs()[digest],
            Err::<R::Module, String>(t),
        ),
        Err(_) => false,
    }
}

/// Gets the code under a digest ready.
pub fn prepare_code<S: Store<AirNode>, R: WasmRuntime>(
    store: &S,
    runtime: &R,
    hash: &HashRef,
) -> (r: Result<R::Module, KernelError>)
    ensures
        prepared(*store, runtime, code_digest(*hash), r),
{
    let digest = match ContentHash::from_hex_str(hash.as_str()) {
        Ok(h) => h,
        Err(e) => {
            assert(false);
            return Err(KernelError::Manifest(e.message()));
        },
    };
    let code = match store.get_blob(digest) {
        Ok(b) => b,
        Err(e) => {
            assert(blob_fails::<AirNode, S>(*store, code_digest(*hash), e));
            return Err(KernelError::Store(e));
        },
    };
    let made = runtime.prepare(&code);
    assert(call_ensures(R::prepare, (runtime, &code), made));
    assert(code_prepared(runtime, code@, made));
    match made {
        Ok(m) => Ok(m),
        Err(t) => Err(KernelError::Wasm(t)),
    }
}

/// Whether a result is what the runtime says of an export of a module.
pub open spec fn ran_by<R: WasmRuntime>(
    runtime: &R,
    module: R::Module,
    export: Seq<char>,
    input: &R::Input,
    r: Result<R::Output, KernelError>,
) -> bool {
    exists|x: &str, told: Result<R::Output, String>|
        x@ == export && #[trigger] call_ensures(R::run, (runtime, &module, x, input), told) && match (
            r,
            told,
        ) {
            (Ok(a), Ok(b)) => a == b,
            (Err(KernelError::Wasm(t)), Err(u)) => t == u,
            _ => false,
        }
}

/// Runs an export of a module.
pub fn run_export<R: WasmRuntime>(
    runtime: &R,
    module: &R::Module,
    export: &str,
    input: &R::Input,
) -> (r: Result<R::Output, KernelError>)
    ensures
        ran_by(runtime, *module, export@, input, r),
{
    let told = runtime.run(module, export, input);
    let ghost answer = told;
    let r = match told {
        Ok(x) => Ok(x),
        Err(t) => Err(KernelError::Wasm(t)),
    };
    assert(call_ensures(R::run, (runtime, module, export, input), answer));
    r
}

/// A module that is ready to run, with the digest of its code.
#[derive(Debug)]
pub struct ReadyModule<M> {
    pub wasm_hash: String,
    pub module: M,
}

/// Whether a module is what the runtime makes of the code of a digest.
pub open spec fn is_ready_from<S: Store<AirNode>, R: WasmRuntime>(
    store: S,
    runtime: &R,
    hash: HashRef,
    m: ReadyModule<R::Module>,
) -> bool {
    m.wasm_hash@ == hash@ && prepared(
        store,
        runtime,
        code_digest(hash),
        Ok::<R::Module, KernelError>(m.module),
    )
}

/// Whether a module has been made ready under a name from the code of a digest.
pub open spec fn made_ready<S: Store<AirNode>, R: WasmRuntime>(
    store: S,
    runtime: &R,
    hash: HashRef,
    before: Map<Seq<char>, ReadyModule<R::Module>>,
    after: Map<Seq<char>, ReadyModule<R::Module>>,
    name: Seq<char>,
) -> bool {
    exists|m: ReadyModule<R::Module>| #[trigger]
        is_ready_from(store, runtime, hash, m) && after == before.insert(name, m)
}

/// The modules that are ready to run, by name.
#[derive(Debug)]
pub struct ModuleTable<M> {
    modules: NameMap<ReadyModule<M>>,
}

impl<M> ModuleTable<M> {
    /// The modules that are ready.
    pub closed spec fn ready(&self) -> Map<Seq<char>, ReadyModule<M>> {
        self.modules.map()
    }

    /// Whether a module is ready with the code of this digest.
    pub open spec fn has(&self, name: Seq<char>, wasm_hash: Seq<char>) -> bool {
        self.ready().contains_key(name) && self.ready()[name].wasm_hash@ == wasm_hash
    }

    pub fn new() -> (r: Self)
        ensures
            r.ready() == Map::<Seq<char>, ReadyModule<M>>::empty(),
    {
        ModuleTable { modules: NameMap::new() }
    }

    /// Gets a module ready, unless it is ready with the same code. The digest of its code is
    /// returned. Where that fails nothing changes.
    pub fn ensure_loaded<S: Store<AirNode>, R: WasmRuntime<Module = M>>(
        &mut self,
        store: &S,
        runtime: &R,
        name: &str,
        module_def: &DefModule,
    ) -> (r: Result<String, KernelError>)
        ensures
            match module_def.runtime {
                ModuleRuntime::Wasm { hash } => if old(self).has(name@, hash@) {
                    r matches Ok(h) && h@ == hash@ && final(self).ready() == old(self).ready()
                } else {
                    match r {
                        Ok(h) => h@ == hash@ && made_ready(
                            *store,
                            runtime,
                            hash,
                            old(self).ready(),
                            final(self).ready(),
                            name@,
                        ),
                        Err(e) => prepared(
                            *store,
                            runtime,
                            code_digest(hash),
                            Err::<R::Module, KernelError>(e),
                        ) && final(self).ready() == old(self).ready(),
                    }
                },
                _ => r matches Err(e) && is_manifest_error(e, not_wasm(name@))
                    && final(self).ready() == old(self).ready(),
            },
    {
        let hash = match wasm_hash_ref(name, module_def) {
            Ok(h) => h,
            Err(e) => {
                return Err(e);
            },
        };
        if let Some(existing) = self.modules.get(name) {
            if str_eq(existing.wasm_hash.as_str(), hash.as_str()) {
                return Ok(existing.wasm_hash.clone());
            }
        }
        let module = match prepare_code(store, runtime, hash) {
            Ok(m) => m,
            Err(e) => {
                return Err(e);
            },
        };
        let wasm_hash = hash.as_str().to_owned();
        let ready = ReadyModule { wasm_hash: wasm_hash.clone(), module };
        let ghost before = self.modules.map();
        self.modules.insert(name.to_owned(), ready);
        assert(self.ready() == before.insert(name@, ready));
        assert(is_ready_from(*store, runtime, *hash, ready));
        Ok(wasm_hash)
    }

    /// The module of a name.
    pub fn get(&self, name: &str) -> (r: Option<&ReadyModule<M>>)
        ensures
            match r {
                Some(m) => self.ready().contains_key(name@) && self.ready()[name@] == *m,
                None => !self.ready().contains_key(name@),
            },
    {
        self.modules.get(name)
    }
}

/// A module that is made ready is the one that the runtime made of the code which the store holds
/// under its digest; the others stay as they are.
pub proof fn lemma_ready_module_is_of_its_code<S: Store<AirNode>, R: WasmRuntime>(
    store: S,
    runtime: &R,
    hash: HashRef,
    before: Map<Seq<char>, ReadyModule<R::Module>>,
    after: Map<Seq<char>, ReadyModule<R::Module>>,
    name: Seq<char>,
)
    requires
        made_ready(store, runtime, hash, before, after, name),
    ensures
        after.contains_key(name),
        after[name].wasm_hash@ == hash@,
        store.blobs().contains_key(hex_bytes(hash@.skip(7))),
        exists|c: &Vec<u8>|
            c@ == store.blobs()[hex_bytes(hash@.skip(7))] && #[trigger] call_ensures(
                R::prepare,
                (runtime, c),
                Ok::<R::Module, String>(after[name].module),
            ),
        forall|other: Seq<char>|
            other != name ==> (#[trigger] after.contains_key(other) <==> before.contains_key(other))
                && (before.contains_key(other) ==> after[other] == before[other]),
{
}

} // verus!
