//! Reducers.
use vstd::prelude::*;

use crate::air::AirNode;
use crate::error::{is_manifest_error, KernelError};
use crate::module_runtime::{code_digest, not_wasm, prepare_code, prepared, ran_by, run_export,
    wasm_hash_ref, DefModule, ModuleRuntime, WasmRuntime};
use crate::names::NameMap;
use crate::store::Store;

verus! {

/// The reducers that are ready to run.
#[derive(Debug)]
pub struct ReducerRegistry<M> {
    modules: NameMap<M>,
}

impl<M> ReducerRegistry<M> {
    /// The reducers that are ready.
    pub closed spec fn ready(&self) -> Map<Seq<char>, M> {
        self.modules.map()
    }

    pub fn new() -> (r: Self)
        ensures
            r.ready() == Map::<Seq<char>, M>::empty(),
    {
        ReducerRegistry { modules: NameMap::new() }
    }

    /// Gets a reducer ready, unless one of its name is. Where that fails nothing changes.
    pub fn ensure_loaded<S: Store<AirNode>, R: WasmRuntime<Module = M>>(
        &mut self,
        store: &S,
        runtime: &R,
        name: &str,
        module_def: &DefModule,
    ) -> (r: Result<(), KernelError>)
        ensures
            if old(self).ready().contains_key(name@) {
                r is Ok && final(self).ready() == old(self).ready()
            } else {
                match (r, module_def.runtime) {
                    (Ok(_), ModuleRuntime::Wasm { hash }) => exists|m: M| #[trigger]
                        prepared(
                            *store,
                            runtime,
                            code_digest(hash),
                            Ok::<R::Module, KernelError>(m),
                        ) && final(self).ready() == old(self).ready().insert(name@, m),
                    (Err(e), ModuleRuntime::Wasm { hash }) => prepared(
                        *store,
                        runtime,
                        code_digest(hash),
                        Err::<R::Module, KernelError>(e),
                    ) && final(self).ready() == old(self).ready(),
                    (Ok(_), _) => false,
                    (Err(e), _) => is_manifest_error(e, not_wasm(name@)) && final(self).ready()
                        == old(self).ready(),
                }
            },
    {
        if self.modules.contains_key(name) {
            return Ok(());
        }
        let hash = match wasm_hash_ref(name, module_def) {
            Ok(h) => h,
            Err(e) => {
                return Err(e);
            },
        };
        match prepare_code(store, runtime, hash) {
            Ok(m) => {
                let ghost before = self.modules.map();
                self.modules.insert(name.to_owned(), m);
                assert(self.ready() == before.insert(name@, m));
                assert(prepared(
                    *store,
                    runtime,
                    code_digest(*hash),
                    Ok::<R::Module, KernelError>(m),
                ));
                Ok(())
            },
            Err(e) => Err(e),
        }
    }

    /// Runs a reducer.
    pub fn invoke<R: WasmRuntime<Module = M>>(&self, runtime: &R, name: &str, input: &R::Input) -> (r: Result<
        R::Output,
        KernelError,
    >)
        ensures
            if self.ready().contains_key(name@) {
                ran_by(runtime, self.ready()[name@], "step"@, input, r)
            } else {
                r matches Err(KernelError::ReducerNotFound(n)) && n@ == name@
            },
    {
        match self.modules.get(name) {
            None => Err(KernelError::ReducerNotFound(name.to_owned())),
            Some(m) => run_export(runtime, m, "step", input),
        }
    }
}

} // verus!
