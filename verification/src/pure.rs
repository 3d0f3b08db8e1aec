//! Pure modules.
use vstd::prelude::*;

use crate::air::AirNode;
use crate::error::{is_manifest_error, KernelError};
use crate::module_runtime::{code_digest, made_ready, not_wasm, prepared, ran_by, run_export,
    DefModule, ModuleRuntime, ModuleTable, ReadyModule, WasmRuntime};
use crate::store::Store;

verus! {

/// The pure modules that are ready to run.
#[derive(Debug)]
pub struct PureRegistry<M> {
    table: ModuleTable<M>,
}

impl<M> PureRegistry<M> {
    /// The modules that are ready.
    pub closed spec fn ready(&self) -> Map<Seq<char>, ReadyModule<M>> {
        self.table.ready()
    }

    pub open spec fn has(&self, name: Seq<char>, wasm_hash: Seq<char>) -> bool {
        self.ready().contains_key(name) && self.ready()[name].wasm_hash@ == wasm_hash
    }

    pub fn new() -> (r: Self)
        ensures
            r.ready() == Map::<Seq<char>, ReadyModule<M>>::empty(),
    {
        PureRegistry { table: ModuleTable::new() }
    }

    /// Gets a module ready, unless it is ready with the same code. Where that fails nothing
    /// changes.
    pub fn ensure_loaded<S: Store<AirNode>, R: WasmRuntime<Module = M>>(
        &mut self,
        store: &S,
        runtime: &R,
        name: &str,
        module_def: &DefModule,
    ) -> (r: Result<(), KernelError>)
        ensures
            match module_def.runtime {
                ModuleRuntime::Wasm { hash } => if old(self).has(name@, hash@) {
                    r is Ok && final(self).ready() == old(self).ready()
                } else {
                    match r {
                        Ok(_) => made_ready(
                            *store,
                            runtime,
                            hash,
                            old(self).ready(),
                            final(self).ready(),
                            name@,
                        ),
                        Err(e) => prepared(
                            *store,
                            runtime,
                            code_digest(hash),
                            Err::<R::Module, KernelError>(e),
                        ) && final(self).ready() == old(self).ready(),
                    }
                },
                _ => r matches Err(e) && is_manifest_error(e, not_wasm(name@))
                    && final(self).ready() == old(self).ready(),
            },
    {
        match self.table.ensure_loaded(store, runtime, name, module_def) {
            Ok(_) => Ok(()),
            Err(e) => Err(e),
        }
    }

    /// Runs a module.
    pub fn invoke<R: WasmRuntime<Module = M>>(&self, runtime: &R, name: &str, input: &R::Input) -> (r: Result<
        R::Output,
        KernelError,
    >)
        ensures
            if self.ready().contains_key(name@) {
                ran_by(runtime, self.ready()[name@].module, "run"@, input, r)
            } else {
                r matches Err(KernelError::PureNotFound(n)) && n@ == name@
            },
    {
        match self.table.get(name) {
            None => Err(KernelError::PureNotFound(name.to_owned())),
            Some(m) => run_export(runtime, &m.module, "run", input),
        }
    }
}

} // verus!
