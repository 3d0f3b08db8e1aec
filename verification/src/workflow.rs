//! Workflows.
use vstd::prelude::*;

use crate::air::AirNode;
use crate::error::{is_manifest_error, KernelError};
use crate::module_runtime::{code_digest, made_ready, prepared, ran_by, run_export, DefModule,
    ModuleRuntime, ModuleTable, ReadyModule, WasmRuntime};
use crate::names::NameMap;
use crate::store::Store;
use crate::text::{join3, join5, str_eq};

verus! {

/// What runs a workflow that is loaded.
#[derive(Debug)]
pub enum LoadedWorkflowRuntime {
    Wasm { wasm_hash: String },
    Builtin,
}

/// A workflow that is loaded.
#[derive(Debug)]
pub struct LoadedWorkflow {
    pub module_name: String,
    pub runtime: LoadedWorkflowRuntime,
}

/// The model of a loaded workflow: the module, and the digest of its code unless it is built in.
pub type WorkflowView = (Seq<char>, Option<Seq<char>>);

impl View for LoadedWorkflow {
    type V = WorkflowView;

    open spec fn view(&self) -> WorkflowView {
        (
            self.module_name@,
            match self.runtime {
                LoadedWorkflowRuntime::Wasm { wasm_hash } => Some(wasm_hash@),
                LoadedWorkflowRuntime::Builtin => None,
            },
        )
    }
}

/// The workflows that are loaded, and the modules of those in WebAssembly.
#[derive(Debug)]
pub struct WorkflowRegistry<M> {
    wasm: ModuleTable<M>,
    workflows: NameMap<LoadedWorkflow>,
}

pub open spec fn workflows_view(m: Map<Seq<char>, LoadedWorkflow>) -> Map<
    Seq<char>,
    WorkflowView,
> {
    m.map_values(|w: LoadedWorkflow| w@)
}

/// The text of the error for a runtime that cannot run workflows.
pub open spec fn python_refused(module: Seq<char>) -> Seq<char> {
    "workflow module '"@ + module + "' uses unsupported python runtime"@
}

/// The text of the error for an export of a built-in workflow.
pub open spec fn builtin_refused(module: Seq<char>, entrypoint: Seq<char>) -> Seq<char> {
    "builtin workflow module '"@ + module + "' entrypoint '"@ + entrypoint
        + "' is not implemented"@
}

impl<M> WorkflowRegistry<M> {
    /// The workflows that are loaded.
    pub closed spec fn loaded(&self) -> Map<Seq<char>, WorkflowView> {
        workflows_view(self.workflows.map())
    }

    /// The modules that are ready.
    pub closed spec fn ready(&self) -> Map<Seq<char>, ReadyModule<M>> {
        self.wasm.ready()
    }

    /// Whether a module is ready with the code of this digest.
    pub open spec fn has(&self, name: Seq<char>, wasm_hash: Seq<char>) -> bool {
        self.ready().contains_key(name) && self.ready()[name].wasm_hash@ == wasm_hash
    }

    pub fn new() -> (r: Self)
        ensures
            r.loaded() == Map::<Seq<char>, WorkflowView>::empty(),
            r.ready() == Map::<Seq<char>, ReadyModule<M>>::empty(),
    {
        let r = WorkflowRegistry { wasm: ModuleTable::new(), workflows: NameMap::new() };
        assert(r.loaded() =~= Map::<Seq<char>, WorkflowView>::empty());
        r
    }

    /// Loads a workflow. One in WebAssembly is made ready, unless it is ready with the same code.
    pub fn ensure_loaded<S: Store<AirNode>, R: WasmRuntime<Module = M>>(
        &mut self,
        store: &S,
        runtime: &R,
        workflow_name: &str,
        module_def: &DefModule,
    ) -> (r: Result<(), KernelError>)
        ensures
            match (r, module_def.runtime) {
                (Ok(_), ModuleRuntime::Wasm { hash }) => {
                    &&& final(self).loaded() == old(self).loaded().insert(
                        workflow_name@,
                        (module_def.name@, Some(hash@)),
                    )
                    &&& if old(self).has(workflow_name@, hash@) {
                        final(self).ready() == old(self).ready()
                    } else {
                        made_ready(
                            *store,
                            runtime,
                            hash,
                            old(self).ready(),
                            final(self).ready(),
                            workflow_name@,
                        )
                    }
                },
                (Err(e), ModuleRuntime::Wasm { hash }) => {
                    &&& prepared(
                        *store,
                        runtime,
                        code_digest(hash),
                        Err::<R::Module, KernelError>(e),
                    )
                    &&& !old(self).has(workflow_name@, hash@)
                    &&& final(self).loaded() == old(self).loaded()
                    &&& final(self).ready() == old(self).ready()
                },
                (r, ModuleRuntime::Builtin) => {
                    &&& r is Ok
                    &&& final(self).loaded() == old(self).loaded().insert(
                        workflow_name@,
                        (module_def.name@, None),
                    )
                    &&& final(self).ready() == old(self).ready()
                },
                (r, ModuleRuntime::Python) => {
                    &&& r matches Err(e) && is_manifest_error(e, python_refused(module_def.name@))
                    &&& final(self).loaded() == old(self).loaded()
                    &&& final(self).ready() == old(self).ready()
                },
            },
    {
        let ghost before = self.workflows.map();
        match &module_def.runtime {
            ModuleRuntime::Wasm { hash } => {
                match self.wasm.ensure_loaded(store, runtime, workflow_name, module_def) {
                    Ok(wasm_hash) => {
                        let w = LoadedWorkflow {
                            module_name: module_def.name.clone(),
                            runtime: LoadedWorkflowRuntime::Wasm { wasm_hash },
                        };
                        self.workflows.insert(workflow_name.to_owned(), w);
                        proof {
                            assert(workflows_view(before.insert(workflow_name@, w))
                                =~= workflows_view(before).insert(workflow_name@, w@));
                        }
                        Ok(())
                    },
                    Err(e) => Err(e),
                }
            },
            ModuleRuntime::Builtin => {
                let w = LoadedWorkflow {
                    module_name: module_def.name.clone(),
                    runtime: LoadedWorkflowRuntime::Builtin,
                };
                self.workflows.insert(workflow_name.to_owned(), w);
                proof {
                    assert(workflows_view(before.insert(workflow_name@, w)) =~= workflows_view(
                        before,
                    ).insert(workflow_name@, w@));
                }
                Ok(())
            },
            ModuleRuntime::Python => Err(
                KernelError::Manifest(
                    join3(
                        "workflow module '",
                        module_def.name.as_str(),
                        "' uses unsupported python runtime",
                    ),
                ),
            ),
        }
    }

    /// Runs the step of a workflow.
    pub fn invoke<R: WasmRuntime<Module = M>>(
        &self,
        runtime: &R,
        workflow_name: &str,
        input: &R::Input,
    ) -> (r: Result<R::Output, KernelError>)
        ensures
            invoked(r, runtime, self.loaded(), self.ready(), workflow_name@, "step"@, input),
    {
        self.invoke_export(runtime, workflow_name, "step", input)
    }

    /// Runs an export of a workflow.
    pub fn invoke_export<R: WasmRuntime<Module = M>>(
        &self,
        runtime: &R,
        workflow_name: &str,
        export_name: &str,
        input: &R::Input,
    ) -> (r: Result<R::Output, KernelError>)
        ensures
            invoked(
                r,
                runtime,
                self.loaded(),
                self.ready(),
                workflow_name@,
                export_name@,
                input,
            ),
    {
        match self.workflows.get(workflow_name) {
            None => Err(KernelError::WorkflowNotFound(workflow_name.to_owned())),
            Some(w) => match &w.runtime {
                LoadedWorkflowRuntime::Wasm { wasm_hash } => match self.wasm.get(workflow_name) {
                    None => Err(KernelError::WorkflowNotFound(workflow_name.to_owned())),
                    Some(m) => {
                        if !str_eq(m.wasm_hash.as_str(), wasm_hash.as_str()) {
                            return Err(KernelError::WorkflowNotFound(workflow_name.to_owned()));
                        }
                        run_export(runtime, &m.module, export_name, input)
                    },
                },
                LoadedWorkflowRuntime::Builtin => {
                    let head = join5(
                        "builtin workflow module '",
                        w.module_name.as_str(),
                        "' entrypoint '",
                        export_name,
                        "' is not implemented",
                    );
                    Err(KernelError::Manifest(head))
                },
            },
        }
    }
}

/// What running a workflow comes to: a workflow that is not loaded, or whose code is not ready, is
/// not found; built-in ones cannot be run; of the others the result is what the runtime says.
pub open spec fn invoked<R: WasmRuntime>(
    r: Result<R::Output, KernelError>,
    runtime: &R,
    loaded: Map<Seq<char>, WorkflowView>,
    ready: Map<Seq<char>, ReadyModule<R::Module>>,
    name: Seq<char>,
    export: Seq<char>,
    input: &R::Input,
) -> bool {
    let missing = r matches Err(KernelError::WorkflowNotFound(n)) && n@ == name;
    if !loaded.contains_key(name) {
        missing
    } else {
        match loaded[name].1 {
            None => r matches Err(e) && is_manifest_error(
                e,
                builtin_refused(loaded[name].0, export),
            ),
            Some(hash) => if ready.contains_key(name) && ready[name].wasm_hash@ == hash {
                ran_by(runtime, ready[name].module, export, input, r)
            } else {
                missing
            },
        }
    }
}

/// A workflow gives an output only if it is loaded, its code is ready in the version that it was
/// loaded with, and the runtime gave that output for that code, the export and the input.
pub proof fn lemma_output_is_of_the_code<R: WasmRuntime>(
    r: Result<R::Output, KernelError>,
    runtime: &R,
    loaded: Map<Seq<char>, WorkflowView>,
    ready: Map<Seq<char>, ReadyModule<R::Module>>,
    name: Seq<char>,
    export: Seq<char>,
    input: &R::Input,
)
    requires
        invoked(r, runtime, loaded, ready, name, export, input),
    ensures
        r matches Ok(out) ==> {
            &&& loaded.contains_key(name)
            &&& ready.contains_key(name)
            &&& loaded[name].1 == Some(ready[name].wasm_hash@)
            &&& exists|x: &str|
                x@ == export && #[trigger] call_ensures(
                    R::run,
                    (runtime, &ready[name].module, x, input),
                    Ok::<R::Output, String>(out),
                )
        },
        !loaded.contains_key(name) ==> r is Err && (r->Err_0 matches KernelError::WorkflowNotFound(
            n,
        ) && n@ == name),
        loaded.contains_key(name) && loaded[name].1 is None ==> r is Err,
        loaded.contains_key(name) && (loaded[name].1 matches Some(h) && !(ready.contains_key(name)
            && ready[name].wasm_hash@ == h)) ==> r is Err && (
        r->Err_0 matches KernelError::WorkflowNotFound(n) && n@ == name),
{
    if let Ok(out) = r {
        let (x, told) = choose|x: &str, told: Result<R::Output, String>|
            x@ == export && #[trigger] call_ensures(
                R::run,
                (runtime, &ready[name].module, x, input),
                told,
            ) && match (r, told) {
                (Ok(a), Ok(b)) => a == b,
                (Err(KernelError::Wasm(t)), Err(u)) => t == u,
                _ => false,
            };
        assert(told == Ok::<R::Output, String>(out));
    }
}

} // verus!
