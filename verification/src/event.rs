//! Events that enter the kernel.
use vstd::prelude::*;

use crate::plan::DomainEvent;

verus! {

/// What the kernel stamps on an event as it enters.
#[derive(Debug)]
pub struct IngressStamp {
    pub now_ns: u64,
    pub logical_now_ns: u64,
    pub entropy: Vec<u8>,
    pub journal_height: u64,
    pub manifest_hash: String,
}

/// An event for a workflow.
#[derive(Debug)]
pub struct WorkflowEvent {
    pub workflow: String,
    pub event: DomainEvent,
    pub stamp: IngressStamp,
}

/// An event for a reducer.
#[derive(Debug)]
pub struct ReducerEvent {
    pub reducer: String,
    pub event: DomainEvent,
    pub stamp: IngressStamp,
}

/// What the kernel steps through.
#[derive(Debug)]
pub enum KernelEvent {
    Workflow(WorkflowEvent),
}

} // verus!
