//! The queue of work of the kernel.
use std::collections::VecDeque;
use vstd::prelude::*;

use crate::event::ReducerEvent;

verus! {

/// A piece of work.
#[derive(Debug)]
pub enum Task {
    Reducer(ReducerEvent),
}

/// The work that waits, first come first served, and the next number for a plan.
#[derive(Debug)]
pub struct Scheduler {
    reducer_queue: VecDeque<ReducerEvent>,
    next_plan_id: u64,
}

impl Scheduler {
    /// The events that wait, in order.
    pub closed spec fn queue(&self) -> Seq<ReducerEvent> {
        self.reducer_queue@
    }

    pub closed spec fn next_id(&self) -> u64 {
        self.next_plan_id
    }

    /// A scheduler without work.
    pub fn new() -> (r: Self)
        ensures
            r.queue() == Seq::<ReducerEvent>::empty(),
            r.next_id() == 0,
    {
        Scheduler { reducer_queue: VecDeque::new(), next_plan_id: 0 }
    }

    pub fn push_reducer(&mut self, event: ReducerEvent)
        ensures
            final(self).queue() == old(self).queue().push(event),
            final(self).next_id() == old(self).next_id(),
    {
        self.reducer_queue.push_back(event);
    }

    /// Plans are not queued: nothing happens.
    pub fn push_plan(&mut self, instance_id: u64)
        ensures
            *final(self) == *old(self),
    {
    }

    /// The event that has waited longest.
    pub fn pop(&mut self) -> (r: Option<Task>)
        ensures
            match r {
                Some(Task::Reducer(e)) => old(self).queue().len() > 0 && e == old(self).queue()[0]
                    && final(self).queue() == old(self).queue().drop_first(),
                None => old(self).queue().len() == 0 && final(self).queue() == old(self).queue(),
            },
            final(self).next_id() == old(self).next_id(),
    {
        let ghost before = self.reducer_queue@;
        match self.reducer_queue.pop_front() {
            Some(e) => {
                assert(self.reducer_queue@ =~= before.drop_first());
                Some(Task::Reducer(e))
            },
            None => None,
        }
    }

    /// A number for a plan. The numbers must not have run out.
    pub fn alloc_plan_id(&mut self) -> (r: u64)
        requires
            old(self).next_id() < u64::MAX,
        ensures
            r == old(self).next_id(),
            final(self).next_id() == old(self).next_id() + 1,
            final(self).queue() == old(self).queue(),
    {
        let id: u64 = self.next_plan_id;
        self.next_plan_id = id + 1;
        id
    }

    pub fn is_empty(&self) -> (r: bool)
        ensures
            r == (self.queue().len() == 0),
    {
        self.reducer_queue.len() == 0
    }

    /// Drops the work that waits; the numbers of plans go on.
    pub fn clear(&mut self)
        ensures
            final(self).queue() == Seq::<ReducerEvent>::empty(),
            final(self).next_id() == old(self).next_id(),
    {
        self.reducer_queue.clear();
    }

    pub fn set_next_plan_id(&mut self, next: u64)
        ensures
            final(self).next_id() == next,
            final(self).queue() == old(self).queue(),
    {
        self.next_plan_id = next;
    }

    pub fn next_plan_id(&self) -> (r: u64)
        ensures
            r == self.next_id(),
    {
        self.next_plan_id
    }
}

} // verus!
