//! A wall-clock tracer for named spans: `start` records when a span began,
//! `stop` returns how long it ran. The clock itself stays outside; callers
//! pass the current time in nanoseconds.

use vstd::prelude::*;
use crate::smap::StrMap;

verus! {

/// The open spans, each under its name with its start time.
pub struct ImplTracer {
    starter: StrMap<u64>,
}

impl ImplTracer {
    /// The start times by span name.
    pub closed spec fn spans(&self) -> Map<Seq<char>, u64> {
        self.starter@
    }

    pub closed spec fn wf(&self) -> bool {
        self.starter.wf()
    }

    /// Open a span: a span of the same name restarts.
    pub fn start(&mut self, name: String, now_nanos: u64)
        requires
            old(self).wf(),
        ensures
            final(self).wf(),
            final(self).spans() == old(self).spans().insert(name@, now_nanos),
    {
        self.starter.insert(name, now_nanos);
    }

    /// Whether a span of this name is open.
    pub fn is_open(&self, name: &String) -> (b: bool)
        requires
            self.wf(),
        ensures
            b == self.spans().contains_key(name@),
    {
        self.starter.contains_key(name)
    }

    /// When the named span began.
    pub fn started_at(&self, name: &String) -> (t: u64)
        requires
            self.wf(),
            self.spans().contains_key(name@),
        ensures
            t == self.spans()[name@],
    {
        match self.starter.get(name) {
            Some(t) => *t,
            None => 0,
        }
    }

    /// Close a span and return how long it was open.
    pub fn stop(&mut self, name: &String, now_nanos: u64) -> (elapsed: u64)
        requires
            old(self).wf(),
            old(self).spans().contains_key(name@),
            now_nanos >= old(self).spans()[name@],
        ensures
            final(self).wf(),
            final(self).spans() == old(self).spans().remove(name@),
            elapsed == now_nanos - old(self).spans()[name@],
    {
        let begun = self.started_at(name);
        self.starter.remove(name);
        now_nanos - begun
    }
}

/// A tracer handle, as handed to the scripting layer.
pub struct TracerUserData {
    pub tracer: ImplTracer,
}

/// A fresh tracer with no open spans.
pub fn new() -> (t: TracerUserData)
    ensures
        t.tracer.wf(),
        t.tracer.spans() == Map::<Seq<char>, u64>::empty(),
{
    TracerUserData { tracer: ImplTracer { starter: StrMap::new() } }
}

} // verus!
