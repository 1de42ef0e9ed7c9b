//! A queue of deferred jobs for the thread that owns the rendering
//! context: work is enqueued from anywhere and executed in order when that
//! thread calls `run`. The cross-thread signalling around it stays
//! outside; here the queue's order and draining are what is proved.

use vstd::prelude::*;

verus! {

/// One deferred job.
pub trait Task {
    fn call(&mut self);
}

/// The job queue.
pub struct Pump<T: Task> {
    queue: Vec<T>,
}

impl<T: Task> Pump<T> {
    /// The queued jobs, oldest first.
    pub closed spec fn jobs(&self) -> Seq<T> {
        self.queue@
    }

    /// An empty pump.
    pub fn new() -> (p: Self)
        ensures
            p.jobs() == Seq::<T>::empty(),
    {
        Pump { queue: Vec::new() }
    }

    /// Enqueue one job for the owning thread to execute.
    pub fn exec(&mut self, func: T)
        ensures
            final(self).jobs() == old(self).jobs().push(func),
    {
        self.queue.push(func);
    }

    /// Execute every queued job, oldest first, and empty the queue.
    /// Returns how many jobs ran.
    pub fn run(&mut self) -> (n: usize)
        ensures
            final(self).jobs() == Seq::<T>::empty(),
            n == old(self).jobs().len(),
    {
        let total = self.queue.len();
        let mut done: usize = 0;
        while done < total
            invariant
                done <= total,
                self.queue@.len() + done == total,
            decreases total - done,
        {
            let mut job = self.queue.remove(0);
            job.call();
            done = done + 1;
        }
        done
    }
}

} // verus!
