//! A first-in, first-out queue of indexing tasks.

use vstd::prelude::*;

verus! {

/// What a file-system change did.
#[derive(Clone, Copy, Debug, PartialEq, Eq, Structural)]
pub enum ChangeType {
    Added,
    Modified,
    Removed,
}

/// A change to one path.
#[derive(Clone, Debug)]
pub struct ChangeEvent {
    pub event_type: ChangeType,
    pub path: String,
}

/// A unit of indexing work.
#[derive(Clone, Debug)]
pub enum IndexTask {
    FullRebuild,
    ScanDirectory { path: String },
    ScanAllVolumes,
    IncrementalUpdate { events: Vec<ChangeEvent> },
}

/// A change reported by the file-system watcher.
#[derive(Clone, Debug)]
pub enum WatchEvent {
    Created(String),
    Modified(String),
    Removed(String),
    Renamed { from: String, to: String },
}

/// Pending tasks, served in the order they were enqueued.
pub struct Scheduler {
    pending_tasks: Vec<IndexTask>,
}

impl View for Scheduler {
    type V = Seq<IndexTask>;

    closed spec fn view(&self) -> Seq<IndexTask> {
        self.pending_tasks@
    }
}

/// Tasks come out in the order they went in: enqueuing onto a queue and
/// taking the first gives the first of the queue, or the new task when the
/// queue was empty.
pub proof fn lemma_fifo(q: Seq<IndexTask>, t: IndexTask)
    ensures
        q.push(t)[0] == (if q.len() == 0 { t } else { q[0] }),
        q.push(t).drop_first() == (if q.len() == 0 { Seq::<IndexTask>::empty() } else { q.drop_first().push(t) }),
{
    if q.len() == 0 {
        assert(q.push(t).drop_first() =~= Seq::<IndexTask>::empty());
    } else {
        assert(q.push(t).drop_first() =~= q.drop_first().push(t));
    }
}

impl Scheduler {
    /// An empty queue.
    pub fn new() -> (r: Self)
        ensures
            r@ == Seq::<IndexTask>::empty(),
    {
        Scheduler { pending_tasks: Vec::new() }
    }

    /// Adds a task at the back.
    pub fn enqueue(&mut self, task: IndexTask)
        ensures
            final(self)@ == old(self)@.push(task),
    {
        self.pending_tasks.push(task);
    }

    /// Takes the task at the front, if any.
    pub fn next_task(&mut self) -> (r: Option<IndexTask>)
        ensures
            old(self)@.len() == 0 ==> r is None && final(self)@ == old(self)@,
            old(self)@.len() > 0 ==> r == Some(old(self)@[0]) && final(self)@ == old(self)@.drop_first(),
    {
        if self.pending_tasks.len() == 0 {
            None
        } else {
            let t = self.pending_tasks.remove(0);
            assert(self@ =~= old(self)@.drop_first());
            Some(t)
        }
    }

    /// The number of pending tasks.
    pub fn pending_count(&self) -> (r: usize)
        ensures
            r == self@.len(),
    {
        self.pending_tasks.len()
    }

    /// Drops every pending task.
    pub fn clear(&mut self)
        ensures
            final(self)@ == Seq::<IndexTask>::empty(),
    {
        self.pending_tasks.clear();
    }
}

impl Default for Scheduler {
    /// An empty queue.
    fn default() -> (r: Self)
        ensures
            r@ == Seq::<IndexTask>::empty(),
    {
        Scheduler::new()
    }
}

} // verus!
