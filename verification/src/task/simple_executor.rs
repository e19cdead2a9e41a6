//! The turns of a simple executor: the tasks wait in a queue, the first one
//! is polled, and a task that is not done yet goes to the back of the queue.

use std::collections::VecDeque;
use vstd::prelude::*;

verus! {

/// The queue of a simple executor, for tasks of any type. Such an executor
/// polls its tasks in turn, whether they can make progress or not.
pub struct SimpleExecutor<T> {
    /// Queue of pending tasks
    task_queue: VecDeque<T>,
}

impl<T> View for SimpleExecutor<T> {
    type V = Seq<T>;

    /// The pending tasks, the next one first.
    closed spec fn view(&self) -> Seq<T> {
        self.task_queue@
    }
}

impl<T> SimpleExecutor<T> {
    /// An executor with no pending tasks.
    pub fn new() -> (r: Self)
        ensures
            r@ == Seq::<T>::empty(),
    {
        SimpleExecutor { task_queue: VecDeque::new() }
    }

    /// Puts a new task at the back of the queue.
    pub fn spawn(&mut self, task: T)
        ensures
            final(self)@ == old(self)@.push(task),
    {
        self.task_queue.push_back(task)
    }

    /// Takes the task whose turn it is out of the queue: the first one.
    /// `None` when no task is pending.
    pub fn next_task(&mut self) -> (r: Option<T>)
        ensures
            match r {
                Some(task) => old(self)@.len() > 0 && task == old(self)@[0] && final(self)@ == old(
                    self,
                )@.skip(1),
                None => old(self)@.len() == 0 && final(self)@ == old(self)@,
            },
    {
        let r = self.task_queue.pop_front();
        proof {
            if r.is_some() {
                assert(self@ =~= old(self)@.skip(1));
            }
        }
        r
    }

    /// Settles what becomes of a task that has had its turn: a task that is
    /// still pending goes to the back of the queue, one that is done is
    /// dropped.
    pub fn settle(&mut self, task: T, pending: bool)
        ensures
            final(self)@ == (if pending {
                old(self)@.push(task)
            } else {
                old(self)@
            }),
    {
        if pending {
            self.task_queue.push_back(task);
        }
    }

    /// The number of pending tasks.
    pub fn len(&self) -> (r: usize)
        ensures
            r == self@.len(),
    {
        self.task_queue.len()
    }
}

impl<T> Default for SimpleExecutor<T> {
    fn default() -> (r: Self)
        ensures
            r@ == Seq::<T>::empty(),
    {
        Self::new()
    }
}

/// Round robin. Where every task is still pending after its turn, the tasks
/// keep their order: after as many turns as there are tasks, the queue is as
/// it was.
pub proof fn lemma_round_robin<T>(queue: Seq<T>, turns: int)
    requires
        0 <= turns <= queue.len(),
    ensures
        rotate(queue, turns) == queue.skip(turns) + queue.take(turns),
        turns == queue.len() ==> rotate(queue, turns) == queue,
    decreases turns,
{
    if turns > 0 {
        lemma_round_robin(queue, turns - 1);
        let before = rotate(queue, turns - 1);
        assert(before.skip(1).push(before[0]) =~= queue.skip(turns) + queue.take(turns));
    } else {
        assert(queue.skip(0) + queue.take(0) =~= queue);
    }
    if turns == queue.len() {
        assert(queue.skip(turns) + queue.take(turns) =~= queue);
    }
}

/// The queue after `turns` turns in each of which the task was still pending.
pub open spec fn rotate<T>(queue: Seq<T>, turns: int) -> Seq<T>
    decreases turns,
{
    if turns <= 0 || queue.len() == 0 {
        queue
    } else {
        let before = rotate(queue, turns - 1);
        before.skip(1).push(before[0])
    }
}

} // verus!
