//! A registry of keyed background tasks: at most one task runs under a key,
//! and its result is handed out once.
//!
//! The registry holds, for every key that is tracked, the handle of its
//! task. Starting a task and looking at a running one are the caller's:
//! the registry decides whether a task starts, which handle is looked at,
//! and what becomes of the record afterwards.

use vstd::prelude::*;
use vstd::std_specs::cmp::PartialEqSpec;
use crate::equality::lawful_eq;
use crate::table::Table;

verus! {

/// What a poll tells the caller.
pub enum TaskResponse<P, R> {
    /// The task still runs; this is its latest progress.
    Pending(P),
    /// The task has ended with this result.
    Completed(R),
}

/// What was seen of a task whose handle a poll had claimed.
pub enum TaskOutcome<P, R, H> {
    /// It still runs, with this progress; the handle goes back.
    Running(P, H),
    /// It has ended with this result; the handle is spent.
    Finished(R),
}

pub struct TaskManager<K, H> {
    tasks: Table<K, H>,
}

impl<K: PartialEq, H> TaskManager<K, H> {
    pub closed spec fn wf(&self) -> bool {
        self.tasks.wf()
    }

    /// The handle of the task that is tracked under `key`, if one is.
    pub closed spec fn handle_of(&self, key: K) -> Option<H> {
        self.tasks.value_of(key)
    }

    /// A task is tracked under `key`.
    pub open spec fn tracks(&self, key: K) -> bool {
        self.handle_of(key).is_some()
    }

    /// This registry is `before` after a submission under `key`: a task was
    /// started, with the handle `started`, exactly if none was tracked under
    /// `key`, and nothing else has changed.
    pub open spec fn follows_submit(&self, before: Self, key: K, started: Option<H>) -> bool {
        &&& started.is_some() == !before.tracks(key)
        &&& forall|other: K| #[trigger]
            self.handle_of(other) == if started.is_some() && key.eq_spec(&other) {
                started
            } else {
                before.handle_of(other)
            }
    }

    /// A registry that tracks nothing.
    pub fn new() -> (manager: Self)
        ensures
            manager.wf(),
            forall|key: K| !#[trigger] manager.tracks(key),
    {
        TaskManager { tasks: Table::new() }
    }

    /// Starts a task under `key` unless one is tracked there already: then
    /// `start` is not called and the registry stays as it is. Tells whether
    /// the task was started.
    pub fn submit<F: FnOnce() -> H>(&mut self, key: K, start: F) -> (started: bool)
        requires
            old(self).wf(),
            lawful_eq::<K>(),
            !old(self).tracks(key) ==> start.requires(()),
        ensures
            final(self).wf(),
            started == !old(self).tracks(key),
            final(self).tracks(key),
            !started ==> final(self).follows_submit(*old(self), key, None),
            started ==> exists|handle: H|
                start.ensures((), handle) && final(self).follows_submit(
                    *old(self),
                    key,
                    Some(handle),
                ),
    {
        match self.tasks.get(&key) {
            Some(_) => false,
            None => {
                let handle: H = start();
                let ghost started = handle;
                self.tasks.insert(key, handle);
                assert(self.follows_submit(*old(self), key, Some(started)));
                true
            },
        }
    }

    /// Of two submissions under one key, with no poll between them, the
    /// second starts nothing and leaves the registry as the first left it.
    pub proof fn lemma_one_task_per_key(
        first: Self,
        second: Self,
        third: Self,
        key: K,
        started_first: Option<H>,
        started_second: Option<H>,
    )
        requires
            lawful_eq::<K>(),
            second.follows_submit(first, key, started_first),
            third.follows_submit(second, key, started_second),
        ensures
            started_second.is_none(),
            forall|other: K| #[trigger] third.handle_of(other) == second.handle_of(other),
    {
        assert(second.tracks(key)) by {
            assert(key.eq_spec(&key));
        }
    }

    /// The handle of the task under `key`, for a caller that wants to watch
    /// its progress; `None` if no task is tracked there.
    pub fn progress(&self, key: &K) -> (handle: Option<&H>)
        requires
            self.wf(),
            lawful_eq::<K>(),
        ensures
            match handle {
                Some(h) => self.handle_of(*key) == Some(*h),
                None => !self.tracks(*key),
            },
    {
        self.tasks.get(key)
    }

    /// The first half of a poll: takes the record under `key` out of the
    /// registry, for the caller to look at the task. `None` if no task is
    /// tracked there.
    pub fn claim(&mut self, key: &K) -> (record: Option<(K, H)>)
        requires
            old(self).wf(),
            lawful_eq::<K>(),
        ensures
            final(self).wf(),
            match record {
                Some((k, h)) => k.eq_spec(key) && old(self).handle_of(*key) == Some(h),
                None => !old(self).tracks(*key),
            },
            !final(self).tracks(*key),
            forall|other: K| #[trigger]
                final(self).handle_of(other) == if key.eq_spec(&other) {
                    None
                } else {
                    old(self).handle_of(other)
                },
    {
        self.tasks.remove(key)
    }

    /// The second half of a poll, for a record that `claim` handed out: a
    /// task that still runs is tracked again and the caller is told its
    /// progress; the result of one that has ended is handed on, and the key
    /// is tracked no longer.
    pub fn poll<P, R>(&mut self, key: K, outcome: TaskOutcome<P, R, H>) -> (response: TaskResponse<
        P,
        R,
    >)
        requires
            old(self).wf(),
            lawful_eq::<K>(),
        ensures
            final(self).wf(),
            match outcome {
                TaskOutcome::Running(progress, handle) => {
                    &&& response == TaskResponse::<P, R>::Pending(progress)
                    &&& forall|other: K| #[trigger]
                        final(self).handle_of(other) == if key.eq_spec(&other) {
                            Some(handle)
                        } else {
                            old(self).handle_of(other)
                        }
                },
                TaskOutcome::Finished(result) => {
                    &&& response == TaskResponse::<P, R>::Completed(result)
                    &&& forall|other: K| #[trigger]
                        final(self).handle_of(other) == old(self).handle_of(other)
                },
            },
    {
        match outcome {
            TaskOutcome::Running(progress, handle) => {
                self.tasks.insert(key, handle);
                TaskResponse::Pending(progress)
            },
            TaskOutcome::Finished(result) => TaskResponse::Completed(result),
        }
    }
}

} // verus!
