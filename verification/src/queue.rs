//! The task queue: tasks are scheduled, claimed when due, and finished.

use std::time::{Duration, SystemTime};

use serde_json::Value;
use vstd::prelude::*;

use crate::clock;
use crate::error::Error;
use crate::key::{Key, KeyModel, Scope};
use crate::segment::SegmentBuf;
use crate::select;
use crate::store;
use crate::store::{Answer, Answered, KeyValueStore, KeyValueStoreBackend, Request};
use crate::task;
use crate::task::{
    FinishedModel, FinishedTask, PendingModel, PendingTask, RunningModel, RunningTask, StateModel,
    Task, TaskState,
};

verus! {

/// The keys of the entries in a scope.
pub open spec fn keys_in(entries: Map<KeyModel, Value>, scope: Seq<Seq<char>>) -> Set<KeyModel> {
    entries.dom().filter(|key: KeyModel| key.scope == scope)
}

/// The entries after a task was scheduled in place of an existing one, if there was one.
pub open spec fn scheduled(
    entries: Map<KeyModel, Value>,
    existing: Option<PendingModel>,
    task: PendingModel,
    value: Value,
) -> Map<KeyModel, Value> {
    match existing {
        Some(old_task) => entries.remove(old_task.key()).insert(task.key(), value),
        None => entries.insert(task.key(), value),
    }
}

/// Whether the entries are as they were, and nothing was asked of the store.
pub open spec fn untouched(
    before: Map<KeyModel, Value>,
    after: Map<KeyModel, Value>,
    made: Seq<Answered>,
) -> bool {
    after == before && made.len() == 0
}

/// Whether the store was asked to list a scope, refused to with this error, and was asked nothing
/// more.
pub open spec fn listing_refused(
    before: Map<KeyModel, Value>,
    after: Map<KeyModel, Value>,
    scope: Seq<Seq<char>>,
    refusals: Set<Error>,
    made: Seq<Answered>,
    error: Error,
) -> bool {
    &&& after == before
    &&& made == seq![Answered { request: Request::List { scope }, reply: Err(error) }]
    &&& refusals.contains(error)
}

/// Whether the first request was to list a scope, and was answered with these keys of it.
pub open spec fn lists_first(
    entries: Map<KeyModel, Value>,
    scope: Seq<Seq<char>>,
    made: Seq<Answered>,
    keys: Seq<KeyModel>,
) -> bool {
    &&& store::is_listing(keys, entries, scope)
    &&& made.len() > 0
    &&& made[0] == store::listing(scope, keys)
}

/// What scheduling a task does, and asks after the listing, given the existing task of its name.
///
/// An existing task is first moved to its new time and then given its new value. If the store
/// fails in between, the task is left with its new time and its old value.
pub open spec fn schedule_effect(
    before: Map<KeyModel, Value>,
    after: Map<KeyModel, Value>,
    existing: Option<PendingModel>,
    task: PendingModel,
    value: Value,
    refusals: Set<Error>,
    made: Seq<Answered>,
    result: Result<(), Error>,
) -> bool {
    let stored = Answered {
        request: Request::Store { key: task.key(), value },
        reply: store::done(result),
    };
    match existing {
        None => {
            &&& made == seq![stored]
            &&& match result {
                Ok(()) => after == scheduled(before, existing, task, value),
                Err(error) => after == before && refusals.contains(error),
            }
        },
        Some(old_task) => {
            let moving = Request::Move { from: old_task.key(), to: task.key() };
            ||| {
                &&& made == seq![Answered { request: moving, reply: store::done(result) }]
                &&& after == before
                &&& result matches Err(error) && (refusals.contains(error) || (error
                    == Error::UnknownKey && !before.contains_key(old_task.key())))
            }
            ||| {
                &&& made == seq![Answered { request: moving, reply: Ok(Answer::Done) }, stored]
                &&& before.contains_key(old_task.key())
                &&& match result {
                    Ok(()) => after == scheduled(before, existing, task, value),
                    Err(error) => {
                        &&& refusals.contains(error)
                        &&& after == store::moved(before, old_task.key(), task.key())
                    },
                }
            }
        },
    }
}

/// What scheduling a task may do: the existing task of its name is the first that is listed.
pub open spec fn schedule_outcome(
    before: Map<KeyModel, Value>,
    after: Map<KeyModel, Value>,
    task: PendingModel,
    value: Value,
    refusals: Set<Error>,
    made: Seq<Answered>,
    result: Result<(), Error>,
) -> bool {
    ||| result matches Err(error) && listing_refused(
        before,
        after,
        task::pending_scope(),
        refusals,
        made,
        error,
    )
    ||| exists|keys: Seq<KeyModel>, existing: Option<PendingModel>|
        {
            &&& #[trigger] lists_first(before, task::pending_scope(), made, keys)
            &&& #[trigger] select::is_first_named(keys, task.name, existing)
            &&& schedule_effect(
                before,
                after,
                existing,
                task,
                value,
                refusals,
                made.skip(1),
                result,
            )
        }
}

/// What scheduling a task may do, given the time for it or the lack of one.
pub open spec fn schedule_call(
    before: Map<KeyModel, Value>,
    after: Map<KeyModel, Value>,
    name: Seq<char>,
    value: Value,
    time: Result<u64, Error>,
    refusals: Set<Error>,
    made: Seq<Answered>,
    result: Result<(), Error>,
) -> bool {
    match time {
        Ok(schedule_timestamp) => schedule_outcome(
            before,
            after,
            PendingModel { name, schedule_timestamp },
            value,
            refusals,
            made,
            result,
        ),
        Err(error) => result == Err::<(), Error>(error) && untouched(before, after, made),
    }
}

/// What the number of pending tasks may be found to be.
pub open spec fn count_outcome(
    entries: Map<KeyModel, Value>,
    refusals: Set<Error>,
    made: Seq<Answered>,
    result: Result<usize, Error>,
) -> bool {
    match result {
        Ok(count) => {
            &&& exists|keys: Seq<KeyModel>| #[trigger]
                lists_first(entries, task::pending_scope(), made, keys)
            &&& made.len() == 1
            &&& keys_in(entries, task::pending_scope()).finite()
            &&& count == keys_in(entries, task::pending_scope()).len()
        },
        Err(error) => listing_refused(
            entries,
            entries,
            task::pending_scope(),
            refusals,
            made,
            error,
        ),
    }
}

/// What the scheduled time of the named task may be found to be.
pub open spec fn lookup_outcome(
    entries: Map<KeyModel, Value>,
    name: Seq<char>,
    refusals: Set<Error>,
    made: Seq<Answered>,
    result: Result<Option<u64>, Error>,
) -> bool {
    match result {
        Ok(time) => exists|keys: Seq<KeyModel>, found: Option<PendingModel>|
            {
                &&& #[trigger] lists_first(entries, task::pending_scope(), made, keys)
                &&& #[trigger] select::is_first_named(keys, name, found)
                &&& made.len() == 1
                &&& time == match found {
                    Some(task) => Some(task.schedule_timestamp),
                    None => None,
                }
            },
        Err(error) => listing_refused(
            entries,
            entries,
            task::pending_scope(),
            refusals,
            made,
            error,
        ),
    }
}

/// What claiming does, and asks after the listing, given the next task. A refused read or move
/// ends the claim with that error.
pub open spec fn claim_effect(
    before: Map<KeyModel, Value>,
    after: Map<KeyModel, Value>,
    next: Option<PendingModel>,
    now: u64,
    refusals: Set<Error>,
    made: Seq<Answered>,
    result: Result<Option<Task>, Error>,
) -> bool {
    match next {
        None => result matches Ok(None) && untouched(before, after, made),
        Some(task) => {
            let running = RunningModel { task_name: task, claim_timestamp: now };
            let getting = Request::Get { key: task.key() };
            let moving = Request::Move { from: task.key(), to: running.key() };
            let got = Answered {
                request: getting,
                reply: Ok(Answer::Found(Some(before[task.key()]))),
            };
            match result {
                Ok(Some(claimed)) => {
                    &&& before.contains_key(task.key())
                    &&& made == seq![got, Answered { request: moving, reply: Ok(Answer::Done) }]
                    &&& claimed.state@ == StateModel::Running(running)
                    &&& claimed.value == before[task.key()]
                    &&& after == store::moved(before, task.key(), running.key())
                },
                Ok(None) => {
                    &&& !before.contains_key(task.key())
                    &&& made == seq![
                        Answered { request: getting, reply: Ok(Answer::Found(None)) },
                    ]
                    &&& after == before
                },
                Err(error) => {
                    &&& refusals.contains(error)
                    &&& after == before
                    &&& made == seq![Answered { request: getting, reply: Err(error) }] || (
                    before.contains_key(task.key()) && made == seq![
                        got,
                        Answered { request: moving, reply: Err(error) },
                    ])
                },
            }
        },
    }
}

/// What claiming a task at `now` may do.
pub open spec fn claim_outcome(
    before: Map<KeyModel, Value>,
    after: Map<KeyModel, Value>,
    now: u64,
    refusals: Set<Error>,
    made: Seq<Answered>,
    result: Result<Option<Task>, Error>,
) -> bool {
    ||| result matches Err(error) && listing_refused(
        before,
        after,
        task::pending_scope(),
        refusals,
        made,
        error,
    )
    ||| exists|keys: Seq<KeyModel>, next: Option<PendingModel>|
        {
            &&& #[trigger] lists_first(before, task::pending_scope(), made, keys)
            &&& #[trigger] select::is_next(keys, now, next)
            &&& claim_effect(before, after, next, now, refusals, made.skip(1), result)
        }
}

/// What claiming a task may do, given the time or the lack of one.
pub open spec fn claim_call(
    before: Map<KeyModel, Value>,
    after: Map<KeyModel, Value>,
    time: Result<u64, Error>,
    refusals: Set<Error>,
    made: Seq<Answered>,
    result: Result<Option<Task>, Error>,
) -> bool {
    match time {
        Ok(now) => claim_outcome(before, after, now, refusals, made, result),
        Err(error) => result == Err::<Option<Task>, Error>(error) && untouched(
            before,
            after,
            made,
        ),
    }
}

/// The words with which a task that is not running is refused.
pub open spec fn not_running(segment: Seq<char>) -> Seq<char> {
    "Cannot finish task "@ + segment + ". It is not running."@
}

/// What finishing a task at `now` does.
pub open spec fn finish_outcome(
    before: Map<KeyModel, Value>,
    after: Map<KeyModel, Value>,
    state: StateModel,
    now: u64,
    refusals: Set<Error>,
    made: Seq<Answered>,
    result: Result<(), Error>,
) -> bool {
    match state {
        StateModel::Running(running) => {
            let finished = FinishedModel { name: running.task_name, finish_timestamp: now };
            let moving = Request::Move { from: running.key(), to: finished.key() };
            &&& made == seq![Answered { request: moving, reply: store::done(result) }]
            &&& match result {
                Ok(()) => {
                    &&& before.contains_key(running.key())
                    &&& after == store::moved(before, running.key(), finished.key())
                },
                Err(error) => {
                    &&& after == before
                    &&& refusals.contains(error) || (error == Error::UnknownKey
                        && !before.contains_key(running.key()))
                },
            }
        },
        _ => {
            &&& untouched(before, after, made)
            &&& result matches Err(Error::Other(message)) && message@ == not_running(
                state.segment(),
            )
        },
    }
}

/// What finishing a task does, given the time or the lack of one.
pub open spec fn finish_call(
    before: Map<KeyModel, Value>,
    after: Map<KeyModel, Value>,
    state: StateModel,
    time: Result<u64, Error>,
    refusals: Set<Error>,
    made: Seq<Answered>,
    result: Result<(), Error>,
) -> bool {
    match time {
        Ok(now) => finish_outcome(before, after, state, now, refusals, made, result),
        Err(error) => result == Err::<(), Error>(error) && untouched(before, after, made),
    }
}

/// Whether a request was refused, and not just pointless because its key was missing.
pub open spec fn refused(answered: Answered, refusals: Set<Error>) -> bool {
    answered.reply matches Err(error) && refusals.contains(error)
}

/// Which of the requests were not refused.
pub open spec fn not_refused(made: Seq<Answered>, refusals: Set<Error>) -> Seq<bool> {
    made.map_values(|answered: Answered| !refused(answered, refusals))
}

/// The pending task that a running one becomes again at `now`.
pub open spec fn pending_again(task: RunningModel, now: u64) -> PendingModel {
    PendingModel { name: task.task_name.name, schedule_timestamp: now }
}

/// The entries after those of the tasks for which it was done were made pending again, one after
/// the other. Nothing is done for a task that is not among the entries.
pub open spec fn rescheduled(
    entries: Map<KeyModel, Value>,
    tasks: Seq<RunningModel>,
    now: u64,
    done: Seq<bool>,
) -> Map<KeyModel, Value>
    decreases tasks.len(),
{
    if tasks.len() == 0 {
        entries
    } else {
        let others = rescheduled(entries, tasks.drop_last(), now, done.drop_last());
        let task = tasks.last();
        if done.last() && others.contains_key(task.key()) {
            store::moved(others, task.key(), pending_again(task, now).key())
        } else {
            others
        }
    }
}

/// The request that makes a running task pending again at `now`.
pub open spec fn reschedule_request(task: RunningModel, now: u64) -> Request {
    Request::Move { from: task.key(), to: pending_again(task, now).key() }
}

/// Whether the requests are one for each of the tasks, in their order, to make it pending again.
pub open spec fn reschedules_each(
    made: Seq<Answered>,
    tasks: Seq<RunningModel>,
    now: u64,
) -> bool {
    &&& made.len() == tasks.len()
    &&& forall|i: int|
        0 <= i < made.len() ==> (#[trigger] made[i]).request == reschedule_request(tasks[i], now)
}

/// What rescheduling the tasks that were claimed at `limit` or earlier may do. It asks for each
/// of them, whatever the answers are, and a refusal of one is no failure of the whole.
pub open spec fn reschedule_outcome(
    before: Map<KeyModel, Value>,
    after: Map<KeyModel, Value>,
    now: u64,
    limit: u64,
    refusals: Set<Error>,
    made: Seq<Answered>,
    result: Result<(), Error>,
) -> bool {
    match result {
        Ok(()) => exists|keys: Seq<KeyModel>|
            {
                let tasks = select::timed_out(keys, limit);
                &&& #[trigger] lists_first(before, task::running_scope(), made, keys)
                &&& reschedules_each(made.skip(1), tasks, now)
                &&& after == rescheduled(before, tasks, now, not_refused(made.skip(1), refusals))
            },
        Err(error) => listing_refused(
            before,
            after,
            task::running_scope(),
            refusals,
            made,
            error,
        ),
    }
}

/// What rescheduling may do, given the time and the cutoff, or the lack of them.
pub open spec fn reschedule_call(
    before: Map<KeyModel, Value>,
    after: Map<KeyModel, Value>,
    cutoff: Result<(u64, u64), Error>,
    refusals: Set<Error>,
    made: Seq<Answered>,
    result: Result<(), Error>,
) -> bool {
    match cutoff {
        Ok((now, limit)) => reschedule_outcome(
            before,
            after,
            now,
            limit,
            refusals,
            made,
            result,
        ),
        Err(error) => result == Err::<(), Error>(error) && untouched(before, after, made),
    }
}

/// The entries after those of the tasks for which it was done were removed.
pub open spec fn cleaned(
    entries: Map<KeyModel, Value>,
    tasks: Seq<FinishedModel>,
    done: Seq<bool>,
) -> Map<KeyModel, Value>
    decreases tasks.len(),
{
    if tasks.len() == 0 {
        entries
    } else {
        let others = cleaned(entries, tasks.drop_last(), done.drop_last());
        if done.last() {
            others.remove(tasks.last().key())
        } else {
            others
        }
    }
}

/// Whether the requests are one for each of the tasks, in their order, to remove it.
pub open spec fn removes_each(made: Seq<Answered>, tasks: Seq<FinishedModel>) -> bool {
    &&& made.len() == tasks.len()
    &&& forall|i: int|
        0 <= i < made.len() ==> (#[trigger] made[i]).request == (Request::Delete {
            key: tasks[i].key(),
        })
}

/// What cleaning up the tasks that finished at `limit` or earlier may do. It asks for each of
/// them, whatever the answers are, and a refusal of one is no failure of the whole.
pub open spec fn clean_up_outcome(
    before: Map<KeyModel, Value>,
    after: Map<KeyModel, Value>,
    limit: u64,
    refusals: Set<Error>,
    made: Seq<Answered>,
    result: Result<(), Error>,
) -> bool {
    match result {
        Ok(()) => exists|keys: Seq<KeyModel>|
            {
                let tasks = select::expired(keys, limit);
                &&& #[trigger] lists_first(before, task::finished_scope(), made, keys)
                &&& removes_each(made.skip(1), tasks)
                &&& after == cleaned(before, tasks, not_refused(made.skip(1), refusals))
            },
        Err(error) => listing_refused(
            before,
            after,
            task::finished_scope(),
            refusals,
            made,
            error,
        ),
    }
}

/// What cleaning up may do, given the time and the cutoff, or the lack of them.
pub open spec fn clean_up_call(
    before: Map<KeyModel, Value>,
    after: Map<KeyModel, Value>,
    cutoff: Result<(u64, u64), Error>,
    refusals: Set<Error>,
    made: Seq<Answered>,
    result: Result<(), Error>,
) -> bool {
    match cutoff {
        Ok((now, limit)) => clean_up_outcome(before, after, limit, refusals, made, result),
        Err(error) => result == Err::<(), Error>(error) && untouched(before, after, made),
    }
}

/// What a claim makes of the answer to the read of the task's value: the task that is running
/// since `now`, where there is a value, and nothing where there is none. A refusal is handed on.
pub fn claim_step(got: Result<Option<Value>, Error>, name: PendingTask, now: u64) -> (result:
    Result<Option<Task>, Error>)
    ensures
        match got {
            Ok(Some(value)) => result matches Ok(Some(task)) && task.value == value && task.state@
                == StateModel::Running(
                RunningModel { task_name: name@, claim_timestamp: now },
            ),
            Ok(None) => result matches Ok(None),
            Err(error) => result == Err::<Option<Task>, Error>(error),
        },
{
    match got {
        Ok(Some(value)) => {
            let state = TaskState::Running(RunningTask { task_name: name, claim_timestamp: now });
            Ok(Some(Task { state, value }))
        },
        Ok(None) => Ok(None),
        Err(error) => Err(error),
    }
}

impl<B: KeyValueStoreBackend> KeyValueStore<B> {
    /// Schedules a task for `timestamp`, in place of the pending task of this name, if any.
    ///
    /// A pending task of this name is moved to its new time and then given its new value. It keeps
    /// its old value where the store refuses the new one, and that refusal is the result.
    pub fn schedule_at(&mut self, name: SegmentBuf, value: Value, timestamp: u64) -> (result:
        Result<(), Error>)
        ensures
            schedule_outcome(
                old(self)@,
                final(self)@,
                PendingModel { name: name@, schedule_timestamp: timestamp },
                value,
                old(self).inner.refusals(),
                store::made_since(old(self).inner.requests(), final(self).inner.requests()),
                result,
            ),
            final(self).inner.refusals() == old(self).inner.refusals(),
            old(self).inner.requests().is_prefix_of(final(self).inner.requests()),
    {
        let listed = self.inner.list_keys(&Scope::from_segment(&PendingTask::segment()));
        let ghost earlier = old(self).inner.requests();
        let ghost keys = store::models(listed->Ok_0@);
        let possible_existing = match select::find_pending(listed, &name) {
            Ok(found) => found,
            Err(error) => {
                assert(store::made_since(earlier, self.inner.requests()) =~= seq![
                    self.inner.requests().last(),
                ]);
                return Err(error);
            },
        };
        let ghost existing = select::pending_model(possible_existing);
        let new_task = PendingTask { name, schedule_timestamp: timestamp };
        let new_key: Key = Key::from(TaskState::Pending(new_task));
        if let Some(existing_task) = possible_existing {
            let existing_key: Key = Key::from(TaskState::Pending(existing_task));
            match self.inner.move_value(&existing_key, &new_key) {
                Ok(()) => {},
                Err(error) => {
                    let ghost made = store::made_since(earlier, self.inner.requests());
                    assert(made.skip(1) =~= seq![self.inner.requests().last()]);
                    assert(lists_first(old(self)@, task::pending_scope(), made, keys));
                    assert(schedule_effect(
                        old(self)@,
                        self@,
                        existing,
                        new_task@,
                        value,
                        old(self).inner.refusals(),
                        made.skip(1),
                        Err(error),
                    ));
                    return Err(error);
                },
            }
        }
        let ghost moving = store::made_since(earlier, self.inner.requests());
        let result = self.inner.store(&new_key, value);
        let ghost made = store::made_since(earlier, self.inner.requests());
        assert(made =~= moving.push(self.inner.requests().last()));
        assert(existing is None ==> made.skip(1) =~= seq![made[1]]);
        assert(existing is Some ==> made.skip(1) =~= seq![moving[1], made[2]]);
        assert(result is Ok ==> self@ =~= scheduled(old(self)@, existing, new_task@, value));
        assert(lists_first(old(self)@, task::pending_scope(), made, keys));
        assert(schedule_effect(
            old(self)@,
            self@,
            existing,
            new_task@,
            value,
            old(self).inner.refusals(),
            made.skip(1),
            result,
        ));
        result
    }

    /// Claims the due task with the earliest schedule: it is running from `now` on.
    pub fn claim_at(&mut self, now: u64) -> (result: Result<Option<Task>, Error>)
        ensures
            claim_outcome(
                old(self)@,
                final(self)@,
                now,
                old(self).inner.refusals(),
                store::made_since(old(self).inner.requests(), final(self).inner.requests()),
                result,
            ),
            final(self).inner.refusals() == old(self).inner.refusals(),
            old(self).inner.requests().is_prefix_of(final(self).inner.requests()),
    {
        let listed = self.inner.list_keys(&Scope::from_segment(&PendingTask::segment()));
        let ghost earlier = old(self).inner.requests();
        let ghost refusals = old(self).inner.refusals();
        let ghost keys = store::models(listed->Ok_0@);
        let candidate = match select::next_pending(listed, now) {
            Ok(found) => found,
            Err(error) => {
                assert(store::made_since(earlier, self.inner.requests()) =~= seq![
                    self.inner.requests().last(),
                ]);
                return Err(error);
            },
        };
        let ghost next = select::pending_model(candidate);
        assert(select::is_next(keys, now, next));
        let name = match candidate {
            Some(name) => name,
            None => {
                let ghost made = store::made_since(earlier, self.inner.requests());
                assert(lists_first(old(self)@, task::pending_scope(), made, keys));
                assert(claim_effect(
                    old(self)@,
                    self@,
                    next,
                    now,
                    refusals,
                    made.skip(1),
                    Ok(None),
                ));
                return Ok(None);
            },
        };
        let pending_key: Key = Key::from(TaskState::Pending(name.clone()));
        let got = self.inner.get(&pending_key);
        let ghost made = store::made_since(earlier, self.inner.requests());
        assert(made.skip(1) =~= seq![self.inner.requests().last()]);
        assert(lists_first(old(self)@, task::pending_scope(), made, keys));
        let running_task = match claim_step(got, name, now) {
            Ok(Some(task)) => task,
            Ok(None) => {
                assert(claim_effect(
                    old(self)@,
                    self@,
                    next,
                    now,
                    refusals,
                    made.skip(1),
                    Ok(None),
                ));
                return Ok(None);
            },
            Err(error) => {
                assert(claim_effect(
                    old(self)@,
                    self@,
                    next,
                    now,
                    refusals,
                    made.skip(1),
                    Err(error),
                ));
                return Err(error);
            },
        };
        let running_key: Key = Key::from(running_task.state.clone());
        let result = match self.inner.move_value(&pending_key, &running_key) {
            Ok(()) => Ok(Some(running_task)),
            Err(error) => Err(error),
        };
        let ghost all = store::made_since(earlier, self.inner.requests());
        assert(all.skip(1) =~= seq![made[1], self.inner.requests().last()]);
        assert(lists_first(old(self)@, task::pending_scope(), all, keys));
        assert(claim_effect(old(self)@, self@, next, now, refusals, all.skip(1), result));
        result
    }

    /// Marks a running task as finished at `now`. Fails if the task is not running.
    pub fn finish_at(&mut self, task: Task, now: u64) -> (result: Result<(), Error>)
        ensures
            finish_outcome(
                old(self)@,
                final(self)@,
                task.state@,
                now,
                old(self).inner.refusals(),
                store::made_since(old(self).inner.requests(), final(self).inner.requests()),
                result,
            ),
            final(self).inner.refusals() == old(self).inner.refusals(),
            old(self).inner.requests().is_prefix_of(final(self).inner.requests()),
    {
        let segment = task.name();
        match &task.state {
            TaskState::Running(running) => {
                let finished = TaskState::Finished(
                    FinishedTask { name: running.task_name.clone(), finish_timestamp: now },
                );
                let from_key: Key = Key::from(task.state.clone());
                let to_key: Key = Key::from(finished);
                let result = self.inner.move_value(&from_key, &to_key);
                assert(store::made_since(old(self).inner.requests(), self.inner.requests())
                    =~= seq![self.inner.requests().last()]);
                result
            },
            _ => {
                let mut message = "Cannot finish task ".to_owned();
                message.append(segment.as_str());
                message.append(". It is not running.");
                Err(Error::Other(message))
            },
        }
    }

    /// Makes the tasks that have been running for `timeout` seconds or longer pending again,
    /// scheduled for `now`. Tasks that cannot be moved stay as they are.
    pub fn reschedule_at(&mut self, now: u64, timeout: u64) -> (result: Result<(), Error>)
        requires
            timeout <= now,
        ensures
            reschedule_outcome(
                old(self)@,
                final(self)@,
                now,
                (now - timeout) as u64,
                old(self).inner.refusals(),
                store::made_since(old(self).inner.requests(), final(self).inner.requests()),
                result,
            ),
            final(self).inner.refusals() == old(self).inner.refusals(),
            old(self).inner.requests().is_prefix_of(final(self).inner.requests()),
    {
        let limit: u64 = now - timeout;
        let listed = self.inner.list_keys(&Scope::from_segment(&RunningTask::segment()));
        let ghost earlier = old(self).inner.requests();
        let ghost keys = store::models(listed->Ok_0@);
        let tasks = match select::timed_out_tasks(listed, limit) {
            Ok(tasks) => tasks,
            Err(error) => {
                assert(store::made_since(earlier, self.inner.requests()) =~= seq![
                    self.inner.requests().last(),
                ]);
                return Err(error);
            },
        };
        let ghost all = select::running_models(tasks@);
        let ghost refusals = old(self).inner.refusals();
        let ghost first = store::listing(task::running_scope(), keys);
        let ghost mut made: Seq<Answered> = Seq::empty();
        let mut i: usize = 0;
        while i < tasks.len()
            invariant
                i <= tasks@.len(),
                all == select::running_models(tasks@),
                refusals == old(self).inner.refusals(),
                self.inner.refusals() == refusals,
                self.inner.requests() == earlier.push(first) + made,
                reschedules_each(made, all.take(i as int), now),
                self@ == rescheduled(
                    old(self)@,
                    all.take(i as int),
                    now,
                    not_refused(made, refusals),
                ),
            decreases tasks@.len() - i,
        {
            let running = &tasks[i];
            let pending = PendingTask {
                name: running.task_name.name.clone(),
                schedule_timestamp: now,
            };
            let from_key: Key = Key::from(TaskState::Running(running.clone()));
            let to_key: Key = Key::from(TaskState::Pending(pending));
            let _ = self.inner.move_value(&from_key, &to_key);
            proof {
                let made_so_far = made;
                made = made.push(self.inner.requests().last());
                assert(not_refused(made, refusals).drop_last() =~= not_refused(
                    made_so_far,
                    refusals,
                ));
                assert(all.take(i + 1).drop_last() =~= all.take(i as int));
                assert(all.take(i + 1).last() == running@);
                assert(all.take(i + 1) =~= all.take(i as int).push(running@));
            }
            i = i + 1;
        }
        assert(all.take(tasks@.len() as int) =~= all);
        let ghost asked = store::made_since(earlier, self.inner.requests());
        assert(asked.skip(1) =~= made);
        assert(lists_first(old(self)@, task::running_scope(), asked, keys));
        Ok(())
    }

    /// Removes the tasks that finished `timeout` seconds ago or earlier. Tasks that cannot be
    /// removed stay as they are.
    pub fn clean_up_at(&mut self, now: u64, timeout: u64) -> (result: Result<(), Error>)
        requires
            timeout <= now,
        ensures
            clean_up_outcome(
                old(self)@,
                final(self)@,
                (now - timeout) as u64,
                old(self).inner.refusals(),
                store::made_since(old(self).inner.requests(), final(self).inner.requests()),
                result,
            ),
            final(self).inner.refusals() == old(self).inner.refusals(),
            old(self).inner.requests().is_prefix_of(final(self).inner.requests()),
    {
        let limit: u64 = now - timeout;
        let listed = self.inner.list_keys(&Scope::from_segment(&FinishedTask::segment()));
        let ghost earlier = old(self).inner.requests();
        let ghost keys = store::models(listed->Ok_0@);
        let tasks = match select::expired_tasks(listed, limit) {
            Ok(tasks) => tasks,
            Err(error) => {
                assert(store::made_since(earlier, self.inner.requests()) =~= seq![
                    self.inner.requests().last(),
                ]);
                return Err(error);
            },
        };
        let ghost all = select::finished_models(tasks@);
        let ghost refusals = old(self).inner.refusals();
        let ghost first = store::listing(task::finished_scope(), keys);
        let ghost mut made: Seq<Answered> = Seq::empty();
        let mut i: usize = 0;
        while i < tasks.len()
            invariant
                i <= tasks@.len(),
                all == select::finished_models(tasks@),
                refusals == old(self).inner.refusals(),
                self.inner.refusals() == refusals,
                self.inner.requests() == earlier.push(first) + made,
                removes_each(made, all.take(i as int)),
                self@ == cleaned(old(self)@, all.take(i as int), not_refused(made, refusals)),
            decreases tasks@.len() - i,
        {
            let finished = &tasks[i];
            let key: Key = Key::from(TaskState::Finished(finished.clone()));
            let ghost before = self@;
            let _ = self.inner.delete(&key);
            proof {
                let made_so_far = made;
                made = made.push(self.inner.requests().last());
                assert(not_refused(made, refusals).drop_last() =~= not_refused(
                    made_so_far,
                    refusals,
                ));
                assert(all.take(i + 1).drop_last() =~= all.take(i as int));
                assert(all.take(i + 1).last() == finished@);
                assert(all.take(i + 1) =~= all.take(i as int).push(finished@));
                assert(!before.contains_key(key@) ==> before.remove(key@) =~= before);
            }
            i = i + 1;
        }
        assert(all.take(tasks@.len() as int) =~= all);
        let ghost asked = store::made_since(earlier, self.inner.requests());
        assert(asked.skip(1) =~= made);
        assert(lists_first(old(self)@, task::finished_scope(), asked, keys));
        Ok(())
    }
}

/// The seconds of a timeout, or of its default.
pub open spec fn timeout_seconds(timeout: Option<&Duration>, default: u64) -> u64 {
    match timeout {
        Some(timeout) => clock::whole_seconds(*timeout),
        None => default,
    }
}

/// The seconds of a timeout, or of its default.
fn seconds_of(timeout: Option<&Duration>, default: u64) -> (seconds: u64)
    ensures
        seconds == timeout_seconds(timeout, default),
{
    match timeout {
        Some(timeout) => timeout.as_secs(),
        None => default,
    }
}

/// The number of keys in a listing is that of the entries in the scope.
pub proof fn lemma_listing_counts(
    keys: Seq<KeyModel>,
    entries: Map<KeyModel, Value>,
    scope: Seq<Seq<char>>,
)
    requires
        store::is_listing(keys, entries, scope),
    ensures
        keys_in(entries, scope).finite(),
        keys_in(entries, scope).len() == keys.len(),
{
    keys.unique_seq_to_set();
    assert(keys.to_set() =~= keys_in(entries, scope)) by {
        assert forall|key: KeyModel| keys.to_set().contains(key) == keys_in(
            entries,
            scope,
        ).contains(key) by {
            assert(keys.to_set().contains(key) == keys.contains(key));
        }
    }
}

/// A queue of tasks.
///
/// A task is pending from when it is scheduled until it is claimed, running until it is finished,
/// and finished until it is cleaned up.
pub trait Queue {
    /// The seconds after which a running task has timed out, unless said otherwise.
    const RESCHEDULE_AFTER: u64 = 15 * 60;

    /// The seconds after which a finished task is removed, unless said otherwise.
    const REMOVE_AFTER: u64 = 7 * 24 * 60 * 60;

    /// The entries of the store that holds the queue.
    spec fn entries(&self) -> Map<KeyModel, Value>;

    /// The errors with which the store may refuse a request, whatever the request is.
    spec fn refusals(&self) -> Set<Error>;

    /// The requests that were made of the store, in their order, with its replies.
    spec fn requests(&self) -> Seq<Answered>;

    /// The scope of pending tasks.
    fn pending_scope() -> (scope: Scope)
        ensures
            scope@ == task::pending_scope(),
    {
        Scope::from_segment(&PendingTask::segment())
    }

    /// Returns the number of pending tasks remaining.
    fn pending_tasks_remaining(&mut self) -> (result: Result<usize, Error>)
        ensures
            count_outcome(
                old(self).entries(),
                old(self).refusals(),
                store::made_since(old(self).requests(), final(self).requests()),
                result,
            ),
            final(self).entries() == old(self).entries(),
            final(self).refusals() == old(self).refusals(),
            old(self).requests().is_prefix_of(final(self).requests()),
    ;

    /// Schedules a task, for the current time unless one is given. If a pending task with this
    /// name exists, replaces it.
    fn schedule_task(&mut self, name: SegmentBuf, value: Value, timestamp: Option<u64>) -> (result:
        Result<(), Error>)
        ensures
            match timestamp {
                Some(timestamp) => schedule_call(
                    old(self).entries(),
                    final(self).entries(),
                    name@,
                    value,
                    Ok(timestamp),
                    old(self).refusals(),
                    store::made_since(old(self).requests(), final(self).requests()),
                    result,
                ),
                None => exists|time: SystemTime|
                    schedule_call(
                        old(self).entries(),
                        final(self).entries(),
                        name@,
                        value,
                        #[trigger] clock::timestamp_of(time),
                        old(self).refusals(),
                        store::made_since(old(self).requests(), final(self).requests()),
                        result,
                    ),
            },
            final(self).refusals() == old(self).refusals(),
            old(self).requests().is_prefix_of(final(self).requests()),
    ;

    /// Returns the scheduled time for the named task, if any.
    fn pending_task_scheduled(&mut self, name: SegmentBuf) -> (result: Result<Option<u64>, Error>)
        ensures
            lookup_outcome(
                old(self).entries(),
                name@,
                old(self).refusals(),
                store::made_since(old(self).requests(), final(self).requests()),
                result,
            ),
            final(self).entries() == old(self).entries(),
            final(self).refusals() == old(self).refusals(),
            old(self).requests().is_prefix_of(final(self).requests()),
    ;

    /// Marks a running task as finished. Fails if the task is not running.
    fn finish_running_task(&mut self, task: Task) -> (result: Result<(), Error>)
        ensures
            exists|time: SystemTime|
                finish_call(
                    old(self).entries(),
                    final(self).entries(),
                    task.state@,
                    #[trigger] clock::timestamp_of(time),
                    old(self).refusals(),
                    store::made_since(old(self).requests(), final(self).requests()),
                    result,
                ),
            final(self).refusals() == old(self).refusals(),
            old(self).requests().is_prefix_of(final(self).requests()),
    ;

    /// Claims the next scheduled pending task, if any.
    fn claim_scheduled_pending_task(&mut self) -> (result: Result<Option<Task>, Error>)
        ensures
            exists|time: SystemTime|
                claim_call(
                    old(self).entries(),
                    final(self).entries(),
                    #[trigger] clock::timestamp_of(time),
                    old(self).refusals(),
                    store::made_since(old(self).requests(), final(self).requests()),
                    result,
                ),
            final(self).refusals() == old(self).refusals(),
            old(self).requests().is_prefix_of(final(self).requests()),
    ;

    /// Reschedules running tasks that have timed out.
    fn reschedule_long_running_tasks(&mut self, reschedule_after: Option<&Duration>) -> (result:
        Result<(), Error>)
        ensures
            exists|time: SystemTime|
                reschedule_call(
                    old(self).entries(),
                    final(self).entries(),
                    #[trigger] clock::cutoff_of(
                        time,
                        timeout_seconds(reschedule_after, Self::RESCHEDULE_AFTER),
                    ),
                    old(self).refusals(),
                    store::made_since(old(self).requests(), final(self).requests()),
                    result,
                ),
            final(self).refusals() == old(self).refusals(),
            old(self).requests().is_prefix_of(final(self).requests()),
    ;

    /// Cleans finished tasks.
    fn clean_up_finished_tasks(&mut self, remove_after: Option<&Duration>) -> (result: Result<
        (),
        Error,
    >)
        ensures
            exists|time: SystemTime|
                clean_up_call(
                    old(self).entries(),
                    final(self).entries(),
                    #[trigger] clock::cutoff_of(
                        time,
                        timeout_seconds(remove_after, Self::REMOVE_AFTER),
                    ),
                    old(self).refusals(),
                    store::made_since(old(self).requests(), final(self).requests()),
                    result,
                ),
            final(self).refusals() == old(self).refusals(),
            old(self).requests().is_prefix_of(final(self).requests()),
    ;
}

impl<B: KeyValueStoreBackend> Queue for KeyValueStore<B> {
    open spec fn entries(&self) -> Map<KeyModel, Value> {
        self@
    }

    open spec fn refusals(&self) -> Set<Error> {
        self.inner.refusals()
    }

    open spec fn requests(&self) -> Seq<Answered> {
        self.inner.requests()
    }

    fn pending_tasks_remaining(&mut self) -> (result: Result<usize, Error>) {
        let listed = self.inner.list_keys(&Self::pending_scope());
        proof {
            let made = store::made_since(old(self).inner.requests(), self.inner.requests());
            assert(made =~= seq![self.inner.requests().last()]);
            if listed is Ok {
                let keys = store::models(listed->Ok_0@);
                lemma_listing_counts(keys, self@, task::pending_scope());
                assert(lists_first(self@, task::pending_scope(), made, keys));
            }
        }
        select::count_listed(listed)
    }

    fn schedule_task(&mut self, name: SegmentBuf, value: Value, timestamp: Option<u64>) -> (result:
        Result<(), Error>) {
        let schedule_timestamp = match timestamp {
            Some(timestamp) => timestamp,
            None => match clock::current_time() {
                Ok(now) => now,
                Err(error) => {
                    return Err(error);
                },
            },
        };
        self.schedule_at(name, value, schedule_timestamp)
    }

    fn pending_task_scheduled(&mut self, name: SegmentBuf) -> (result: Result<
        Option<u64>,
        Error,
    >) {
        let listed = self.inner.list_keys(&Self::pending_scope());
        let ghost keys = store::models(listed->Ok_0@);
        let ghost made = store::made_since(old(self).inner.requests(), self.inner.requests());
        assert(made =~= seq![self.inner.requests().last()]);
        match select::find_pending(listed, &name) {
            Ok(found) => {
                assert(lists_first(self@, task::pending_scope(), made, keys));
                assert(select::is_first_named(keys, name@, select::pending_model(found)));
                match found {
                    Some(task) => Ok(Some(task.schedule_timestamp)),
                    None => Ok(None),
                }
            },
            Err(error) => Err(error),
        }
    }

    fn finish_running_task(&mut self, task: Task) -> (result: Result<(), Error>) {
        match clock::current_time() {
            Ok(now) => self.finish_at(task, now),
            Err(error) => Err(error),
        }
    }

    fn claim_scheduled_pending_task(&mut self) -> (result: Result<Option<Task>, Error>) {
        match clock::current_time() {
            Ok(now) => self.claim_at(now),
            Err(error) => Err(error),
        }
    }

    fn reschedule_long_running_tasks(&mut self, reschedule_after: Option<&Duration>) -> (result:
        Result<(), Error>) {
        let timeout = seconds_of(reschedule_after, Self::RESCHEDULE_AFTER);
        match clock::current_time_after(timeout) {
            Ok(now) => self.reschedule_at(now, timeout),
            Err(error) => Err(error),
        }
    }

    fn clean_up_finished_tasks(&mut self, remove_after: Option<&Duration>) -> (result: Result<
        (),
        Error,
    >) {
        let timeout = seconds_of(remove_after, Self::REMOVE_AFTER);
        match clock::current_time_after(timeout) {
            Ok(now) => self.clean_up_at(now, timeout),
            Err(error) => Err(error),
        }
    }
}

/// Unless said otherwise, a task times out after a quarter of an hour, and a finished task is
/// removed after a week.
pub proof fn law_default_timeouts<B: KeyValueStoreBackend>()
    ensures
        <KeyValueStore<B> as Queue>::RESCHEDULE_AFTER == 900,
        <KeyValueStore<B> as Queue>::REMOVE_AFTER == 604800,
{
}

/// No timeout is the same as one of the default's whole seconds: for every clock reading the
/// cutoff is the same, and with it all that rescheduling and cleaning up promise.
pub proof fn law_no_timeout_is_the_default<B: KeyValueStoreBackend>(
    reschedule_after: &Duration,
    remove_after: &Duration,
    time: SystemTime,
)
    requires
        clock::whole_seconds(*reschedule_after) == 900,
        clock::whole_seconds(*remove_after) == 604800,
    ensures
        clock::cutoff_of(
            time,
            timeout_seconds(None, <KeyValueStore<B> as Queue>::RESCHEDULE_AFTER),
        ) == clock::cutoff_of(
            time,
            timeout_seconds(Some(reschedule_after), <KeyValueStore<B> as Queue>::RESCHEDULE_AFTER),
        ),
        clock::cutoff_of(
            time,
            timeout_seconds(None, <KeyValueStore<B> as Queue>::REMOVE_AFTER),
        ) == clock::cutoff_of(
            time,
            timeout_seconds(Some(remove_after), <KeyValueStore<B> as Queue>::REMOVE_AFTER),
        ),
{
    law_default_timeouts::<B>();
}

} // verus!
