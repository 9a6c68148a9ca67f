//! The choices that the queue makes among the keys that a store lists.
//!
//! Keys that denote no task are passed over. Where the store gave an error in place of a list,
//! that error is the outcome.

use vstd::prelude::*;

use crate::error::Error;
use crate::key::{Key, KeyModel};
use crate::segment::SegmentBuf;
use crate::store;
use crate::task;
use crate::task::{
    FinishedModel, FinishedTask, PendingModel, PendingTask, RunningModel, RunningTask,
};

verus! {

/// The pending task that a key denotes, if it has this name.
pub open spec fn named(key: KeyModel, name: Seq<char>) -> Option<PendingModel> {
    match task::pending_of(key.name) {
        Ok(task) => if task.name == name {
            Some(task)
        } else {
            None
        },
        Err(_) => None,
    }
}

/// Whether `found` is the first pending task of this name among the keys.
pub open spec fn is_first_named(
    keys: Seq<KeyModel>,
    name: Seq<char>,
    found: Option<PendingModel>,
) -> bool {
    match found {
        Some(task) => exists|i: int|
            {
                &&& 0 <= i < keys.len()
                &&& #[trigger] named(keys[i], name) == Some(task)
                &&& forall|j: int| 0 <= j < i ==> #[trigger] named(keys[j], name) is None
            },
        None => forall|i: int| 0 <= i < keys.len() ==> #[trigger] named(keys[i], name) is None,
    }
}

/// The pending task that a key denotes, if it is scheduled for `now` or earlier.
pub open spec fn due(key: KeyModel, now: u64) -> Option<PendingModel> {
    match task::pending_of(key.name) {
        Ok(task) => if task.schedule_timestamp <= now {
            Some(task)
        } else {
            None
        },
        Err(_) => None,
    }
}

/// Whether `found` is the due task with the earliest schedule among the keys, and the first such
/// task where several have the same schedule.
pub open spec fn is_next(keys: Seq<KeyModel>, now: u64, found: Option<PendingModel>) -> bool {
    match found {
        Some(task) => exists|i: int|
            {
                &&& 0 <= i < keys.len()
                &&& #[trigger] due(keys[i], now) == Some(task)
                &&& forall|j: int|
                    0 <= j < keys.len() ==> (#[trigger] due(keys[j], now) matches Some(other)
                        ==> task.schedule_timestamp <= other.schedule_timestamp && (j < i
                        ==> task.schedule_timestamp < other.schedule_timestamp))
            },
        None => forall|i: int| 0 <= i < keys.len() ==> #[trigger] due(keys[i], now) is None,
    }
}

/// The running task that a key denotes, if it was claimed at `limit` or earlier.
pub open spec fn claimed_by(key: KeyModel, limit: u64) -> Option<RunningModel> {
    match task::running_of(key.name) {
        Ok(task) => if task.claim_timestamp <= limit {
            Some(task)
        } else {
            None
        },
        Err(_) => None,
    }
}

/// The running tasks among the keys that were claimed at `limit` or earlier, in their order.
pub open spec fn timed_out(keys: Seq<KeyModel>, limit: u64) -> Seq<RunningModel>
    decreases keys.len(),
{
    if keys.len() == 0 {
        Seq::empty()
    } else {
        let others = timed_out(keys.drop_last(), limit);
        match claimed_by(keys.last(), limit) {
            Some(task) => others.push(task),
            None => others,
        }
    }
}

/// The finished task that a key denotes, if it finished at `limit` or earlier.
pub open spec fn finished_by(key: KeyModel, limit: u64) -> Option<FinishedModel> {
    match task::finished_of(key.name) {
        Ok(task) => if task.finish_timestamp <= limit {
            Some(task)
        } else {
            None
        },
        Err(_) => None,
    }
}

/// The finished tasks among the keys that finished at `limit` or earlier, in their order.
pub open spec fn expired(keys: Seq<KeyModel>, limit: u64) -> Seq<FinishedModel>
    decreases keys.len(),
{
    if keys.len() == 0 {
        Seq::empty()
    } else {
        let others = expired(keys.drop_last(), limit);
        match finished_by(keys.last(), limit) {
            Some(task) => others.push(task),
            None => others,
        }
    }
}

/// What an optional pending task stands for.
pub open spec fn pending_model(task: Option<PendingTask>) -> Option<PendingModel> {
    match task {
        Some(task) => Some(task@),
        None => None,
    }
}

/// What a list of running tasks stands for.
pub open spec fn running_models(tasks: Seq<RunningTask>) -> Seq<RunningModel> {
    tasks.map_values(|task: RunningTask| task@)
}

/// What a list of finished tasks stands for.
pub open spec fn finished_models(tasks: Seq<FinishedTask>) -> Seq<FinishedModel> {
    tasks.map_values(|task: FinishedTask| task@)
}

/// Counts the listed keys.
pub fn count_listed(listed: Result<Vec<Key>, Error>) -> (result: Result<usize, Error>)
    ensures
        match listed {
            Ok(keys) => result matches Ok(count) && count == keys@.len(),
            Err(error) => result == Err::<usize, Error>(error),
        },
{
    match listed {
        Ok(keys) => Ok(keys.len()),
        Err(error) => Err(error),
    }
}

/// Finds the first listed pending task of this name.
pub fn find_pending(listed: Result<Vec<Key>, Error>, name: &SegmentBuf) -> (result: Result<
    Option<PendingTask>,
    Error,
>)
    ensures
        match listed {
            Ok(keys) => result matches Ok(found) && is_first_named(
                store::models(keys@),
                name@,
                pending_model(found),
            ),
            Err(error) => result == Err::<Option<PendingTask>, Error>(error),
        },
{
    let keys = match listed {
        Ok(keys) => keys,
        Err(error) => {
            return Err(error);
        },
    };
    let ghost all = store::models(keys@);
    let mut i: usize = 0;
    while i < keys.len()
        invariant
            i <= keys@.len(),
            listed == Ok::<Vec<Key>, Error>(keys),
            all == store::models(keys@),
            forall|j: int| 0 <= j < i ==> #[trigger] named(all[j], name@) is None,
        decreases keys@.len() - i,
    {
        assert(all[i as int] == keys@[i as int]@);
        if let Ok(task) = PendingTask::from_name(keys[i].name()) {
            if task.name == *name {
                assert(named(all[i as int], name@) == Some(task@));
                return Ok(Some(task));
            }
        }
        assert(named(all[i as int], name@) is None);
        i = i + 1;
    }
    Ok(None)
}

/// Finds the listed pending task that is to be claimed next.
pub fn next_pending(listed: Result<Vec<Key>, Error>, now: u64) -> (result: Result<
    Option<PendingTask>,
    Error,
>)
    ensures
        match listed {
            Ok(keys) => result matches Ok(found) && is_next(
                store::models(keys@),
                now,
                pending_model(found),
            ),
            Err(error) => result == Err::<Option<PendingTask>, Error>(error),
        },
{
    let keys = match listed {
        Ok(keys) => keys,
        Err(error) => {
            return Err(error);
        },
    };
    let ghost all = store::models(keys@);
    let mut found: Option<PendingTask> = None;
    let mut i: usize = 0;
    while i < keys.len()
        invariant
            i <= keys@.len(),
            all == store::models(keys@),
            is_next(all.take(i as int), now, pending_model(found)),
        decreases keys@.len() - i,
    {
        let ghost seen = all.take(i as int);
        let ghost grown = all.take(i + 1);
        let ghost before = pending_model(found);
        assert(forall|j: int| 0 <= j < i ==> #[trigger] grown[j] == seen[j]);
        assert(grown[i as int] == keys@[i as int]@);
        let candidate = match PendingTask::from_name(keys[i].name()) {
            Ok(task) => if task.schedule_timestamp <= now {
                Some(task)
            } else {
                None
            },
            Err(_) => None,
        };
        assert(pending_model(candidate) == due(grown[i as int], now));
        let replaces = match (&found, &candidate) {
            (_, None) => false,
            (None, Some(_)) => true,
            (Some(best), Some(task)) => task.schedule_timestamp < best.schedule_timestamp,
        };
        if replaces {
            found = candidate;
        }
        proof {
            lemma_next_step(seen, grown, now, before, pending_model(found));
        }
        i = i + 1;
    }
    assert(all.take(keys@.len() as int) =~= all);
    Ok(found)
}

/// The next task among some keys, from the next task among all but the last of them.
proof fn lemma_next_step(
    seen: Seq<KeyModel>,
    grown: Seq<KeyModel>,
    now: u64,
    before: Option<PendingModel>,
    after: Option<PendingModel>,
)
    requires
        grown.len() == seen.len() + 1,
        forall|j: int| 0 <= j < seen.len() ==> #[trigger] grown[j] == seen[j],
        is_next(seen, now, before),
        after == match (before, due(grown.last(), now)) {
            (_, None) => before,
            (None, Some(task)) => Some(task),
            (Some(best), Some(task)) => if task.schedule_timestamp < best.schedule_timestamp {
                Some(task)
            } else {
                before
            },
        },
    ensures
        is_next(grown, now, after),
{
    let last = seen.len() as int;
    if after is Some {
        let task = after->0;
        if after == before {
            let i = choose|i: int|
                {
                    &&& 0 <= i < seen.len()
                    &&& #[trigger] due(seen[i], now) == Some(task)
                    &&& forall|j: int|
                        0 <= j < seen.len() ==> (#[trigger] due(seen[j], now) matches Some(other)
                            ==> task.schedule_timestamp <= other.schedule_timestamp && (j < i
                            ==> task.schedule_timestamp < other.schedule_timestamp))
                };
            assert(due(grown[i], now) == Some(task));
            assert forall|j: int| 0 <= j < grown.len() implies (#[trigger] due(
                grown[j],
                now,
            ) matches Some(other) ==> task.schedule_timestamp <= other.schedule_timestamp && (j < i
                ==> task.schedule_timestamp < other.schedule_timestamp)) by {
                if j < last {
                    assert(grown[j] == seen[j]);
                    let _ = due(seen[j], now);
                }
            }
        } else {
            assert(due(grown[last], now) == Some(task));
            assert forall|j: int| 0 <= j < grown.len() implies (#[trigger] due(
                grown[j],
                now,
            ) matches Some(other) ==> task.schedule_timestamp <= other.schedule_timestamp && (j
                < last ==> task.schedule_timestamp < other.schedule_timestamp)) by {
                if j < last {
                    assert(grown[j] == seen[j]);
                    let _ = due(seen[j], now);
                }
            }
        }
    } else {
        assert forall|j: int| 0 <= j < grown.len() implies #[trigger] due(
            grown[j],
            now,
        ) is None by {
            if j < last {
                assert(grown[j] == seen[j]);
                assert(due(seen[j], now) is None);
            }
        }
    }
}

/// Collects the listed running tasks that were claimed at `limit` or earlier.
pub fn timed_out_tasks(listed: Result<Vec<Key>, Error>, limit: u64) -> (result: Result<
    Vec<RunningTask>,
    Error,
>)
    ensures
        match listed {
            Ok(keys) => result matches Ok(tasks) && running_models(tasks@) == timed_out(
                store::models(keys@),
                limit,
            ),
            Err(error) => result == Err::<Vec<RunningTask>, Error>(error),
        },
{
    let keys = match listed {
        Ok(keys) => keys,
        Err(error) => {
            return Err(error);
        },
    };
    let ghost all = store::models(keys@);
    let mut tasks: Vec<RunningTask> = Vec::new();
    let mut i: usize = 0;
    while i < keys.len()
        invariant
            i <= keys@.len(),
            all == store::models(keys@),
            running_models(tasks@) =~= timed_out(all.take(i as int), limit),
        decreases keys@.len() - i,
    {
        let ghost before = tasks@;
        assert(all.take(i + 1).drop_last() =~= all.take(i as int));
        assert(all.take(i + 1).last() == keys@[i as int]@);
        if let Ok(task) = RunningTask::from_name(keys[i].name()) {
            if task.claim_timestamp <= limit {
                tasks.push(task);
                assert(running_models(tasks@) =~= running_models(before).push(task@));
            }
        }
        i = i + 1;
    }
    assert(all.take(keys@.len() as int) =~= all);
    Ok(tasks)
}

/// Collects the listed finished tasks that finished at `limit` or earlier.
pub fn expired_tasks(listed: Result<Vec<Key>, Error>, limit: u64) -> (result: Result<
    Vec<FinishedTask>,
    Error,
>)
    ensures
        match listed {
            Ok(keys) => result matches Ok(tasks) && finished_models(tasks@) == expired(
                store::models(keys@),
                limit,
            ),
            Err(error) => result == Err::<Vec<FinishedTask>, Error>(error),
        },
{
    let keys = match listed {
        Ok(keys) => keys,
        Err(error) => {
            return Err(error);
        },
    };
    let ghost all = store::models(keys@);
    let mut tasks: Vec<FinishedTask> = Vec::new();
    let mut i: usize = 0;
    while i < keys.len()
        invariant
            i <= keys@.len(),
            all == store::models(keys@),
            finished_models(tasks@) =~= expired(all.take(i as int), limit),
        decreases keys@.len() - i,
    {
        let ghost before = tasks@;
        assert(all.take(i + 1).drop_last() =~= all.take(i as int));
        assert(all.take(i + 1).last() == keys@[i as int]@);
        if let Ok(task) = FinishedTask::from_name(keys[i].name()) {
            if task.finish_timestamp <= limit {
                tasks.push(task);
                assert(finished_models(tasks@) =~= finished_models(before).push(task@));
            }
        }
        i = i + 1;
    }
    assert(all.take(keys@.len() as int) =~= all);
    Ok(tasks)
}

} // verus!
