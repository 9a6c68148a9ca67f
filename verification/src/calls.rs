//! What a caller gets from the operations of the queue.
//!
//! The first laws say what clock readings and timeouts come to. Those that follow say of each
//! operation what it does for its caller: of the entries before and after a call, of what was
//! handed in, what the clock showed and what came back. The last laws say that the calls of the
//! operations are what the others speak of.

use std::time::{Duration, SystemTime};

use serde_json::Value;
use vstd::prelude::*;

use crate::clock;
use crate::error::Error;
use crate::key::{KeyModel, Scope};
use crate::laws;
use crate::queue;
use crate::queue::Queue;
use crate::segment;
use crate::segment::SegmentBuf;
use crate::select;
use crate::store;
use crate::store::{Answer, Answered, KeyValueStore, KeyValueStoreBackend, Request};
use crate::task;
use crate::task::{FinishedModel, PendingModel, RunningModel, StateModel, Task};

verus! {

/// Whether this clock reading lies so many whole seconds after the epoch.
pub open spec fn reads(time: SystemTime, seconds: u64) -> bool {
    clock::since_epoch(time) matches Some(elapsed) && clock::whole_seconds(elapsed) == seconds
}

/// The timestamp of a clock reading is the number of whole seconds since the epoch. A clock that
/// is set to before the epoch has none.
pub proof fn law_clock_reading(time: SystemTime)
    ensures
        forall|now: u64| #[trigger]
            reads(time, now) <==> clock::timestamp_of(time) == Ok::<u64, Error>(now),
        clock::since_epoch(time) is None <==> clock::timestamp_of(time) == Err::<u64, Error>(
            Error::BeforeEpoch,
        ),
{
}

/// A cutoff lies exactly the timeout before the time that the clock shows, and there is none where
/// that is before the epoch.
pub proof fn law_cutoff(time: SystemTime, now: u64, timeout: u64)
    requires
        reads(time, now),
    ensures
        match clock::cutoff_of(time, timeout) {
            Ok((at, limit)) => at == now && limit + timeout == now,
            Err(error) => error == Error::BeforeEpoch && now < timeout,
        },
{
}

/// A timeout counts by its whole seconds. Without one, a running task has a quarter of an hour and
/// a finished task a week.
pub proof fn law_timeouts<B: KeyValueStoreBackend>(timeout: &Duration)
    ensures
        queue::timeout_seconds(Some(timeout), <KeyValueStore<B> as Queue>::RESCHEDULE_AFTER)
            == clock::whole_seconds(*timeout),
        queue::timeout_seconds(Some(timeout), <KeyValueStore<B> as Queue>::REMOVE_AFTER)
            == clock::whole_seconds(*timeout),
        queue::timeout_seconds(None, <KeyValueStore<B> as Queue>::RESCHEDULE_AFTER) == 900,
        queue::timeout_seconds(None, <KeyValueStore<B> as Queue>::REMOVE_AFTER) == 604800,
{
    queue::law_default_timeouts::<B>();
}

/// A task that was scheduled is pending under its name for the given time, with the given value,
/// whether or not a task of this name was pending before. If no two tasks of this name were
/// pending before, it is the only pending task of its name.
pub proof fn law_scheduled_task_is_pending(
    before: Map<KeyModel, Value>,
    after: Map<KeyModel, Value>,
    name: Seq<char>,
    value: Value,
    timestamp: u64,
    refusals: Set<Error>,
    made: Seq<Answered>,
)
    requires
        segment::is_segment(name),
        queue::schedule_call(
            before,
            after,
            name,
            value,
            Ok(timestamp),
            refusals,
            made,
            Ok(()),
        ),
    ensures
        ({
            let task = PendingModel { name, schedule_timestamp: timestamp };
            &&& after.contains_key(task.key())
            &&& after[task.key()] == value
            &&& (forall|a: PendingModel, b: PendingModel|
                a.name == name && b.name == name && #[trigger] before.contains_key(a.key())
                    && #[trigger] before.contains_key(b.key()) ==> a == b) ==> forall|
                other: PendingModel,
            |
                other.name == name && #[trigger] after.contains_key(other.key()) ==> other == task
        }),
{
    let task = PendingModel { name, schedule_timestamp: timestamp };
    let replaced = laws::law_schedule_stores(before, after, task, value, refusals, made);
    if forall|a: PendingModel, b: PendingModel|
        a.name == name && b.name == name && #[trigger] before.contains_key(a.key())
            && #[trigger] before.contains_key(b.key()) ==> a == b {
        assert forall|other: PendingModel|
            other.name == name && #[trigger] after.contains_key(other.key()) implies other
            == task by {
            if other.key() == task.key() {
                laws::law_keys_tell_tasks_apart(
                    StateModel::Pending(other),
                    StateModel::Pending(task),
                );
            } else if replaced is Some && other.key() == replaced->0.key() {
                laws::law_keys_tell_tasks_apart(
                    StateModel::Pending(other),
                    StateModel::Pending(replaced->0),
                );
            } else {
                assert(laws::same_at(before, after, other.key()));
                assert(before.contains_key(other.key()));
                assert(replaced is Some);
                assert(before.contains_key(replaced->0.key()));
            }
        }
    }
}

/// Scheduling changes no entry but those of pending tasks of the given name, whatever comes of it.
pub proof fn law_schedule_concerns_one_name(
    before: Map<KeyModel, Value>,
    after: Map<KeyModel, Value>,
    name: Seq<char>,
    value: Value,
    timestamp: u64,
    refusals: Set<Error>,
    made: Seq<Answered>,
    result: Result<(), Error>,
    key: KeyModel,
)
    requires
        queue::schedule_call(
            before,
            after,
            name,
            value,
            Ok(timestamp),
            refusals,
            made,
            result,
        ),
        forall|other: PendingModel| other.name == name ==> #[trigger] other.key() != key,
    ensures
        laws::same_at(before, after, key),
{
    let task = PendingModel { name, schedule_timestamp: timestamp };
    assert(task.key() != key);
    match result {
        Ok(()) => {
            let replaced = laws::law_schedule_stores(before, after, task, value, refusals, made);
            if let Some(old_task) = replaced {
                assert(old_task.key() != key);
            }
            assert(laws::same_at(before, after, key));
        },
        Err(error) => {
            laws::law_failed_schedule(before, after, task, value, refusals, made, error);
            if after != before {
                let old_task = choose|old_task: PendingModel|
                    {
                        &&& old_task.valid() && old_task.name == task.name
                        &&& #[trigger] before.contains_key(old_task.key())
                        &&& after == store::moved(before, old_task.key(), task.key())
                    };
                assert(old_task.key() != key);
            }
        },
    }
}

/// Where several pending tasks have the name, the first of them that the store lists is the one
/// that is replaced, and the others stay.
pub proof fn law_schedule_replaces_the_first_listed(
    before: Map<KeyModel, Value>,
    after: Map<KeyModel, Value>,
    name: Seq<char>,
    value: Value,
    timestamp: u64,
    refusals: Set<Error>,
    made: Seq<Answered>,
    keys: Seq<KeyModel>,
    i: int,
    first: PendingModel,
    key: KeyModel,
)
    requires
        segment::is_segment(name),
        queue::schedule_call(
            before,
            after,
            name,
            value,
            Ok(timestamp),
            refusals,
            made,
            Ok(()),
        ),
        made[0].reply == Ok::<Answer, Error>(Answer::Keys(keys)),
        0 <= i < keys.len(),
        task::pending_of(keys[i].name) == Ok::<PendingModel, Error>(first),
        first.name == name,
        forall|j: int|
            0 <= j < i ==> (task::pending_of(#[trigger] keys[j].name) matches Ok(other)
                ==> other.name != name),
    ensures
        before.contains_key(first.key()),
        first.schedule_timestamp != timestamp ==> !after.contains_key(first.key()),
        key != first.key() && key != (PendingModel { name, schedule_timestamp: timestamp }).key()
            ==> laws::same_at(before, after, key),
{
    let task = PendingModel { name, schedule_timestamp: timestamp };
    let (listed, existing) = choose|listed: Seq<KeyModel>, existing: Option<PendingModel>|
        {
            &&& #[trigger] queue::lists_first(before, task::pending_scope(), made, listed)
            &&& #[trigger] select::is_first_named(listed, task.name, existing)
            &&& queue::schedule_effect(
                before,
                after,
                existing,
                task,
                value,
                refusals,
                made.skip(1),
                Ok(()),
            )
        };
    assert(listed == keys);
    assert(select::named(keys[i], name) == Some(first));
    if existing is Some {
        let j = choose|j: int|
            {
                &&& 0 <= j < keys.len()
                &&& #[trigger] select::named(keys[j], name) == existing
                &&& forall|k: int| 0 <= k < j ==> #[trigger] select::named(keys[k], name) is None
            };
        if j < i {
            assert(task::pending_of(keys[j].name) is Ok);
        }
        assert(i == j);
    }
    assert(existing == Some(first));
    if first.key() == task.key() {
        laws::law_keys_tell_tasks_apart(StateModel::Pending(first), StateModel::Pending(task));
    }
}

/// Scheduling succeeds where the store refuses nothing and pending keys are as tasks have them. It
/// fails with the last answer of the store: a refusal, or that the listed task of this name has
/// another key.
pub proof fn law_schedule_fails_for_a_reason(
    before: Map<KeyModel, Value>,
    after: Map<KeyModel, Value>,
    name: Seq<char>,
    value: Value,
    timestamp: u64,
    refusals: Set<Error>,
    made: Seq<Answered>,
    error: Error,
)
    requires
        queue::schedule_call(
            before,
            after,
            name,
            value,
            Ok(timestamp),
            refusals,
            made,
            Err(error),
        ),
    ensures
        refusals.contains(error) || (error == Error::UnknownKey && !laws::plain_pending(before)),
        made.len() > 0,
        made.last().reply == Err::<Answer, Error>(error),
{
    let task = PendingModel { name, schedule_timestamp: timestamp };
    if !queue::listing_refused(before, after, task::pending_scope(), refusals, made, error) {
        let (keys, existing) = choose|keys: Seq<KeyModel>, existing: Option<PendingModel>|
            {
                &&& #[trigger] queue::lists_first(before, task::pending_scope(), made, keys)
                &&& #[trigger] select::is_first_named(keys, task.name, existing)
                &&& queue::schedule_effect(
                    before,
                    after,
                    existing,
                    task,
                    value,
                    refusals,
                    made.skip(1),
                    Err(error),
                )
            };
        let rest = made.skip(1);
        assert(rest.len() == 1 || rest.len() == 2);
        assert(made.last() == rest[rest.len() - 1]);
        if !refusals.contains(error) {
            let i = choose|i: int|
                0 <= i < keys.len() && #[trigger] select::named(keys[i], name) == existing;
            assert(keys.contains(keys[i]));
            assert(before.contains_key(keys[i]));
            assert(!laws::is_plain_key(keys[i]));
        }
    }
}

/// A refused listing, move or store makes scheduling fail with that error.
pub proof fn law_refusal_fails_the_schedule(
    before: Map<KeyModel, Value>,
    after: Map<KeyModel, Value>,
    name: Seq<char>,
    value: Value,
    timestamp: u64,
    refusals: Set<Error>,
    made: Seq<Answered>,
    result: Result<(), Error>,
    i: int,
    error: Error,
)
    requires
        queue::schedule_call(
            before,
            after,
            name,
            value,
            Ok(timestamp),
            refusals,
            made,
            result,
        ),
        0 <= i < made.len(),
        made[i].reply == Err::<Answer, Error>(error),
    ensures
        result == Err::<(), Error>(error),
{
    let task = PendingModel { name, schedule_timestamp: timestamp };
    if !(result is Err && queue::listing_refused(
        before,
        after,
        task::pending_scope(),
        refusals,
        made,
        result->Err_0,
    )) {
        let (keys, existing) = choose|keys: Seq<KeyModel>, existing: Option<PendingModel>|
            {
                &&& #[trigger] queue::lists_first(before, task::pending_scope(), made, keys)
                &&& #[trigger] select::is_first_named(keys, task.name, existing)
                &&& queue::schedule_effect(
                    before,
                    after,
                    existing,
                    task,
                    value,
                    refusals,
                    made.skip(1),
                    result,
                )
            };
        let rest = made.skip(1);
        assert(rest.len() == 1 || rest.len() == 2);
        if i == 1 {
            assert(made[i] == rest[0]);
        } else {
            assert(made[i] == rest[1]);
        }
    }
}

/// Where there is no time, nothing is scheduled and the store is not asked for anything.
pub proof fn law_no_schedule_without_a_time(
    before: Map<KeyModel, Value>,
    after: Map<KeyModel, Value>,
    name: Seq<char>,
    value: Value,
    time: SystemTime,
    refusals: Set<Error>,
    made: Seq<Answered>,
    result: Result<(), Error>,
)
    requires
        clock::since_epoch(time) is None,
        queue::schedule_call(
            before,
            after,
            name,
            value,
            clock::timestamp_of(time),
            refusals,
            made,
            result,
        ),
    ensures
        result == Err::<(), Error>(Error::BeforeEpoch),
        after == before,
        made.len() == 0,
{
}

/// What was scheduled is what a look for its name finds: the second of two schedules of a name is
/// the one that counts.
pub proof fn law_schedule_then_look(
    before: Map<KeyModel, Value>,
    after: Map<KeyModel, Value>,
    name: Seq<char>,
    value: Value,
    timestamp: u64,
    refusals: Set<Error>,
    made: Seq<Answered>,
    lookup_refusals: Set<Error>,
    lookup_made: Seq<Answered>,
    found: Option<u64>,
)
    requires
        segment::is_segment(name),
        laws::plain_pending(before),
        laws::distinct_names(before),
        queue::schedule_call(
            before,
            after,
            name,
            value,
            Ok(timestamp),
            refusals,
            made,
            Ok(()),
        ),
        queue::lookup_outcome(after, name, lookup_refusals, lookup_made, Ok(found)),
    ensures
        found == Some(timestamp),
{
    laws::law_schedule_is_found(
        before,
        after,
        PendingModel { name, schedule_timestamp: timestamp },
        value,
        refusals,
        made,
        lookup_made,
        lookup_refusals,
        found,
    );
}

/// A claimed task was pending and due, and no pending task was scheduled before it. It is running
/// since now, with the value that it had, and pending no more. No other entry has changed.
pub proof fn law_claimed_task_was_due(
    before: Map<KeyModel, Value>,
    after: Map<KeyModel, Value>,
    time: SystemTime,
    now: u64,
    refusals: Set<Error>,
    made: Seq<Answered>,
    claimed: Task,
)
    requires
        reads(time, now),
        queue::claim_call(
            before,
            after,
            clock::timestamp_of(time),
            refusals,
            made,
            Ok(Some(claimed)),
        ),
    ensures
        ({
            let running = claimed.state@->Running_0;
            let task = running.task_name;
            &&& claimed.state@ == StateModel::Running(running)
            &&& running.claim_timestamp == now
            &&& task.schedule_timestamp <= now
            &&& segment::is_segment(task.name)
            &&& forall|other: PendingModel|
                segment::is_segment(other.name) && #[trigger] before.contains_key(other.key())
                    ==> task.schedule_timestamp <= other.schedule_timestamp
            &&& before.contains_key(task.key())
            &&& claimed.value == before[task.key()]
            &&& !after.contains_key(task.key())
            &&& after.contains_key(running.key())
            &&& after[running.key()] == claimed.value
            &&& forall|key: KeyModel|
                key != task.key() && key != running.key() ==> #[trigger] laws::same_at(
                    before,
                    after,
                    key,
                )
        }),
{
    laws::law_claim_takes_the_earliest(before, after, now, refusals, made, claimed);
}

/// Of the due tasks with the earliest schedule, the one that the store lists first is claimed.
pub proof fn law_first_listed_is_claimed(
    before: Map<KeyModel, Value>,
    after: Map<KeyModel, Value>,
    time: SystemTime,
    now: u64,
    refusals: Set<Error>,
    made: Seq<Answered>,
    claimed: Task,
    keys: Seq<KeyModel>,
) -> (i: int)
    requires
        reads(time, now),
        queue::claim_call(
            before,
            after,
            clock::timestamp_of(time),
            refusals,
            made,
            Ok(Some(claimed)),
        ),
        made[0].reply == Ok::<Answer, Error>(Answer::Keys(keys)),
    ensures
        0 <= i < keys.len(),
        task::pending_of(keys[i].name) == Ok::<PendingModel, Error>(
            claimed.state@->Running_0.task_name,
        ),
        forall|j: int|
            0 <= j < i ==> (task::pending_of(#[trigger] keys[j].name) matches Ok(other)
                ==> claimed.state@->Running_0.task_name.schedule_timestamp
                < other.schedule_timestamp),
{
    let (listed, next) = choose|listed: Seq<KeyModel>, next: Option<PendingModel>|
        {
            &&& #[trigger] queue::lists_first(before, task::pending_scope(), made, listed)
            &&& #[trigger] select::is_next(listed, now, next)
            &&& queue::claim_effect(
                before,
                after,
                next,
                now,
                refusals,
                made.skip(1),
                Ok(Some(claimed)),
            )
        };
    assert(listed == keys);
    let task = next->0;
    let i = choose|i: int|
        {
            &&& 0 <= i < keys.len()
            &&& #[trigger] select::due(keys[i], now) == Some(task)
            &&& forall|j: int|
                0 <= j < keys.len() ==> (#[trigger] select::due(keys[j], now) matches Some(other)
                    ==> task.schedule_timestamp <= other.schedule_timestamp && (j < i
                    ==> task.schedule_timestamp < other.schedule_timestamp))
        };
    assert forall|j: int| 0 <= j < i implies (task::pending_of(
        #[trigger] keys[j].name,
    ) matches Ok(other) ==> task.schedule_timestamp < other.schedule_timestamp) by {
        let _ = select::due(keys[j], now);
    }
    i
}

/// A task is not claimed before its time: where every pending task is scheduled for later, and
/// nothing is refused, nothing is claimed and the store is left as it was.
pub proof fn law_nothing_is_claimed_early(
    before: Map<KeyModel, Value>,
    after: Map<KeyModel, Value>,
    time: SystemTime,
    now: u64,
    refusals: Set<Error>,
    made: Seq<Answered>,
    result: Result<Option<Task>, Error>,
)
    requires
        reads(time, now),
        queue::claim_call(
            before,
            after,
            clock::timestamp_of(time),
            refusals,
            made,
            result,
        ),
        forall|task: PendingModel|
            segment::is_segment(task.name) && #[trigger] before.contains_key(task.key()) ==> now
                < task.schedule_timestamp,
    ensures
        after == before,
        !(result is Ok && result->Ok_0 is Some),
        refusals.is_empty() ==> result is Ok,
{
    if let Ok(Some(claimed)) = result {
        laws::law_claim_takes_the_earliest(before, after, now, refusals, made, claimed);
        let task = claimed.state@->Running_0.task_name;
        assert(before.contains_key(task.key()));
    }
}

/// A due task makes a claim succeed, where nothing is refused and pending keys are as tasks have
/// them.
pub proof fn law_what_is_due_is_claimed(
    before: Map<KeyModel, Value>,
    after: Map<KeyModel, Value>,
    time: SystemTime,
    now: u64,
    refusals: Set<Error>,
    made: Seq<Answered>,
    result: Result<Option<Task>, Error>,
    task: PendingModel,
)
    requires
        reads(time, now),
        queue::claim_call(
            before,
            after,
            clock::timestamp_of(time),
            refusals,
            made,
            result,
        ),
        refusals.is_empty(),
        laws::plain_pending(before),
        segment::is_segment(task.name),
        task.schedule_timestamp <= now,
        before.contains_key(task.key()),
    ensures
        result is Ok,
        result->Ok_0 is Some,
{
    assert(refusals =~= Set::empty());
    laws::law_claim_does_not_fail(before, after, now, made, result);
    if result->Ok_0 is None {
        laws::law_claim_finds_what_is_due(before, after, now, refusals, made);
    }
}

/// A claim that fails leaves the store as it was, and its error is what the store answered last.
pub proof fn law_claim_fails_with_the_refusal(
    before: Map<KeyModel, Value>,
    after: Map<KeyModel, Value>,
    time: SystemTime,
    now: u64,
    refusals: Set<Error>,
    made: Seq<Answered>,
    error: Error,
)
    requires
        reads(time, now),
        queue::claim_call(
            before,
            after,
            clock::timestamp_of(time),
            refusals,
            made,
            Err(error),
        ),
    ensures
        refusals.contains(error),
        after == before,
        made.len() > 0,
        made.last().reply == Err::<Answer, Error>(error),
{
    if !queue::listing_refused(before, after, task::pending_scope(), refusals, made, error) {
        let (keys, next) = choose|keys: Seq<KeyModel>, next: Option<PendingModel>|
            {
                &&& #[trigger] queue::lists_first(before, task::pending_scope(), made, keys)
                &&& #[trigger] select::is_next(keys, now, next)
                &&& queue::claim_effect(
                    before,
                    after,
                    next,
                    now,
                    refusals,
                    made.skip(1),
                    Err(error),
                )
            };
        let rest = made.skip(1);
        assert(rest.len() == 1 || rest.len() == 2);
        assert(made.last() == rest[rest.len() - 1]);
    }
}

/// A refused listing, read or move makes a claim fail with that error.
pub proof fn law_refusal_fails_the_claim(
    before: Map<KeyModel, Value>,
    after: Map<KeyModel, Value>,
    time: SystemTime,
    now: u64,
    refusals: Set<Error>,
    made: Seq<Answered>,
    result: Result<Option<Task>, Error>,
    i: int,
    error: Error,
)
    requires
        reads(time, now),
        queue::claim_call(
            before,
            after,
            clock::timestamp_of(time),
            refusals,
            made,
            result,
        ),
        0 <= i < made.len(),
        made[i].reply == Err::<Answer, Error>(error),
    ensures
        result == Err::<Option<Task>, Error>(error),
        after == before,
{
    laws::law_refusal_ends_the_claim(before, after, now, refusals, made, result, i, error);
}

/// Where the clock shows no time, nothing is claimed and the store is not asked for anything.
pub proof fn law_no_claim_without_a_time(
    before: Map<KeyModel, Value>,
    after: Map<KeyModel, Value>,
    time: SystemTime,
    refusals: Set<Error>,
    made: Seq<Answered>,
    result: Result<Option<Task>, Error>,
)
    requires
        clock::since_epoch(time) is None,
        queue::claim_call(before, after, clock::timestamp_of(time), refusals, made, result),
    ensures
        result == Err::<Option<Task>, Error>(Error::BeforeEpoch),
        after == before,
        made.len() == 0,
{
}

/// A running task that was finished is finished since now, with its value, and running no more. No
/// other entry has changed.
pub proof fn law_finished_now(
    before: Map<KeyModel, Value>,
    after: Map<KeyModel, Value>,
    time: SystemTime,
    now: u64,
    refusals: Set<Error>,
    made: Seq<Answered>,
    running: RunningModel,
)
    requires
        reads(time, now),
        queue::finish_call(
            before,
            after,
            StateModel::Running(running),
            clock::timestamp_of(time),
            refusals,
            made,
            Ok(()),
        ),
    ensures
        ({
            let finished = FinishedModel { name: running.task_name, finish_timestamp: now };
            &&& before.contains_key(running.key())
            &&& !after.contains_key(running.key())
            &&& after.contains_key(finished.key())
            &&& after[finished.key()] == before[running.key()]
            &&& forall|key: KeyModel|
                key != running.key() && key != finished.key() ==> #[trigger] laws::same_at(
                    before,
                    after,
                    key,
                )
        }),
{
    laws::lemma_scopes_differ();
}

/// Finishing succeeds of a running task unless the store refuses it. Otherwise it fails, for a task
/// that is not there or not in the state of a running one too, and the store is left as it was.
pub proof fn law_finish_is_for_running_tasks(
    before: Map<KeyModel, Value>,
    after: Map<KeyModel, Value>,
    time: SystemTime,
    now: u64,
    refusals: Set<Error>,
    made: Seq<Answered>,
    state: StateModel,
    result: Result<(), Error>,
)
    requires
        reads(time, now),
        queue::finish_call(
            before,
            after,
            state,
            clock::timestamp_of(time),
            refusals,
            made,
            result,
        ),
    ensures
        match (state, result) {
            (StateModel::Running(_), Ok(())) => before.contains_key(state.key()),
            (StateModel::Running(_), Err(error)) => {
                &&& refusals.contains(error) || error == Error::UnknownKey
                &&& refusals.contains(error) || !before.contains_key(state.key())
            },
            (StateModel::Pending(_), Err(Error::Other(message))) => message@
                == "Cannot finish task "@ + "pending"@ + ". It is not running."@,
            (StateModel::Finished(_), Err(Error::Other(message))) => message@
                == "Cannot finish task "@ + "finished"@ + ". It is not running."@,
            _ => false,
        },
        result is Err ==> after == before,
        state is Running ==> made.len() == 1 && (result is Ok <==> made[0].reply is Ok) && (
        result matches Err(error) ==> made[0].reply == Err::<Answer, Error>(error)),
        !(state is Running) ==> made.len() == 0,
{
}

/// Where the clock shows no time, nothing is finished and the store is not asked for anything.
pub proof fn law_no_finish_without_a_time(
    before: Map<KeyModel, Value>,
    after: Map<KeyModel, Value>,
    state: StateModel,
    time: SystemTime,
    refusals: Set<Error>,
    made: Seq<Answered>,
    result: Result<(), Error>,
)
    requires
        clock::since_epoch(time) is None,
        queue::finish_call(before, after, state, clock::timestamp_of(time), refusals, made, result),
    ensures
        result == Err::<(), Error>(Error::BeforeEpoch),
        after == before,
        made.len() == 0,
{
}

/// Cleaning up keeps every finished task that finished less than the timeout ago, and every other
/// entry that is not one of a finished task.
pub proof fn law_clean_up_keeps_what_is_recent<B: KeyValueStoreBackend>(
    before: Map<KeyModel, Value>,
    after: Map<KeyModel, Value>,
    time: SystemTime,
    now: u64,
    remove_after: Option<&Duration>,
    seconds: u64,
    refusals: Set<Error>,
    made: Seq<Answered>,
    result: Result<(), Error>,
    key: KeyModel,
)
    requires
        reads(time, now),
        seconds == match remove_after {
            Some(timeout) => clock::whole_seconds(*timeout),
            None => 604800u64,
        },
        queue::clean_up_call(
            before,
            after,
            clock::cutoff_of(
                time,
                queue::timeout_seconds(remove_after, <KeyValueStore<B> as Queue>::REMOVE_AFTER),
            ),
            refusals,
            made,
            result,
        ),
        forall|task: FinishedModel|
            segment::is_segment(task.name.name) && #[trigger] task.key() == key
                ==> task.finish_timestamp + seconds > now,
    ensures
        laws::same_at(before, after, key),
{
    queue::law_default_timeouts::<B>();
    if seconds <= now {
        let limit = (now - seconds) as u64;
        laws::law_clean_up_spares_the_rest(before, after, limit, refusals, made, result);
        if laws::is_expired(key, limit) {
            let task = select::finished_by(key, limit)->0;
            assert(task.key() == key);
        }
        assert(laws::same_at(before, after, key));
    }
}

/// Where the store refuses nothing, no finished task is left that finished the timeout ago or
/// earlier.
pub proof fn law_clean_up_removes_what_is_old<B: KeyValueStoreBackend>(
    before: Map<KeyModel, Value>,
    after: Map<KeyModel, Value>,
    time: SystemTime,
    now: u64,
    remove_after: Option<&Duration>,
    seconds: u64,
    refusals: Set<Error>,
    made: Seq<Answered>,
    result: Result<(), Error>,
    task: FinishedModel,
)
    requires
        reads(time, now),
        seconds == match remove_after {
            Some(timeout) => clock::whole_seconds(*timeout),
            None => 604800u64,
        },
        queue::clean_up_call(
            before,
            after,
            clock::cutoff_of(
                time,
                queue::timeout_seconds(remove_after, <KeyValueStore<B> as Queue>::REMOVE_AFTER),
            ),
            refusals,
            made,
            result,
        ),
        refusals.is_empty(),
        segment::is_segment(task.name.name),
        task.finish_timestamp + seconds <= now,
    ensures
        result is Ok,
        !after.contains_key(task.key()),
{
    queue::law_default_timeouts::<B>();
    let limit = (now - seconds) as u64;
    assert(refusals =~= Set::empty());
    laws::law_clean_up_removes_the_expired(before, after, limit, made, result);
    task::lemma_finished_round_trip(task);
    assert(laws::is_expired(task.key(), limit));
}

/// Cleaning up asks for the removal of each finished task that finished the timeout ago or earlier,
/// whatever the store answers. Where the store removes the task it is gone, and where it refuses
/// to, the task stays.
pub proof fn law_clean_up_goes_by_the_answers<B: KeyValueStoreBackend>(
    before: Map<KeyModel, Value>,
    after: Map<KeyModel, Value>,
    time: SystemTime,
    now: u64,
    remove_after: Option<&Duration>,
    seconds: u64,
    refusals: Set<Error>,
    made: Seq<Answered>,
    task: FinishedModel,
) -> (i: int)
    requires
        reads(time, now),
        seconds == match remove_after {
            Some(timeout) => clock::whole_seconds(*timeout),
            None => 604800u64,
        },
        queue::clean_up_call(
            before,
            after,
            clock::cutoff_of(
                time,
                queue::timeout_seconds(remove_after, <KeyValueStore<B> as Queue>::REMOVE_AFTER),
            ),
            refusals,
            made,
            Ok(()),
        ),
        segment::is_segment(task.name.name),
        task.finish_timestamp + seconds <= now,
        before.contains_key(task.key()),
    ensures
        0 <= i < made.len(),
        made[i].request == (Request::Delete { key: task.key() }),
        made[i].reply is Ok ==> !after.contains_key(task.key()),
        (forall|j: int|
            0 <= j < made.len() && (#[trigger] made[j]).request == (Request::Delete {
                key: task.key(),
            }) ==> made[j].reply is Err && refusals.contains(made[j].reply->Err_0))
            ==> laws::same_at(before, after, task.key()),
{
    queue::law_default_timeouts::<B>();
    let limit = (now - seconds) as u64;
    task::lemma_finished_round_trip(task);
    let i = laws::law_clean_up_asks_for_each(before, after, limit, refusals, made, task.key());
    if forall|j: int|
        0 <= j < made.len() && (#[trigger] made[j]).request == (Request::Delete {
            key: task.key(),
        }) ==> made[j].reply is Err && refusals.contains(made[j].reply->Err_0) {
        laws::law_clean_up_keeps_what_is_refused(before, after, limit, refusals, made, task.key());
    }
    i
}

/// Cleaning up fails where the store refuses to list the finished tasks, with its error, or where
/// the timeout reaches back before the epoch. The store is then left as it was.
pub proof fn law_clean_up_fails_for_a_reason<B: KeyValueStoreBackend>(
    before: Map<KeyModel, Value>,
    after: Map<KeyModel, Value>,
    time: SystemTime,
    now: u64,
    remove_after: Option<&Duration>,
    seconds: u64,
    refusals: Set<Error>,
    made: Seq<Answered>,
    error: Error,
)
    requires
        reads(time, now),
        seconds == match remove_after {
            Some(timeout) => clock::whole_seconds(*timeout),
            None => 604800u64,
        },
        queue::clean_up_call(
            before,
            after,
            clock::cutoff_of(
                time,
                queue::timeout_seconds(remove_after, <KeyValueStore<B> as Queue>::REMOVE_AFTER),
            ),
            refusals,
            made,
            Err(error),
        ),
    ensures
        after == before,
        if seconds <= now {
            &&& refusals.contains(error)
            &&& made.len() == 1
            &&& made[0].reply == Err::<Answer, Error>(error)
        } else {
            error == Error::BeforeEpoch && made.len() == 0
        },
{
    queue::law_default_timeouts::<B>();
}

/// Cleaning up needs a time that the timeout does not reach back behind.
pub proof fn law_clean_up_needs_time<B: KeyValueStoreBackend>(
    before: Map<KeyModel, Value>,
    after: Map<KeyModel, Value>,
    time: SystemTime,
    now: u64,
    remove_after: Option<&Duration>,
    seconds: u64,
    refusals: Set<Error>,
    made: Seq<Answered>,
    result: Result<(), Error>,
)
    requires
        reads(time, now),
        seconds == match remove_after {
            Some(timeout) => clock::whole_seconds(*timeout),
            None => 604800u64,
        },
        queue::clean_up_call(
            before,
            after,
            clock::cutoff_of(
                time,
                queue::timeout_seconds(remove_after, <KeyValueStore<B> as Queue>::REMOVE_AFTER),
            ),
            refusals,
            made,
            result,
        ),
        now < seconds,
    ensures
        result == Err::<(), Error>(Error::BeforeEpoch),
        after == before,
        made.len() == 0,
{
    queue::law_default_timeouts::<B>();
}

/// A task that was just finished outlives every clean-up that comes within the timeout.
pub proof fn law_finished_task_outlives_clean_up<B: KeyValueStoreBackend>(
    before: Map<KeyModel, Value>,
    between: Map<KeyModel, Value>,
    after: Map<KeyModel, Value>,
    running: RunningModel,
    finish_time: SystemTime,
    finish_now: u64,
    time: SystemTime,
    now: u64,
    remove_after: Option<&Duration>,
    seconds: u64,
    finish_refusals: Set<Error>,
    refusals: Set<Error>,
    finish_made: Seq<Answered>,
    made: Seq<Answered>,
    result: Result<(), Error>,
)
    requires
        segment::is_segment(running.task_name.name),
        reads(finish_time, finish_now),
        queue::finish_call(
            before,
            between,
            StateModel::Running(running),
            clock::timestamp_of(finish_time),
            finish_refusals,
            finish_made,
            Ok(()),
        ),
        reads(time, now),
        seconds == match remove_after {
            Some(timeout) => clock::whole_seconds(*timeout),
            None => 604800u64,
        },
        queue::clean_up_call(
            between,
            after,
            clock::cutoff_of(
                time,
                queue::timeout_seconds(remove_after, <KeyValueStore<B> as Queue>::REMOVE_AFTER),
            ),
            refusals,
            made,
            result,
        ),
        now < finish_now + seconds,
    ensures
        ({
            let finished = FinishedModel {
                name: running.task_name,
                finish_timestamp: finish_now,
            };
            after.contains_key(finished.key()) && after[finished.key()] == before[running.key()]
        }),
{
    let finished = FinishedModel { name: running.task_name, finish_timestamp: finish_now };
    law_finished_now(
        before,
        between,
        finish_time,
        finish_now,
        finish_refusals,
        finish_made,
        running,
    );
    assert forall|task: FinishedModel|
        segment::is_segment(task.name.name) && #[trigger] task.key()
            == finished.key() implies task.finish_timestamp + seconds > now by {
        laws::law_keys_tell_tasks_apart(StateModel::Finished(task), StateModel::Finished(finished));
    }
    law_clean_up_keeps_what_is_recent::<B>(
        between,
        after,
        time,
        now,
        remove_after,
        seconds,
        refusals,
        made,
        result,
        finished.key(),
    );
}

/// Where the store refuses nothing, each running task that was claimed the timeout ago or earlier
/// is running no more and is pending under its name, scheduled for now. It has its own value,
/// unless several such tasks have the name.
pub proof fn law_timed_out_task_is_due_now<B: KeyValueStoreBackend>(
    before: Map<KeyModel, Value>,
    after: Map<KeyModel, Value>,
    time: SystemTime,
    now: u64,
    reschedule_after: Option<&Duration>,
    seconds: u64,
    refusals: Set<Error>,
    made: Seq<Answered>,
    result: Result<(), Error>,
    running: RunningModel,
)
    requires
        reads(time, now),
        seconds == match reschedule_after {
            Some(timeout) => clock::whole_seconds(*timeout),
            None => 900u64,
        },
        queue::reschedule_call(
            before,
            after,
            clock::cutoff_of(
                time,
                queue::timeout_seconds(
                    reschedule_after,
                    <KeyValueStore<B> as Queue>::RESCHEDULE_AFTER,
                ),
            ),
            refusals,
            made,
            result,
        ),
        refusals.is_empty(),
        segment::is_segment(running.task_name.name),
        running.claim_timestamp + seconds <= now,
        before.contains_key(running.key()),
    ensures
        result is Ok,
        ({
            let pending = PendingModel { name: running.task_name.name, schedule_timestamp: now };
            &&& !after.contains_key(running.key())
            &&& after.contains_key(pending.key())
            &&& (forall|other: RunningModel|
                other.task_name.name == running.task_name.name && other.claim_timestamp + seconds
                    <= now && #[trigger] before.contains_key(other.key()) ==> other == running)
                ==> after[pending.key()] == before[running.key()]
        }),
{
    queue::law_default_timeouts::<B>();
    let limit = (now - seconds) as u64;
    assert(refusals =~= Set::empty());
    laws::law_reschedule_makes_pending(before, after, now, limit, made, result, running);
}

/// Where several timed-out tasks have a name, the last of them that the store lists is the one
/// whose value the pending task has, if nothing is refused and running keys are as tasks have
/// them.
pub proof fn law_last_listed_is_pending<B: KeyValueStoreBackend>(
    before: Map<KeyModel, Value>,
    after: Map<KeyModel, Value>,
    time: SystemTime,
    now: u64,
    reschedule_after: Option<&Duration>,
    seconds: u64,
    refusals: Set<Error>,
    made: Seq<Answered>,
    running: RunningModel,
    keys: Seq<KeyModel>,
    p: int,
)
    requires
        reads(time, now),
        seconds == match reschedule_after {
            Some(timeout) => clock::whole_seconds(*timeout),
            None => 900u64,
        },
        queue::reschedule_call(
            before,
            after,
            clock::cutoff_of(
                time,
                queue::timeout_seconds(
                    reschedule_after,
                    <KeyValueStore<B> as Queue>::RESCHEDULE_AFTER,
                ),
            ),
            refusals,
            made,
            Ok(()),
        ),
        refusals.is_empty(),
        made[0].reply == Ok::<Answer, Error>(Answer::Keys(keys)),
        0 <= p < keys.len(),
        keys[p] == running.key(),
        segment::is_segment(running.task_name.name),
        running.claim_timestamp + seconds <= now,
        forall|q: int|
            0 <= q < keys.len() ==> (task::running_of(#[trigger] keys[q].name) matches Ok(other)
                ==> other.key() == keys[q]),
        forall|q: int|
            p < q < keys.len() ==> (task::running_of(#[trigger] keys[q].name) matches Ok(other)
                ==> other.claim_timestamp + seconds > now || other.task_name.name
                != running.task_name.name),
    ensures
        after[(PendingModel {
            name: running.task_name.name,
            schedule_timestamp: now,
        }).key()] == before[running.key()],
{
    queue::law_default_timeouts::<B>();
    let limit = (now - seconds) as u64;
    assert(refusals =~= Set::empty());
    laws::lemma_last_listed(before, after, now, limit, made, keys, p, running);
}

/// Rescheduling changes no entry but those of running tasks that were claimed the timeout ago or
/// earlier, and those under which such a task becomes pending for now. A task that was claimed
/// later keeps running.
pub proof fn law_reschedule_spares_what_is_recent<B: KeyValueStoreBackend>(
    before: Map<KeyModel, Value>,
    after: Map<KeyModel, Value>,
    time: SystemTime,
    now: u64,
    reschedule_after: Option<&Duration>,
    seconds: u64,
    refusals: Set<Error>,
    made: Seq<Answered>,
    result: Result<(), Error>,
    key: KeyModel,
)
    requires
        reads(time, now),
        seconds == match reschedule_after {
            Some(timeout) => clock::whole_seconds(*timeout),
            None => 900u64,
        },
        queue::reschedule_call(
            before,
            after,
            clock::cutoff_of(
                time,
                queue::timeout_seconds(
                    reschedule_after,
                    <KeyValueStore<B> as Queue>::RESCHEDULE_AFTER,
                ),
            ),
            refusals,
            made,
            result,
        ),
        forall|running: RunningModel|
            segment::is_segment(running.task_name.name) && running.claim_timestamp + seconds <= now
                ==> #[trigger] running.key() != key && (before.contains_key(running.key()) ==> (
            PendingModel { name: running.task_name.name, schedule_timestamp: now }).key() != key),
    ensures
        laws::same_at(before, after, key),
{
    queue::law_default_timeouts::<B>();
    if seconds <= now {
        let limit = (now - seconds) as u64;
        laws::law_reschedule_spares_the_rest(before, after, now, limit, refusals, made, result);
        if laws::is_timed_out(key, limit) {
            let running = select::claimed_by(key, limit)->0;
            assert(running.key() == key);
        }
        if laws::is_pending_again(before, key, limit, now) {
            let running = choose|running: RunningModel|
                {
                    &&& running.valid() && running.claim_timestamp <= limit
                    &&& #[trigger] before.contains_key(running.key())
                    &&& queue::pending_again(running, now).key() == key
                };
            assert(running.key() != key);
        }
        assert(laws::same_at(before, after, key));
    }
}

/// Rescheduling asks for each running task that was claimed the timeout ago or earlier, whatever
/// the store answers. Where the store moves the task, it is pending for now, and where it refuses
/// to, the task keeps running.
pub proof fn law_reschedule_goes_by_the_answers<B: KeyValueStoreBackend>(
    before: Map<KeyModel, Value>,
    after: Map<KeyModel, Value>,
    time: SystemTime,
    now: u64,
    reschedule_after: Option<&Duration>,
    seconds: u64,
    refusals: Set<Error>,
    made: Seq<Answered>,
    running: RunningModel,
) -> (i: int)
    requires
        reads(time, now),
        seconds == match reschedule_after {
            Some(timeout) => clock::whole_seconds(*timeout),
            None => 900u64,
        },
        queue::reschedule_call(
            before,
            after,
            clock::cutoff_of(
                time,
                queue::timeout_seconds(
                    reschedule_after,
                    <KeyValueStore<B> as Queue>::RESCHEDULE_AFTER,
                ),
            ),
            refusals,
            made,
            Ok(()),
        ),
        segment::is_segment(running.task_name.name),
        running.claim_timestamp + seconds <= now,
        before.contains_key(running.key()),
    ensures
        ({
            let pending = PendingModel { name: running.task_name.name, schedule_timestamp: now };
            let request = Request::Move { from: running.key(), to: pending.key() };
            &&& 0 <= i < made.len()
            &&& made[i].request == request
            &&& made[i].reply is Ok ==> !after.contains_key(running.key()) && after.contains_key(
                pending.key(),
            )
            &&& (forall|j: int|
                0 <= j < made.len() && (#[trigger] made[j]).request == request ==> made[j].reply
                    is Err && refusals.contains(made[j].reply->Err_0)) ==> laws::same_at(
                before,
                after,
                running.key(),
            )
        }),
{
    queue::law_default_timeouts::<B>();
    let limit = (now - seconds) as u64;
    let request = queue::reschedule_request(running, now);
    let i = laws::law_reschedule_asks_for_each(
        before,
        after,
        now,
        limit,
        refusals,
        made,
        running,
    );
    if made[i].reply is Ok {
        laws::law_rescheduled_unless_refused(
            before,
            after,
            now,
            limit,
            refusals,
            made,
            running,
            i,
        );
    }
    if forall|j: int|
        0 <= j < made.len() && (#[trigger] made[j]).request == request ==> made[j].reply is Err
            && refusals.contains(made[j].reply->Err_0) {
        laws::law_refused_task_keeps_running(
            before,
            after,
            now,
            limit,
            refusals,
            made,
            running,
        );
    }
    i
}

/// Rescheduling fails where the store refuses to list the running tasks, with its error, or where
/// the timeout reaches back before the epoch. The store is then left as it was.
pub proof fn law_reschedule_fails_for_a_reason<B: KeyValueStoreBackend>(
    before: Map<KeyModel, Value>,
    after: Map<KeyModel, Value>,
    time: SystemTime,
    now: u64,
    reschedule_after: Option<&Duration>,
    seconds: u64,
    refusals: Set<Error>,
    made: Seq<Answered>,
    error: Error,
)
    requires
        reads(time, now),
        seconds == match reschedule_after {
            Some(timeout) => clock::whole_seconds(*timeout),
            None => 900u64,
        },
        queue::reschedule_call(
            before,
            after,
            clock::cutoff_of(
                time,
                queue::timeout_seconds(
                    reschedule_after,
                    <KeyValueStore<B> as Queue>::RESCHEDULE_AFTER,
                ),
            ),
            refusals,
            made,
            Err(error),
        ),
    ensures
        after == before,
        if seconds <= now {
            &&& refusals.contains(error)
            &&& made.len() == 1
            &&& made[0].reply == Err::<Answer, Error>(error)
        } else {
            error == Error::BeforeEpoch && made.len() == 0
        },
{
    queue::law_default_timeouts::<B>();
}

/// Rescheduling needs a time that the timeout does not reach back behind.
pub proof fn law_reschedule_needs_time<B: KeyValueStoreBackend>(
    before: Map<KeyModel, Value>,
    after: Map<KeyModel, Value>,
    time: SystemTime,
    now: u64,
    reschedule_after: Option<&Duration>,
    seconds: u64,
    refusals: Set<Error>,
    made: Seq<Answered>,
    result: Result<(), Error>,
)
    requires
        reads(time, now),
        seconds == match reschedule_after {
            Some(timeout) => clock::whole_seconds(*timeout),
            None => 900u64,
        },
        queue::reschedule_call(
            before,
            after,
            clock::cutoff_of(
                time,
                queue::timeout_seconds(
                    reschedule_after,
                    <KeyValueStore<B> as Queue>::RESCHEDULE_AFTER,
                ),
            ),
            refusals,
            made,
            result,
        ),
        now < seconds,
    ensures
        result == Err::<(), Error>(Error::BeforeEpoch),
        after == before,
        made.len() == 0,
{
    queue::law_default_timeouts::<B>();
}

/// Where the clock shows no time, nothing is rescheduled or cleaned up and the store is not asked
/// for anything.
pub proof fn law_no_cutoff_without_a_time(
    before: Map<KeyModel, Value>,
    rescheduled: Map<KeyModel, Value>,
    cleaned: Map<KeyModel, Value>,
    time: SystemTime,
    timeout: u64,
    refusals: Set<Error>,
    reschedule_made: Seq<Answered>,
    clean_up_made: Seq<Answered>,
    reschedule_result: Result<(), Error>,
    clean_up_result: Result<(), Error>,
)
    requires
        clock::since_epoch(time) is None,
        queue::reschedule_call(
            before,
            rescheduled,
            clock::cutoff_of(time, timeout),
            refusals,
            reschedule_made,
            reschedule_result,
        ),
        queue::clean_up_call(
            before,
            cleaned,
            clock::cutoff_of(time, timeout),
            refusals,
            clean_up_made,
            clean_up_result,
        ),
    ensures
        reschedule_result == Err::<(), Error>(Error::BeforeEpoch),
        clean_up_result == Err::<(), Error>(Error::BeforeEpoch),
        rescheduled == before,
        cleaned == before,
        reschedule_made.len() == 0,
        clean_up_made.len() == 0,
{
}

/// A task that timed out can be claimed again as soon as it was rescheduled: a claim that does not
/// come before the rescheduling finds a task.
pub proof fn law_rescheduled_task_can_be_claimed<B: KeyValueStoreBackend>(
    before: Map<KeyModel, Value>,
    after: Map<KeyModel, Value>,
    time: SystemTime,
    now: u64,
    reschedule_after: Option<&Duration>,
    seconds: u64,
    refusals: Set<Error>,
    made: Seq<Answered>,
    result: Result<(), Error>,
    running: RunningModel,
    claimed_from: Map<KeyModel, Value>,
    claim_time: SystemTime,
    claim_now: u64,
    claim_made: Seq<Answered>,
    claim: Result<Option<Task>, Error>,
)
    requires
        reads(time, now),
        seconds == match reschedule_after {
            Some(timeout) => clock::whole_seconds(*timeout),
            None => 900u64,
        },
        queue::reschedule_call(
            before,
            after,
            clock::cutoff_of(
                time,
                queue::timeout_seconds(
                    reschedule_after,
                    <KeyValueStore<B> as Queue>::RESCHEDULE_AFTER,
                ),
            ),
            refusals,
            made,
            result,
        ),
        refusals.is_empty(),
        segment::is_segment(running.task_name.name),
        running.claim_timestamp + seconds <= now,
        before.contains_key(running.key()),
        laws::plain_pending(before),
        reads(claim_time, claim_now),
        now <= claim_now,
        queue::claim_call(
            after,
            claimed_from,
            clock::timestamp_of(claim_time),
            refusals,
            claim_made,
            claim,
        ),
    ensures
        claim is Ok,
        claim->Ok_0 is Some,
{
    queue::law_default_timeouts::<B>();
    let limit = (now - seconds) as u64;
    law_timed_out_task_is_due_now::<B>(
        before,
        after,
        time,
        now,
        reschedule_after,
        seconds,
        refusals,
        made,
        result,
        running,
    );
    laws::law_reschedule_spares_the_rest(before, after, now, limit, refusals, made, result);
    law_what_is_due_is_claimed(
        after,
        claimed_from,
        claim_time,
        claim_now,
        refusals,
        claim_made,
        claim,
        PendingModel { name: running.task_name.name, schedule_timestamp: now },
    );
}

/// The number of pending tasks is that of the keys in their scope, whatever the keys are. Counting
/// fails only with the refusal of the store.
pub proof fn law_count(
    entries: Map<KeyModel, Value>,
    refusals: Set<Error>,
    made: Seq<Answered>,
    result: Result<usize, Error>,
    keys: Seq<KeyModel>,
)
    requires
        queue::count_outcome(entries, refusals, made, result),
        keys.no_duplicates(),
        forall|key: KeyModel| #[trigger]
            keys.contains(key) <==> entries.contains_key(key) && key.scope == seq!["pending"@],
    ensures
        match result {
            Ok(count) => count == keys.len(),
            Err(error) => {
                &&& refusals.contains(error)
                &&& made.len() == 1
                &&& made[0].reply == Err::<Answer, Error>(error)
            },
        },
{
    queue::lemma_listing_counts(keys, entries, task::pending_scope());
}

/// Scheduling makes the number of pending tasks one more where none had the name, and leaves it
/// where one had.
pub proof fn law_schedule_is_counted(
    before: Map<KeyModel, Value>,
    after: Map<KeyModel, Value>,
    name: Seq<char>,
    value: Value,
    timestamp: u64,
    refusals: Set<Error>,
    made: Seq<Answered>,
    count_refusals: Set<Error>,
    earlier_made: Seq<Answered>,
    later_made: Seq<Answered>,
    earlier: usize,
    later: usize,
)
    requires
        segment::is_segment(name),
        laws::distinct_names(before),
        queue::schedule_call(
            before,
            after,
            name,
            value,
            Ok(timestamp),
            refusals,
            made,
            Ok(()),
        ),
        queue::count_outcome(before, count_refusals, earlier_made, Ok(earlier)),
        queue::count_outcome(after, count_refusals, later_made, Ok(later)),
    ensures
        (exists|other: PendingModel|
            other.name == name && #[trigger] before.contains_key(other.key())) ==> later == earlier,
        (forall|other: PendingModel| #[trigger]
            before.contains_key(other.key()) ==> other.name != name) ==> later == earlier + 1,
{
    let task = PendingModel { name, schedule_timestamp: timestamp };
    laws::law_schedule_counts(before, after, task, value, refusals, made);
    if exists|other: PendingModel|
        other.name == name && #[trigger] before.contains_key(other.key()) {
        let other = choose|other: PendingModel|
            other.name == name && #[trigger] before.contains_key(other.key());
        assert(other.valid());
    }
}

/// A claim makes the number of pending tasks one less, and a claim that gives nothing leaves it.
pub proof fn law_claim_is_counted(
    before: Map<KeyModel, Value>,
    after: Map<KeyModel, Value>,
    time: SystemTime,
    now: u64,
    refusals: Set<Error>,
    made: Seq<Answered>,
    claimed: Option<Task>,
    count_refusals: Set<Error>,
    earlier_made: Seq<Answered>,
    later_made: Seq<Answered>,
    earlier: usize,
    later: usize,
)
    requires
        reads(time, now),
        queue::claim_call(
            before,
            after,
            clock::timestamp_of(time),
            refusals,
            made,
            Ok(claimed),
        ),
        queue::count_outcome(before, count_refusals, earlier_made, Ok(earlier)),
        queue::count_outcome(after, count_refusals, later_made, Ok(later)),
    ensures
        claimed is Some ==> later + 1 == earlier,
        claimed is None ==> later == earlier,
{
    if let Some(task) = claimed {
        laws::law_claim_counts(before, after, now, refusals, made, task);
    }
}

/// A look for a name finds the time of the first listed task of that name, and nothing where none
/// of the listed keys has it. It fails only with the refusal of the store.
pub proof fn law_look(
    entries: Map<KeyModel, Value>,
    name: Seq<char>,
    refusals: Set<Error>,
    made: Seq<Answered>,
    result: Result<Option<u64>, Error>,
)
    requires
        queue::lookup_outcome(entries, name, refusals, made, result),
    ensures
        made.len() == 1,
        made[0].request == (Request::List { scope: seq!["pending"@] }),
        made[0].reply matches Ok(Answer::Keys(keys)) ==> forall|key: KeyModel| #[trigger]
            keys.contains(key) <==> entries.contains_key(key) && key.scope == seq!["pending"@],
        match (made[0].reply, result) {
            (Ok(Answer::Keys(keys)), Ok(Some(time))) => exists|i: int|
                {
                    &&& 0 <= i < keys.len()
                    &&& task::pending_of(#[trigger] keys[i].name) == Ok::<PendingModel, Error>(
                        PendingModel { name, schedule_timestamp: time },
                    )
                    &&& forall|j: int|
                        0 <= j < i ==> (task::pending_of(#[trigger] keys[j].name) matches Ok(other)
                            ==> other.name != name)
                },
            (Ok(Answer::Keys(keys)), Ok(None)) => forall|j: int|
                0 <= j < keys.len() ==> (task::pending_of(#[trigger] keys[j].name) matches Ok(other)
                    ==> other.name != name),
            (Err(refusal), Err(error)) => refusal == error && refusals.contains(error),
            _ => false,
        },
{
    if let Ok(time) = result {
        let (keys, found) = choose|keys: Seq<KeyModel>, found: Option<PendingModel>|
            {
                &&& #[trigger] queue::lists_first(entries, task::pending_scope(), made, keys)
                &&& #[trigger] select::is_first_named(keys, name, found)
                &&& made.len() == 1
                &&& time == match found {
                    Some(task) => Some(task.schedule_timestamp),
                    None => None,
                }
            };
        match found {
            Some(task) => {
                let i = choose|i: int|
                    {
                        &&& 0 <= i < keys.len()
                        &&& #[trigger] select::named(keys[i], name) == Some(task)
                        &&& forall|j: int|
                            0 <= j < i ==> #[trigger] select::named(keys[j], name) is None
                    };
                assert forall|j: int| 0 <= j < i implies (task::pending_of(
                    #[trigger] keys[j].name,
                ) matches Ok(other) ==> other.name != name) by {
                    assert(select::named(keys[j], name) is None);
                }
                assert(task::pending_of(keys[i].name) == Ok::<PendingModel, Error>(task));
            },
            None => {
                assert forall|j: int| 0 <= j < keys.len() implies (task::pending_of(
                    #[trigger] keys[j].name,
                ) matches Ok(other) ==> other.name != name) by {
                    assert(select::named(keys[j], name) is None);
                }
            },
        }
    }
}

/// A call to schedule a task, for the given time or, without one, for that of a clock
/// reading.
pub proof fn law_schedule_task_call<B: KeyValueStoreBackend>(
    store: &mut KeyValueStore<B>,
    name: SegmentBuf,
    value: Value,
    timestamp: Option<u64>,
    result: Result<(), Error>,
)
    requires
        call_ensures(
            <KeyValueStore<B> as Queue>::schedule_task,
            (store, name, value, timestamp),
            result,
        ),
    ensures
        timestamp matches Some(given) ==> queue::schedule_call(
            old(store).inner.entries(),
            final(store).inner.entries(),
            name@,
            value,
            Ok(given),
            old(store).inner.refusals(),
            store::made_since(
                old(store).inner.requests(),
                final(store).inner.requests(),
            ),
            result,
        ),
        timestamp is None ==> exists|time: SystemTime|
            queue::schedule_call(
                old(store).inner.entries(),
                final(store).inner.entries(),
                name@,
                value,
                #[trigger] clock::timestamp_of(time),
                old(store).inner.refusals(),
                store::made_since(
                    old(store).inner.requests(),
                    final(store).inner.requests(),
                ),
                result,
            ),
        final(store).inner.refusals() == old(store).inner.refusals(),
        old(store).inner.requests().is_prefix_of(final(store).inner.requests()),
{
}

/// A call to finish a task, at the time of a clock reading.
pub proof fn law_finish_running_task_call<B: KeyValueStoreBackend>(
    store: &mut KeyValueStore<B>,
    task: Task,
    result: Result<(), Error>,
)
    requires
        call_ensures(<KeyValueStore<B> as Queue>::finish_running_task, (store, task), result),
    ensures
        exists|time: SystemTime|
            queue::finish_call(
                old(store).inner.entries(),
                final(store).inner.entries(),
                task.state@,
                #[trigger] clock::timestamp_of(time),
                old(store).inner.refusals(),
                store::made_since(
                    old(store).inner.requests(),
                    final(store).inner.requests(),
                ),
                result,
            ),
        final(store).inner.refusals() == old(store).inner.refusals(),
        old(store).inner.requests().is_prefix_of(final(store).inner.requests()),
{
}

/// A call to claim a task, at the time of a clock reading.
pub proof fn law_claim_scheduled_pending_task_call<B: KeyValueStoreBackend>(
    store: &mut KeyValueStore<B>,
    result: Result<Option<Task>, Error>,
)
    requires
        call_ensures(<KeyValueStore<B> as Queue>::claim_scheduled_pending_task, (store,), result),
    ensures
        exists|time: SystemTime|
            queue::claim_call(
                old(store).inner.entries(),
                final(store).inner.entries(),
                #[trigger] clock::timestamp_of(time),
                old(store).inner.refusals(),
                store::made_since(
                    old(store).inner.requests(),
                    final(store).inner.requests(),
                ),
                result,
            ),
        final(store).inner.refusals() == old(store).inner.refusals(),
        old(store).inner.requests().is_prefix_of(final(store).inner.requests()),
{
}

/// A call to reschedule tasks, at the time of a clock reading.
pub proof fn law_reschedule_long_running_tasks_call<B: KeyValueStoreBackend>(
    store: &mut KeyValueStore<B>,
    reschedule_after: Option<&Duration>,
    result: Result<(), Error>,
)
    requires
        call_ensures(
            <KeyValueStore<B> as Queue>::reschedule_long_running_tasks,
            (store, reschedule_after),
            result,
        ),
    ensures
        exists|time: SystemTime|
            queue::reschedule_call(
                old(store).inner.entries(),
                final(store).inner.entries(),
                #[trigger] clock::cutoff_of(
                    time,
                    queue::timeout_seconds(
                        reschedule_after,
                        <KeyValueStore<B> as Queue>::RESCHEDULE_AFTER,
                    ),
                ),
                old(store).inner.refusals(),
                store::made_since(
                    old(store).inner.requests(),
                    final(store).inner.requests(),
                ),
                result,
            ),
        final(store).inner.refusals() == old(store).inner.refusals(),
        old(store).inner.requests().is_prefix_of(final(store).inner.requests()),
{
}

/// A call to clean up, at the time of a clock reading.
pub proof fn law_clean_up_finished_tasks_call<B: KeyValueStoreBackend>(
    store: &mut KeyValueStore<B>,
    remove_after: Option<&Duration>,
    result: Result<(), Error>,
)
    requires
        call_ensures(
            <KeyValueStore<B> as Queue>::clean_up_finished_tasks,
            (store, remove_after),
            result,
        ),
    ensures
        exists|time: SystemTime|
            queue::clean_up_call(
                old(store).inner.entries(),
                final(store).inner.entries(),
                #[trigger] clock::cutoff_of(
                    time,
                    queue::timeout_seconds(remove_after, <KeyValueStore<B> as Queue>::REMOVE_AFTER),
                ),
                old(store).inner.refusals(),
                store::made_since(
                    old(store).inner.requests(),
                    final(store).inner.requests(),
                ),
                result,
            ),
        final(store).inner.refusals() == old(store).inner.refusals(),
        old(store).inner.requests().is_prefix_of(final(store).inner.requests()),
{
}

/// A call to count the pending tasks, which leaves the entries as they are.
pub proof fn law_pending_tasks_remaining_call<B: KeyValueStoreBackend>(
    store: &mut KeyValueStore<B>,
    result: Result<usize, Error>,
)
    requires
        call_ensures(<KeyValueStore<B> as Queue>::pending_tasks_remaining, (store,), result),
    ensures
        queue::count_outcome(
            old(store).inner.entries(),
            old(store).inner.refusals(),
            store::made_since(old(store).inner.requests(), final(store).inner.requests()),
            result,
        ),
        final(store).inner.entries() == old(store).inner.entries(),
        final(store).inner.refusals() == old(store).inner.refusals(),
        old(store).inner.requests().is_prefix_of(final(store).inner.requests()),
{
}

/// A call to look for a name, which leaves the entries as they are.
pub proof fn law_pending_task_scheduled_call<B: KeyValueStoreBackend>(
    store: &mut KeyValueStore<B>,
    name: SegmentBuf,
    result: Result<Option<u64>, Error>,
)
    requires
        call_ensures(<KeyValueStore<B> as Queue>::pending_task_scheduled, (store, name), result),
    ensures
        queue::lookup_outcome(
            old(store).inner.entries(),
            name@,
            old(store).inner.refusals(),
            store::made_since(old(store).inner.requests(), final(store).inner.requests()),
            result,
        ),
        final(store).inner.entries() == old(store).inner.entries(),
        final(store).inner.refusals() == old(store).inner.refusals(),
        old(store).inner.requests().is_prefix_of(final(store).inner.requests()),
{
}

/// The scope of pending tasks is the one with that name.
pub proof fn law_pending_scope_call<B: KeyValueStoreBackend>(scope: Scope)
    requires
        call_ensures(<KeyValueStore<B> as Queue>::pending_scope, (), scope),
    ensures
        scope@ == seq!["pending"@],
{
}

/// A call to schedule a task for a given time.
pub proof fn law_schedule_at_call<B: KeyValueStoreBackend>(
    store: &mut KeyValueStore<B>,
    name: SegmentBuf,
    value: Value,
    timestamp: u64,
    result: Result<(), Error>,
)
    requires
        call_ensures(KeyValueStore::<B>::schedule_at, (store, name, value, timestamp), result),
    ensures
        queue::schedule_outcome(
            old(store).inner.entries(),
            final(store).inner.entries(),
            PendingModel { name: name@, schedule_timestamp: timestamp },
            value,
            old(store).inner.refusals(),
            store::made_since(old(store).inner.requests(), final(store).inner.requests()),
            result,
        ),
        final(store).inner.refusals() == old(store).inner.refusals(),
        old(store).inner.requests().is_prefix_of(final(store).inner.requests()),
{
}

/// A call to claim a task at a given time.
pub proof fn law_claim_at_call<B: KeyValueStoreBackend>(
    store: &mut KeyValueStore<B>,
    now: u64,
    result: Result<Option<Task>, Error>,
)
    requires
        call_ensures(KeyValueStore::<B>::claim_at, (store, now), result),
    ensures
        queue::claim_outcome(
            old(store).inner.entries(),
            final(store).inner.entries(),
            now,
            old(store).inner.refusals(),
            store::made_since(old(store).inner.requests(), final(store).inner.requests()),
            result,
        ),
        final(store).inner.refusals() == old(store).inner.refusals(),
        old(store).inner.requests().is_prefix_of(final(store).inner.requests()),
{
}

/// A call to finish a task at a given time.
pub proof fn law_finish_at_call<B: KeyValueStoreBackend>(
    store: &mut KeyValueStore<B>,
    task: Task,
    now: u64,
    result: Result<(), Error>,
)
    requires
        call_ensures(KeyValueStore::<B>::finish_at, (store, task, now), result),
    ensures
        queue::finish_outcome(
            old(store).inner.entries(),
            final(store).inner.entries(),
            task.state@,
            now,
            old(store).inner.refusals(),
            store::made_since(old(store).inner.requests(), final(store).inner.requests()),
            result,
        ),
        final(store).inner.refusals() == old(store).inner.refusals(),
        old(store).inner.requests().is_prefix_of(final(store).inner.requests()),
{
}

/// A call to reschedule tasks at a given time.
pub proof fn law_reschedule_at_call<B: KeyValueStoreBackend>(
    store: &mut KeyValueStore<B>,
    now: u64,
    timeout: u64,
    result: Result<(), Error>,
)
    requires
        call_ensures(KeyValueStore::<B>::reschedule_at, (store, now, timeout), result),
        timeout <= now,
    ensures
        queue::reschedule_outcome(
            old(store).inner.entries(),
            final(store).inner.entries(),
            now,
            (now - timeout) as u64,
            old(store).inner.refusals(),
            store::made_since(old(store).inner.requests(), final(store).inner.requests()),
            result,
        ),
        final(store).inner.refusals() == old(store).inner.refusals(),
        old(store).inner.requests().is_prefix_of(final(store).inner.requests()),
{
}

/// A call to clean up at a given time.
pub proof fn law_clean_up_at_call<B: KeyValueStoreBackend>(
    store: &mut KeyValueStore<B>,
    now: u64,
    timeout: u64,
    result: Result<(), Error>,
)
    requires
        call_ensures(KeyValueStore::<B>::clean_up_at, (store, now, timeout), result),
        timeout <= now,
    ensures
        queue::clean_up_outcome(
            old(store).inner.entries(),
            final(store).inner.entries(),
            (now - timeout) as u64,
            old(store).inner.refusals(),
            store::made_since(old(store).inner.requests(), final(store).inner.requests()),
            result,
        ),
        final(store).inner.refusals() == old(store).inner.refusals(),
        old(store).inner.requests().is_prefix_of(final(store).inner.requests()),
{
}

/// The current time is that of a clock reading.
pub proof fn law_current_time_call(result: Result<u64, Error>)
    requires
        call_ensures(clock::current_time, (), result),
    ensures
        match result {
            Ok(now) => exists|time: SystemTime| reads(time, now),
            Err(error) => error == Error::BeforeEpoch && exists|time: SystemTime| #[trigger]
                clock::since_epoch(time) is None,
        },
{
    let time = choose|time: SystemTime| result == #[trigger] clock::timestamp_of(time);
    law_clock_reading(time);
    if let Ok(now) = result {
        assert(reads(time, now));
    }
}

/// The current time is given where it lies the timeout after the epoch or later.
pub proof fn law_current_time_after_call(timeout: u64, result: Result<u64, Error>)
    requires
        call_ensures(clock::current_time_after, (timeout,), result),
    ensures
        match result {
            Ok(now) => timeout <= now && exists|time: SystemTime| reads(time, now),
            Err(error) => error == Error::BeforeEpoch && exists|time: SystemTime|
                match #[trigger] clock::since_epoch(time) {
                    Some(elapsed) => clock::whole_seconds(elapsed) < timeout,
                    None => true,
                },
        },
{
    let time = choose|time: SystemTime|
        match #[trigger] clock::cutoff_of(time, timeout) {
            Ok((now, limit)) => timeout <= now && limit == now - timeout && result == Ok::<
                u64,
                Error,
            >(now),
            Err(error) => result == Err::<u64, Error>(error),
        };
    law_clock_reading(time);
    match clock::since_epoch(time) {
        Some(elapsed) => {
            let now = clock::whole_seconds(elapsed);
            law_cutoff(time, now, timeout);
            assert(reads(time, now));
        },
        None => {},
    }
}

} // verus!
