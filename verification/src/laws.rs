//! What holds of the queue as a whole.
//!
//! Each law is stated over the outcomes that the operations of the queue promise, so that it
//! holds of every store on which those operations were carried out.

use std::time::{Duration, SystemTime};

use serde_json::Value;
use vstd::prelude::*;

use crate::clock;
use crate::error::Error;
use crate::key::KeyModel;
use crate::queue;
use crate::queue::Queue;
use crate::select;
use crate::store;
use crate::store::{Answer, Answered, KeyValueStore, KeyValueStoreBackend, Request};
use crate::task;
use crate::task::{FinishedModel, PendingModel, RunningModel, StateModel, Task};

verus! {

/// Whether a key in the scope of a task state is the key of a task in that state.
pub open spec fn is_task_key(key: KeyModel) -> bool {
    &&& key.scope == task::pending_scope() ==> (task::pending_of(key.name) matches Ok(task)
        && task.valid() && task.key() == key)
    &&& key.scope == task::running_scope() ==> (task::running_of(key.name) matches Ok(task)
        && task.valid() && task.key() == key)
    &&& key.scope == task::finished_scope() ==> (task::finished_of(key.name) matches Ok(task)
        && task.valid() && task.key() == key)
}

/// Whether the scopes of the task states hold tasks alone.
pub open spec fn only_tasks(entries: Map<KeyModel, Value>) -> bool {
    forall|key: KeyModel| #[trigger] entries.contains_key(key) ==> is_task_key(key)
}

/// Whether the scope of pending tasks holds pending tasks alone.
pub open spec fn only_pending_tasks(entries: Map<KeyModel, Value>) -> bool {
    forall|key: KeyModel| #[trigger]
        entries.contains_key(key) && key.scope == task::pending_scope() ==> is_task_key(key)
}

/// Whether a key in the scope of pending tasks that reads as a task is the key of that task.
pub open spec fn is_plain_key(key: KeyModel) -> bool {
    key.scope == task::pending_scope() ==> (task::pending_of(key.name) matches Ok(task)
        ==> task.key() == key)
}

/// Whether each pending key that reads as a task is the one under which the task is stored. There
/// may be other keys beside them.
pub open spec fn plain_pending(entries: Map<KeyModel, Value>) -> bool {
    forall|key: KeyModel| #[trigger] entries.contains_key(key) ==> is_plain_key(key)
}

/// Where the scopes of the task states hold tasks alone, so does that of pending tasks, and then
/// its keys are those under which tasks are stored.
pub proof fn law_tasks_are_plain(entries: Map<KeyModel, Value>)
    ensures
        only_tasks(entries) ==> only_pending_tasks(entries),
        only_pending_tasks(entries) ==> plain_pending(entries),
{
    if only_pending_tasks(entries) {
        assert forall|key: KeyModel| #[trigger] entries.contains_key(key) implies is_plain_key(
            key,
        ) by {
            if key.scope == task::pending_scope() {
                assert(is_task_key(key));
            }
        }
    }
}

/// Whether no two pending tasks have the same name.
pub open spec fn distinct_names(entries: Map<KeyModel, Value>) -> bool {
    forall|a: PendingModel, b: PendingModel|
        a.valid() && b.valid() && #[trigger] entries.contains_key(a.key())
            && #[trigger] entries.contains_key(b.key()) && a.name == b.name ==> a == b
}

/// Whether both have the same entry, or none, under a key.
pub open spec fn same_at(
    a: Map<KeyModel, Value>,
    b: Map<KeyModel, Value>,
    key: KeyModel,
) -> bool {
    &&& a.contains_key(key) == b.contains_key(key)
    &&& a.contains_key(key) ==> a[key] == b[key]
}

/// The scopes of the three task states are three.
pub proof fn lemma_scopes_differ()
    ensures
        task::pending_scope() != task::running_scope(),
        task::pending_scope() != task::finished_scope(),
        task::running_scope() != task::finished_scope(),
{
    reveal_strlit("pending");
    reveal_strlit("running");
    reveal_strlit("finished");
    assert(task::pending_scope()[0].len() == 7);
    assert(task::pending_scope()[0][0] == 'p');
    assert(task::running_scope()[0].len() == 7);
    assert(task::running_scope()[0][0] == 'r');
    assert(task::finished_scope()[0].len() == 8);
}

/// The key of a task is a task key.
pub proof fn lemma_task_key(state: StateModel)
    requires
        state.valid(),
    ensures
        is_task_key(state.key()),
{
    lemma_scopes_differ();
    match state {
        StateModel::Pending(task) => {
            task::lemma_pending_round_trip(task);
        },
        StateModel::Running(task) => {
            task::lemma_running_round_trip(task);
        },
        StateModel::Finished(task) => {
            task::lemma_finished_round_trip(task);
        },
    }
}

/// Tasks that differ in state, name or any timestamp have different keys.
pub proof fn law_keys_tell_tasks_apart(a: StateModel, b: StateModel)
    requires
        a.valid(),
        b.valid(),
        a.key() == b.key(),
    ensures
        a == b,
{
    lemma_scopes_differ();
    match (a, b) {
        (StateModel::Pending(s), StateModel::Pending(t)) => {
            task::lemma_pending_round_trip(s);
            task::lemma_pending_round_trip(t);
        },
        (StateModel::Running(s), StateModel::Running(t)) => {
            task::lemma_running_round_trip(s);
            task::lemma_running_round_trip(t);
        },
        (StateModel::Finished(s), StateModel::Finished(t)) => {
            task::lemma_finished_round_trip(s);
            task::lemma_finished_round_trip(t);
        },
        _ => {},
    }
}

/// A new store holds nothing but tasks, and no two of them have the same name.
pub proof fn law_empty_store()
    ensures
        only_tasks(Map::<KeyModel, Value>::empty()),
        only_pending_tasks(Map::<KeyModel, Value>::empty()),
        plain_pending(Map::<KeyModel, Value>::empty()),
        distinct_names(Map::<KeyModel, Value>::empty()),
{
}

/// A pending task among the entries is among the listed keys, and is read from its key.
proof fn lemma_pending_listed(
    keys: Seq<KeyModel>,
    entries: Map<KeyModel, Value>,
    task: PendingModel,
) -> (i: int)
    requires
        store::is_listing(keys, entries, task::pending_scope()),
        task.valid(),
        entries.contains_key(task.key()),
    ensures
        0 <= i < keys.len(),
        keys[i] == task.key(),
        task::pending_of(keys[i].name) == Ok::<PendingModel, Error>(task),
{
    task::lemma_pending_round_trip(task);
    assert(keys.contains(task.key()));
    choose|i: int| 0 <= i < keys.len() && keys[i] == task.key()
}

/// The first listed task of a name is a pending task of that name, if there is one.
proof fn lemma_first_named(
    keys: Seq<KeyModel>,
    entries: Map<KeyModel, Value>,
    name: Seq<char>,
    found: Option<PendingModel>,
)
    requires
        store::is_listing(keys, entries, task::pending_scope()),
        select::is_first_named(keys, name, found),
    ensures
        found matches Some(task) ==> task.valid() && task.name == name,
        plain_pending(entries) ==> (found matches Some(task) ==> entries.contains_key(task.key())),
        found is None ==> forall|task: PendingModel|
            task.valid() && #[trigger] entries.contains_key(task.key()) ==> task.name != name,
{
    if let Some(task) = found {
        let i = choose|i: int|
            0 <= i < keys.len() && #[trigger] select::named(keys[i], name) == Some(task);
        assert(keys.contains(keys[i]));
        assert(entries.contains_key(keys[i]));
        assert(plain_pending(entries) ==> is_plain_key(keys[i]));
    } else {
        assert forall|task: PendingModel|
            task.valid() && #[trigger] entries.contains_key(task.key()) implies task.name
            != name by {
            let i = lemma_pending_listed(keys, entries, task);
            assert(select::named(keys[i], name) is None);
        }
    }
}

/// The listing that scheduling went by, and the existing task that it found there.
proof fn lemma_schedule_listing(
    before: Map<KeyModel, Value>,
    after: Map<KeyModel, Value>,
    task: PendingModel,
    value: Value,
    refusals: Set<Error>,
    made: Seq<Answered>,
    result: Result<(), Error>,
) -> (found: (Seq<KeyModel>, Option<PendingModel>))
    requires
        queue::schedule_outcome(before, after, task, value, refusals, made, result),
        result is Ok || refusals.is_empty(),
    ensures
        queue::lists_first(before, task::pending_scope(), made, found.0),
        select::is_first_named(found.0, task.name, found.1),
        queue::schedule_effect(
            before,
            after,
            found.1,
            task,
            value,
            refusals,
            made.skip(1),
            result,
        ),
{
    choose|keys: Seq<KeyModel>, existing: Option<PendingModel>|
        {
            &&& #[trigger] queue::lists_first(before, task::pending_scope(), made, keys)
            &&& #[trigger] select::is_first_named(keys, task.name, existing)
            &&& queue::schedule_effect(
                before,
                after,
                existing,
                task,
                value,
                refusals,
                made.skip(1),
                result,
            )
        }
}

/// The listing that a look for a name went by, and the task that it found there.
proof fn lemma_lookup_listing(
    entries: Map<KeyModel, Value>,
    name: Seq<char>,
    refusals: Set<Error>,
    made: Seq<Answered>,
    time: Option<u64>,
) -> (found: (Seq<KeyModel>, Option<PendingModel>))
    requires
        queue::lookup_outcome(entries, name, refusals, made, Ok(time)),
    ensures
        queue::lists_first(entries, task::pending_scope(), made, found.0),
        select::is_first_named(found.0, name, found.1),
        time == match found.1 {
            Some(task) => Some(task.schedule_timestamp),
            None => None,
        },
{
    choose|keys: Seq<KeyModel>, first: Option<PendingModel>|
        {
            &&& #[trigger] queue::lists_first(entries, task::pending_scope(), made, keys)
            &&& #[trigger] select::is_first_named(keys, name, first)
            &&& made.len() == 1
            &&& time == match first {
                Some(task) => Some(task.schedule_timestamp),
                None => None,
            }
        }
}

/// The listing that a claim went by, and the next task that it found there.
proof fn lemma_claim_listing(
    before: Map<KeyModel, Value>,
    after: Map<KeyModel, Value>,
    now: u64,
    refusals: Set<Error>,
    made: Seq<Answered>,
    result: Result<Option<Task>, Error>,
) -> (found: (Seq<KeyModel>, Option<PendingModel>))
    requires
        queue::claim_outcome(before, after, now, refusals, made, result),
        result is Ok,
    ensures
        queue::lists_first(before, task::pending_scope(), made, found.0),
        select::is_next(found.0, now, found.1),
        queue::claim_effect(before, after, found.1, now, refusals, made.skip(1), result),
{
    choose|keys: Seq<KeyModel>, next: Option<PendingModel>|
        {
            &&& #[trigger] queue::lists_first(before, task::pending_scope(), made, keys)
            &&& #[trigger] select::is_next(keys, now, next)
            &&& queue::claim_effect(before, after, next, now, refusals, made.skip(1), result)
        }
}

/// Scheduling keeps the scopes of the task states to tasks, and the pending keys plain.
pub proof fn law_schedule_keeps_tasks(
    before: Map<KeyModel, Value>,
    after: Map<KeyModel, Value>,
    task: PendingModel,
    value: Value,
    refusals: Set<Error>,
    made: Seq<Answered>,
    result: Result<(), Error>,
)
    requires
        task.valid(),
        queue::schedule_outcome(before, after, task, value, refusals, made, result),
    ensures
        only_tasks(before) ==> only_tasks(after),
        only_pending_tasks(before) ==> only_pending_tasks(after),
        plain_pending(before) ==> plain_pending(after),
{
    lemma_task_key(StateModel::Pending(task));
    assert forall|key: KeyModel| #[trigger] after.contains_key(key) implies key == task.key()
        || before.contains_key(key) by {}
}

/// Scheduling touches nothing outside the scope of pending tasks.
pub proof fn law_schedule_touches_pending_only(
    before: Map<KeyModel, Value>,
    after: Map<KeyModel, Value>,
    task: PendingModel,
    value: Value,
    refusals: Set<Error>,
    made: Seq<Answered>,
    result: Result<(), Error>,
    key: KeyModel,
)
    requires
        queue::schedule_outcome(before, after, task, value, refusals, made, result),
        key.scope != task::pending_scope(),
    ensures
        same_at(before, after, key),
{
}

/// Where the store refuses nothing and the pending keys are plain, scheduling succeeds.
pub proof fn law_schedule_succeeds(
    before: Map<KeyModel, Value>,
    after: Map<KeyModel, Value>,
    task: PendingModel,
    value: Value,
    made: Seq<Answered>,
    result: Result<(), Error>,
)
    requires
        plain_pending(before),
        queue::schedule_outcome(before, after, task, value, Set::empty(), made, result),
    ensures
        result is Ok,
{
    let (keys, existing) = lemma_schedule_listing(
        before,
        after,
        task,
        value,
        Set::empty(),
        made,
        result,
    );
    lemma_first_named(keys, before, task.name, existing);
}

/// A failure to schedule leaves the store as it was, or has moved a pending task of this name to
/// its new time, with its old value, and nothing else. Where no pending task has this name, the
/// store is as it was.
pub proof fn law_failed_schedule(
    before: Map<KeyModel, Value>,
    after: Map<KeyModel, Value>,
    task: PendingModel,
    value: Value,
    refusals: Set<Error>,
    made: Seq<Answered>,
    error: Error,
)
    requires
        queue::schedule_outcome(before, after, task, value, refusals, made, Err(error)),
    ensures
        after == before || exists|old_task: PendingModel|
            {
                &&& old_task.valid() && old_task.name == task.name
                &&& #[trigger] before.contains_key(old_task.key())
                &&& after == store::moved(before, old_task.key(), task.key())
            },
        (forall|other: PendingModel|
            other.valid() && #[trigger] before.contains_key(other.key()) ==> other.name
                != task.name) ==> after == before,
{
    if after != before {
        let (keys, existing) = choose|keys: Seq<KeyModel>, existing: Option<PendingModel>|
            {
                &&& #[trigger] queue::lists_first(before, task::pending_scope(), made, keys)
                &&& #[trigger] select::is_first_named(keys, task.name, existing)
                &&& queue::schedule_effect(
                    before,
                    after,
                    existing,
                    task,
                    value,
                    refusals,
                    made.skip(1),
                    Err(error),
                )
            };
        lemma_first_named(keys, before, task.name, existing);
        assert(before.contains_key(existing->0.key()));
    }
}

/// A scheduled task is among the entries, with its value. It took the place of a pending task of
/// its name, if there was one, and no other entry has changed.
pub proof fn law_schedule_stores(
    before: Map<KeyModel, Value>,
    after: Map<KeyModel, Value>,
    task: PendingModel,
    value: Value,
    refusals: Set<Error>,
    made: Seq<Answered>,
) -> (replaced: Option<PendingModel>)
    requires
        queue::schedule_outcome(before, after, task, value, refusals, made, Ok(())),
    ensures
        after.contains_key(task.key()),
        after[task.key()] == value,
        match replaced {
            Some(old_task) => {
                &&& old_task.valid() && old_task.name == task.name
                &&& before.contains_key(old_task.key())
                &&& old_task != task && task.valid() ==> !after.contains_key(old_task.key())
                &&& forall|key: KeyModel|
                    key != task.key() && key != old_task.key() ==> #[trigger] same_at(
                        before,
                        after,
                        key,
                    )
            },
            None => {
                &&& forall|other: PendingModel|
                    other.valid() && #[trigger] before.contains_key(other.key()) ==> other.name
                        != task.name
                &&& forall|key: KeyModel|
                    key != task.key() ==> #[trigger] same_at(before, after, key)
            },
        },
        queue::keys_in(before, task::pending_scope()).finite(),
{
    let (keys, existing) = lemma_schedule_listing(
        before,
        after,
        task,
        value,
        refusals,
        made,
        Ok(()),
    );
    lemma_first_named(keys, before, task.name, existing);
    queue::lemma_listing_counts(keys, before, task::pending_scope());
    if let Some(old_task) = existing {
        if task.valid() && old_task.key() == task.key() {
            law_keys_tell_tasks_apart(StateModel::Pending(old_task), StateModel::Pending(task));
        }
    }
    existing
}

/// Scheduling replaces the pending task of the same name and leaves every other entry alone. The
/// names of pending tasks stay distinct.
pub proof fn law_schedule_replaces(
    before: Map<KeyModel, Value>,
    after: Map<KeyModel, Value>,
    task: PendingModel,
    value: Value,
    refusals: Set<Error>,
    made: Seq<Answered>,
)
    requires
        distinct_names(before),
        task.valid(),
        queue::schedule_outcome(before, after, task, value, refusals, made, Ok(())),
    ensures
        forall|other: PendingModel|
            other.valid() && other.name == task.name && #[trigger] after.contains_key(other.key())
                ==> other == task,
        forall|key: KeyModel|
            !(key.scope == task::pending_scope() && select::named(key, task.name) is Some)
                ==> #[trigger] same_at(before, after, key),
        distinct_names(after),
{
    let replaced = law_schedule_stores(before, after, task, value, refusals, made);
    assert forall|other: PendingModel|
        other.valid() && #[trigger] after.contains_key(other.key()) implies (other == task || (
    before.contains_key(other.key()) && other.name != task.name)) by {
        if other.key() == task.key() {
            law_keys_tell_tasks_apart(StateModel::Pending(other), StateModel::Pending(task));
        } else if replaced is Some && other.key() == replaced->0.key() {
            law_keys_tell_tasks_apart(StateModel::Pending(other), StateModel::Pending(replaced->0));
        } else {
            assert(same_at(before, after, other.key()));
            if other.name == task.name {
                let old_task = replaced->0;
                assert(before.contains_key(old_task.key()));
                assert(other == old_task);
            }
        }
    }
    assert forall|key: KeyModel|
        !(key.scope == task::pending_scope() && select::named(key, task.name)
            is Some) implies #[trigger] same_at(before, after, key) by {
        task::lemma_pending_round_trip(task);
        if let Some(old_task) = replaced {
            task::lemma_pending_round_trip(old_task);
        }
    }
}

/// What was scheduled is what a look for its name finds.
pub proof fn law_schedule_is_found(
    before: Map<KeyModel, Value>,
    after: Map<KeyModel, Value>,
    task: PendingModel,
    value: Value,
    schedule_refusals: Set<Error>,
    made: Seq<Answered>,
    lookup_made: Seq<Answered>,
    lookup_refusals: Set<Error>,
    found: Option<u64>,
)
    requires
        plain_pending(before),
        distinct_names(before),
        task.valid(),
        queue::schedule_outcome(before, after, task, value, schedule_refusals, made, Ok(())),
        queue::lookup_outcome(after, task.name, lookup_refusals, lookup_made, Ok(found)),
    ensures
        found == Some(task.schedule_timestamp),
{
    law_schedule_keeps_tasks(before, after, task, value, schedule_refusals, made, Ok(()));
    law_schedule_replaces(before, after, task, value, schedule_refusals, made);
    let _ = law_schedule_stores(before, after, task, value, schedule_refusals, made);
    law_lookup(after, task, lookup_refusals, lookup_made, found);
}

/// A look for the name of a pending task finds its scheduled time.
pub proof fn law_lookup(
    entries: Map<KeyModel, Value>,
    task: PendingModel,
    refusals: Set<Error>,
    made: Seq<Answered>,
    found: Option<u64>,
)
    requires
        plain_pending(entries),
        distinct_names(entries),
        task.valid(),
        entries.contains_key(task.key()),
        queue::lookup_outcome(entries, task.name, refusals, made, Ok(found)),
    ensures
        found == Some(task.schedule_timestamp),
{
    let (keys, first) = lemma_lookup_listing(entries, task.name, refusals, made, found);
    lemma_first_named(keys, entries, task.name, first);
    assert(first is Some);
    assert(first->0 == task);
}

/// A look for a name that no pending task has finds nothing.
pub proof fn law_lookup_of_unknown_name(
    entries: Map<KeyModel, Value>,
    name: Seq<char>,
    refusals: Set<Error>,
    made: Seq<Answered>,
    found: Option<u64>,
)
    requires
        plain_pending(entries),
        forall|task: PendingModel|
            task.valid() && #[trigger] entries.contains_key(task.key()) ==> task.name != name,
        queue::lookup_outcome(entries, name, refusals, made, Ok(found)),
    ensures
        found is None,
{
    let (keys, first) = lemma_lookup_listing(entries, name, refusals, made, found);
    lemma_first_named(keys, entries, name, first);
}

/// Scheduling adds one pending task under a new name, and none under the name of a pending task.
pub proof fn law_schedule_counts(
    before: Map<KeyModel, Value>,
    after: Map<KeyModel, Value>,
    task: PendingModel,
    value: Value,
    refusals: Set<Error>,
    made: Seq<Answered>,
)
    requires
        distinct_names(before),
        task.valid(),
        queue::schedule_outcome(before, after, task, value, refusals, made, Ok(())),
    ensures
        queue::keys_in(before, task::pending_scope()).finite(),
        queue::keys_in(after, task::pending_scope()).finite(),
        (exists|other: PendingModel|
            other.valid() && other.name == task.name && #[trigger] before.contains_key(
                other.key(),
            )) ==> queue::keys_in(after, task::pending_scope()).len() == queue::keys_in(
            before,
            task::pending_scope(),
        ).len(),
        (forall|other: PendingModel|
            other.valid() && #[trigger] before.contains_key(other.key()) ==> other.name
                != task.name) ==> queue::keys_in(after, task::pending_scope()).len()
            == queue::keys_in(before, task::pending_scope()).len() + 1,
{
    let replaced = law_schedule_stores(before, after, task, value, refusals, made);
    let pending_before = queue::keys_in(before, task::pending_scope());
    let pending_after = queue::keys_in(after, task::pending_scope());
    assert forall|key: KeyModel| key != task.key() implies #[trigger] pending_after.contains(key)
        == (pending_before.contains(key) && !(replaced is Some && key
        == replaced->0.key())) by {
        if !(replaced is Some && key == replaced->0.key()) {
            assert(same_at(before, after, key));
        } else {
            assert(replaced->0 != task);
        }
    }
    match replaced {
        Some(old_task) => {
            assert(pending_after =~= pending_before.remove(old_task.key()).insert(task.key()));
            assert(before.contains_key(task.key()) ==> task == old_task);
        },
        None => {
            assert(pending_after =~= pending_before.insert(task.key()));
            assert(!before.contains_key(task.key()));
        },
    }
}

/// The task that is next among listed keys is due, is pending, and no due task is scheduled
/// before it. There is one if any pending task is due.
proof fn lemma_next(
    keys: Seq<KeyModel>,
    entries: Map<KeyModel, Value>,
    now: u64,
    next: Option<PendingModel>,
)
    requires
        store::is_listing(keys, entries, task::pending_scope()),
        select::is_next(keys, now, next),
    ensures
        next matches Some(task) ==> task.valid() && task.schedule_timestamp <= now,
        plain_pending(entries) ==> (next matches Some(task) ==> entries.contains_key(task.key())),
        next matches Some(task) ==> forall|other: PendingModel|
            other.valid() && #[trigger] entries.contains_key(other.key())
                ==> task.schedule_timestamp <= other.schedule_timestamp,
        next is None ==> forall|other: PendingModel|
            other.valid() && #[trigger] entries.contains_key(other.key())
                ==> now < other.schedule_timestamp,
{
    if let Some(task) = next {
        let i = choose|i: int|
            {
                &&& 0 <= i < keys.len()
                &&& #[trigger] select::due(keys[i], now) == Some(task)
                &&& forall|j: int|
                    0 <= j < keys.len() ==> (#[trigger] select::due(keys[j], now) matches Some(
                        other,
                    ) ==> task.schedule_timestamp <= other.schedule_timestamp && (j < i
                        ==> task.schedule_timestamp < other.schedule_timestamp))
            };
        assert(keys.contains(keys[i]));
        assert(entries.contains_key(keys[i]));
        assert(plain_pending(entries) ==> is_plain_key(keys[i]));
        assert forall|other: PendingModel|
            other.valid() && #[trigger] entries.contains_key(
                other.key(),
            ) implies task.schedule_timestamp <= other.schedule_timestamp by {
            let j = lemma_pending_listed(keys, entries, other);
            let _ = select::due(keys[j], now);
        }
    } else {
        assert forall|other: PendingModel|
            other.valid() && #[trigger] entries.contains_key(other.key()) implies now
            < other.schedule_timestamp by {
            let j = lemma_pending_listed(keys, entries, other);
            assert(select::due(keys[j], now) is None);
        }
    }
}

/// What a claimed task was, as a pending task.
pub open spec fn claimed_from(claimed: Task) -> PendingModel
    recommends
        claimed.state@ is Running,
{
    claimed.state@->Running_0.task_name
}

/// A claimed task was pending and due, and no pending task was scheduled before it. It is running
/// since `now`, with the value that it had, and pending no more. No other entry has changed but
/// the one that may have stood under the key of the running task.
pub proof fn law_claim_takes_the_earliest(
    before: Map<KeyModel, Value>,
    after: Map<KeyModel, Value>,
    now: u64,
    refusals: Set<Error>,
    made: Seq<Answered>,
    claimed: Task,
)
    requires
        queue::claim_outcome(before, after, now, refusals, made, Ok(Some(claimed))),
    ensures
        claimed.state@ matches StateModel::Running(running) && running.claim_timestamp == now,
        claimed_from(claimed).valid(),
        claimed_from(claimed).schedule_timestamp <= now,
        forall|other: PendingModel|
            other.valid() && #[trigger] before.contains_key(other.key())
                ==> claimed_from(claimed).schedule_timestamp <= other.schedule_timestamp,
        before.contains_key(claimed_from(claimed).key()),
        claimed.value == before[claimed_from(claimed).key()],
        !after.contains_key(claimed_from(claimed).key()),
        after.contains_key(claimed.state@.key()),
        after[claimed.state@.key()] == claimed.value,
        forall|key: KeyModel|
            key != claimed_from(claimed).key() && key != claimed.state@.key()
                ==> #[trigger] same_at(before, after, key),
{
    let (keys, next) = lemma_claim_listing(before, after, now, refusals, made, Ok(Some(claimed)));
    lemma_next(keys, before, now, next);
    lemma_scopes_differ();
}

/// Where the pending keys are plain, nothing is claimed only if no pending task is due, and the
/// store is left as it was.
pub proof fn law_claim_finds_what_is_due(
    before: Map<KeyModel, Value>,
    after: Map<KeyModel, Value>,
    now: u64,
    refusals: Set<Error>,
    made: Seq<Answered>,
)
    requires
        plain_pending(before),
        queue::claim_outcome(before, after, now, refusals, made, Ok(None)),
    ensures
        forall|other: PendingModel|
            other.valid() && #[trigger] before.contains_key(other.key()) ==> now
                < other.schedule_timestamp,
        after == before,
{
    let (keys, next) = lemma_claim_listing(before, after, now, refusals, made, Ok(None));
    lemma_next(keys, before, now, next);
}

/// Where the store refuses nothing, claiming does not fail.
pub proof fn law_claim_does_not_fail(
    before: Map<KeyModel, Value>,
    after: Map<KeyModel, Value>,
    now: u64,
    made: Seq<Answered>,
    result: Result<Option<Task>, Error>,
)
    requires
        queue::claim_outcome(before, after, now, Set::empty(), made, result),
    ensures
        result is Ok,
{
}

/// A refused listing, read or move ends a claim: it is the last request, its error is the result,
/// and the store is as it was. After a refused listing or read, no move is asked for.
pub proof fn law_refusal_ends_the_claim(
    before: Map<KeyModel, Value>,
    after: Map<KeyModel, Value>,
    now: u64,
    refusals: Set<Error>,
    made: Seq<Answered>,
    result: Result<Option<Task>, Error>,
    i: int,
    error: Error,
)
    requires
        queue::claim_outcome(before, after, now, refusals, made, result),
        0 <= i < made.len(),
        made[i].reply == Err::<Answer, Error>(error),
    ensures
        result == Err::<Option<Task>, Error>(error),
        i == made.len() - 1,
        after == before,
        !(made[i].request is Move) ==> forall|j: int|
            0 <= j < made.len() ==> !((#[trigger] made[j]).request is Move),
{
    if !(result is Err && queue::listing_refused(
        before,
        after,
        task::pending_scope(),
        refusals,
        made,
        result->Err_0,
    )) {
        let (keys, next) = choose|keys: Seq<KeyModel>, next: Option<PendingModel>|
            {
                &&& #[trigger] queue::lists_first(before, task::pending_scope(), made, keys)
                &&& #[trigger] select::is_next(keys, now, next)
                &&& queue::claim_effect(before, after, next, now, refusals, made.skip(1), result)
            };
        let rest = made.skip(1);
        assert(rest.len() <= 2);
        assert(rest.len() == 2 ==> rest[0].reply is Ok && rest[0].request is Get);
        assert(rest.len() == 1 ==> rest[0].request is Get);
        if i == 1 {
            assert(made[i] == rest[0]);
        } else {
            assert(made[i] == rest[1]);
        }
        assert forall|j: int| 1 <= j < made.len() implies #[trigger] made[j] == rest[j - 1] by {}
    }
}

/// Claiming keeps the scopes to tasks, the pending keys plain, and the names of pending tasks
/// distinct.
pub proof fn law_claim_keeps_tasks(
    before: Map<KeyModel, Value>,
    after: Map<KeyModel, Value>,
    now: u64,
    refusals: Set<Error>,
    made: Seq<Answered>,
    result: Result<Option<Task>, Error>,
)
    requires
        queue::claim_outcome(before, after, now, refusals, made, result),
    ensures
        only_tasks(before) ==> only_tasks(after),
        only_pending_tasks(before) ==> only_pending_tasks(after),
        plain_pending(before) ==> plain_pending(after),
        distinct_names(before) ==> distinct_names(after),
{
    if let Ok(Some(claimed)) = result {
        law_claim_takes_the_earliest(before, after, now, refusals, made, claimed);
        lemma_task_key(claimed.state@);
        lemma_scopes_differ();
        assert forall|key: KeyModel| #[trigger] after.contains_key(key) implies key
            == claimed.state@.key() || before.contains_key(key) by {
            if key != claimed.state@.key() {
                assert(same_at(before, after, key));
            }
        }
        assert forall|task: PendingModel| #[trigger]
            after.contains_key(task.key()) implies before.contains_key(task.key()) by {
            assert(same_at(before, after, task.key()));
        }
    }
}

/// Each claim makes one pending task fewer.
pub proof fn law_claim_counts(
    before: Map<KeyModel, Value>,
    after: Map<KeyModel, Value>,
    now: u64,
    refusals: Set<Error>,
    made: Seq<Answered>,
    claimed: Task,
)
    requires
        queue::claim_outcome(before, after, now, refusals, made, Ok(Some(claimed))),
    ensures
        queue::keys_in(before, task::pending_scope()).finite(),
        queue::keys_in(after, task::pending_scope()).finite(),
        queue::keys_in(after, task::pending_scope()).len() + 1 == queue::keys_in(
            before,
            task::pending_scope(),
        ).len(),
{
    law_claim_takes_the_earliest(before, after, now, refusals, made, claimed);
    let (keys, next) = lemma_claim_listing(before, after, now, refusals, made, Ok(Some(claimed)));
    queue::lemma_listing_counts(keys, before, task::pending_scope());
    lemma_scopes_differ();
    let pending_before = queue::keys_in(before, task::pending_scope());
    let pending_after = queue::keys_in(after, task::pending_scope());
    assert forall|key: KeyModel| pending_after.contains(key) == pending_before.remove(
        claimed_from(claimed).key(),
    ).contains(key) by {
        if key != claimed_from(claimed).key() && key.scope == task::pending_scope() {
            assert(same_at(before, after, key));
        }
    }
    assert(pending_after =~= pending_before.remove(claimed_from(claimed).key()));
}

/// Whether these tasks were claimed one after the other: the store that one claim left is the
/// store that the next one found.
pub open spec fn claimed_in_turn(
    stores: Seq<Map<KeyModel, Value>>,
    nows: Seq<u64>,
    refusals: Set<Error>,
    made: Seq<Seq<Answered>>,
    claimed: Seq<Task>,
) -> bool {
    &&& stores.len() == claimed.len() + 1
    &&& nows.len() == claimed.len()
    &&& made.len() == claimed.len()
    &&& forall|i: int|
        0 <= i < claimed.len() ==> queue::claim_outcome(
            stores[i],
            stores[i + 1],
            nows[i],
            refusals,
            made[i],
            Ok(Some(#[trigger] claimed[i])),
        )
}

/// Claims add no pending task and change none: what is pending after some of them was pending
/// before, with the same value. Between the two, only what was claimed has gone.
proof fn lemma_pending_while_claimed(
    stores: Seq<Map<KeyModel, Value>>,
    nows: Seq<u64>,
    refusals: Set<Error>,
    made: Seq<Seq<Answered>>,
    claimed: Seq<Task>,
    i: int,
    j: int,
)
    requires
        claimed_in_turn(stores, nows, refusals, made, claimed),
        0 <= i <= j <= claimed.len(),
    ensures
        forall|key: KeyModel|
            key.scope == task::pending_scope() && #[trigger] stores[j].contains_key(key)
                ==> same_at(stores[i], stores[j], key),
        forall|key: KeyModel|
            {
                &&& key.scope == task::pending_scope()
                &&& #[trigger] stores[i].contains_key(key)
                &&& forall|m: int|
                    i <= m < j ==> claimed_from(#[trigger] claimed[m]).key() != key
            } ==> stores[j].contains_key(key),
        only_pending_tasks(stores[i]) ==> only_pending_tasks(stores[j]),
    decreases j - i,
{
    if i < j {
        let last = j - 1;
        lemma_pending_while_claimed(stores, nows, refusals, made, claimed, i, last);
        let task = claimed[last];
        law_claim_takes_the_earliest(
            stores[last],
            stores[j],
            nows[last],
            refusals,
            made[last],
            task,
        );
        law_claim_keeps_tasks(
            stores[last],
            stores[j],
            nows[last],
            refusals,
            made[last],
            Ok(Some(task)),
        );
        lemma_scopes_differ();
        assert forall|key: KeyModel|
            key.scope == task::pending_scope() && #[trigger] stores[j].contains_key(
                key,
            ) implies same_at(stores[i], stores[j], key) by {
            assert(same_at(stores[last], stores[j], key));
            assert(stores[last].contains_key(key));
        }
        assert forall|key: KeyModel|
            {
                &&& key.scope == task::pending_scope()
                &&& #[trigger] stores[i].contains_key(key)
                &&& forall|m: int|
                    i <= m < j ==> claimed_from(#[trigger] claimed[m]).key() != key
            } implies stores[j].contains_key(key) by {
            assert(stores[last].contains_key(key));
            assert(claimed_from(claimed[last]).key() != key);
            assert(same_at(stores[last], stores[j], key));
        }
    }
}

/// Tasks that are claimed one after the other, however many, were all pending before the first
/// claim, with their values. They come in the order of their schedule, each of them once, and
/// each leaves one pending task fewer.
pub proof fn law_claims_come_in_order(
    stores: Seq<Map<KeyModel, Value>>,
    nows: Seq<u64>,
    refusals: Set<Error>,
    made: Seq<Seq<Answered>>,
    claimed: Seq<Task>,
)
    requires
        claimed_in_turn(stores, nows, refusals, made, claimed),
    ensures
        forall|i: int|
            0 <= i < claimed.len() ==> {
                let task = claimed_from(#[trigger] claimed[i]);
                &&& task.valid()
                &&& stores[0].contains_key(task.key())
                &&& claimed[i].value == stores[0][task.key()]
                &&& !stores[claimed.len() as int].contains_key(task.key())
            },
        forall|i: int, j: int|
            0 <= i < j < claimed.len() ==> {
                let earlier = claimed_from(#[trigger] claimed[i]);
                let later = claimed_from(#[trigger] claimed[j]);
                &&& earlier != later
                &&& earlier.schedule_timestamp <= later.schedule_timestamp
            },
        queue::keys_in(stores[claimed.len() as int], task::pending_scope()).len() + claimed.len()
            == queue::keys_in(stores[0], task::pending_scope()).len(),
{
    let n = claimed.len() as int;
    assert forall|i: int| 0 <= i < n implies {
        let task = claimed_from(#[trigger] claimed[i]);
        &&& task.valid()
        &&& stores[0].contains_key(task.key())
        &&& claimed[i].value == stores[0][task.key()]
        &&& !stores[n].contains_key(task.key())
    } by {
        let task = claimed[i];
        let key = claimed_from(task).key();
        law_claim_takes_the_earliest(stores[i], stores[i + 1], nows[i], refusals, made[i], task);
        lemma_pending_while_claimed(stores, nows, refusals, made, claimed, 0, i);
        lemma_pending_while_claimed(stores, nows, refusals, made, claimed, i + 1, n);
        assert(stores[i].contains_key(key));
        if stores[n].contains_key(key) {
            assert(same_at(stores[i + 1], stores[n], key));
        }
    }
    assert forall|i: int, j: int| 0 <= i < j < n implies {
        let earlier = claimed_from(#[trigger] claimed[i]);
        let later = claimed_from(#[trigger] claimed[j]);
        &&& earlier != later
        &&& earlier.schedule_timestamp <= later.schedule_timestamp
    } by {
        let key = claimed_from(claimed[j]).key();
        law_claim_takes_the_earliest(
            stores[i],
            stores[i + 1],
            nows[i],
            refusals,
            made[i],
            claimed[i],
        );
        law_claim_takes_the_earliest(
            stores[j],
            stores[j + 1],
            nows[j],
            refusals,
            made[j],
            claimed[j],
        );
        lemma_pending_while_claimed(stores, nows, refusals, made, claimed, i, j);
        lemma_pending_while_claimed(stores, nows, refusals, made, claimed, i + 1, j);
        assert(stores[j].contains_key(key));
        assert(same_at(stores[i], stores[j], key));
        assert(same_at(stores[i + 1], stores[j], key));
    }
    lemma_claims_count(stores, nows, refusals, made, claimed, n);
}

/// Each of some claims leaves one pending task fewer.
proof fn lemma_claims_count(
    stores: Seq<Map<KeyModel, Value>>,
    nows: Seq<u64>,
    refusals: Set<Error>,
    made: Seq<Seq<Answered>>,
    claimed: Seq<Task>,
    n: int,
)
    requires
        claimed_in_turn(stores, nows, refusals, made, claimed),
        0 <= n <= claimed.len(),
    ensures
        queue::keys_in(stores[n], task::pending_scope()).len() + n == queue::keys_in(
            stores[0],
            task::pending_scope(),
        ).len(),
    decreases n,
{
    if n > 0 {
        lemma_claims_count(stores, nows, refusals, made, claimed, n - 1);
        law_claim_counts(
            stores[n - 1],
            stores[n],
            nows[n - 1],
            refusals,
            made[n - 1],
            claimed[n - 1],
        );
    }
}

/// Whether these were the results of claims that were made one after the other, on a store that
/// refuses nothing and whose pending tasks are all due.
pub open spec fn claims_in_turn(
    stores: Seq<Map<KeyModel, Value>>,
    nows: Seq<u64>,
    made: Seq<Seq<Answered>>,
    results: Seq<Result<Option<Task>, Error>>,
) -> bool {
    &&& stores.len() == results.len() + 1
    &&& nows.len() == results.len()
    &&& made.len() == results.len()
    &&& forall|i: int|
        0 <= i < results.len() ==> queue::claim_outcome(
            stores[i],
            stores[i + 1],
            nows[i],
            Set::empty(),
            made[i],
            #[trigger] results[i],
        )
    &&& forall|i: int, task: PendingModel|
        0 <= i < nows.len() && task.valid() && #[trigger] stores[0].contains_key(task.key())
            ==> task.schedule_timestamp <= #[trigger] nows[i]
}

/// The first results, as the tasks that they give.
pub open spec fn tasks_of(results: Seq<Result<Option<Task>, Error>>, n: int) -> Seq<Task> {
    Seq::new(n as nat, |i: int| results[i]->Ok_0->0)
}

/// As long as there are pending tasks, each claim gives one.
proof fn lemma_claims_give_tasks(
    stores: Seq<Map<KeyModel, Value>>,
    nows: Seq<u64>,
    made: Seq<Seq<Answered>>,
    results: Seq<Result<Option<Task>, Error>>,
    n: int,
)
    requires
        only_pending_tasks(stores[0]),
        claims_in_turn(stores, nows, made, results),
        0 <= n <= results.len(),
        n <= queue::keys_in(stores[0], task::pending_scope()).len(),
    ensures
        forall|i: int| 0 <= i < n ==> #[trigger] results[i] is Ok && results[i]->Ok_0 is Some,
        claimed_in_turn(
            stores.take(n + 1),
            nows.take(n),
            Set::empty(),
            made.take(n),
            tasks_of(results, n),
        ),
    decreases n,
{
    if n > 0 {
        let last = n - 1;
        lemma_claims_give_tasks(stores, nows, made, results, last);
        let found = stores.take(last + 1);
        let claimed = tasks_of(results, last);
        lemma_claims_count(found, nows.take(last), Set::empty(), made.take(last), claimed, last);
        lemma_pending_while_claimed(
            found,
            nows.take(last),
            Set::empty(),
            made.take(last),
            claimed,
            0,
            last,
        );
        let store = stores[last];
        law_tasks_are_plain(store);
        assert(found[last] == store && found[0] == stores[0]);
        law_claim_does_not_fail(store, stores[n], nows[last], made[last], results[last]);
        let pending = queue::keys_in(store, task::pending_scope());
        assert(pending.len() > 0);
        let (keys, next) = lemma_claim_listing(
            store,
            stores[n],
            nows[last],
            Set::empty(),
            made[last],
            results[last],
        );
        queue::lemma_listing_counts(keys, store, task::pending_scope());
        assert(keys.contains(keys[0]));
        let task = task::pending_of(keys[0].name)->Ok_0;
        assert(is_task_key(keys[0]));
        assert(store.contains_key(task.key()));
        assert(same_at(stores[0], store, task.key()));
        assert(stores[0].contains_key(task.key()));
        if results[last]->Ok_0 is None {
            law_claim_finds_what_is_due(
                store,
                stores[n],
                nows[last],
                Set::empty(),
                made[last],
            );
        }
        let turn = tasks_of(results, n);
        assert forall|i: int| 0 <= i < turn.len() implies queue::claim_outcome(
            stores.take(n + 1)[i],
            stores.take(n + 1)[i + 1],
            nows.take(n)[i],
            Set::empty(),
            made.take(n)[i],
            Ok(Some(#[trigger] turn[i])),
        ) by {
            assert(results[i] == Ok::<Option<Task>, Error>(Some(turn[i])));
        }
    }
}

/// Where the store refuses nothing, its pending scope holds tasks alone and all of them are due, as
/// many claims as there are pending tasks give each of them once, in the order of their schedule,
/// and the claim after those gives nothing.
pub proof fn law_claims_give_each_task_once(
    stores: Seq<Map<KeyModel, Value>>,
    nows: Seq<u64>,
    made: Seq<Seq<Answered>>,
    results: Seq<Result<Option<Task>, Error>>,
)
    requires
        only_pending_tasks(stores[0]),
        claims_in_turn(stores, nows, made, results),
        results.len() == queue::keys_in(stores[0], task::pending_scope()).len() + 1,
    ensures
        ({
            let n = results.len() - 1;
            let claimed = tasks_of(results, n);
            &&& forall|i: int|
                0 <= i < n ==> #[trigger] results[i] is Ok && results[i]->Ok_0 is Some
            &&& results[n] is Ok && results[n]->Ok_0 is None
            &&& forall|i: int|
                0 <= i < n ==> {
                    let task = claimed_from(#[trigger] claimed[i]);
                    &&& task.valid()
                    &&& stores[0].contains_key(task.key())
                    &&& claimed[i].value == stores[0][task.key()]
                }
            &&& forall|i: int, j: int|
                0 <= i < j < n ==> {
                    let earlier = claimed_from(#[trigger] claimed[i]);
                    let later = claimed_from(#[trigger] claimed[j]);
                    &&& earlier != later
                    &&& earlier.schedule_timestamp <= later.schedule_timestamp
                }
            &&& forall|task: PendingModel|
                task.valid() && #[trigger] stores[0].contains_key(task.key()) ==> exists|i: int|
                    0 <= i < n && claimed_from(#[trigger] claimed[i]) == task
            &&& queue::keys_in(stores[n], task::pending_scope()).len() == 0
        }),
{
    let n = results.len() - 1;
    let found = stores.take(n + 1);
    let times = nows.take(n);
    let asked = made.take(n);
    let claimed = tasks_of(results, n);
    lemma_claims_give_tasks(stores, nows, made, results, n);
    law_claims_come_in_order(found, times, Set::empty(), asked, claimed);
    lemma_pending_while_claimed(found, times, Set::empty(), asked, claimed, 0, n);
    assert(found[0] == stores[0] && found[n] == stores[n]);
    law_claim_does_not_fail(stores[n], stores[n + 1], nows[n], made[n], results[n]);
    let (keys, next) = lemma_claim_listing(
        stores[n],
        stores[n + 1],
        nows[n],
        Set::empty(),
        made[n],
        results[n],
    );
    queue::lemma_listing_counts(keys, stores[n], task::pending_scope());
    assert forall|key: KeyModel|
        key.scope == task::pending_scope() implies !stores[n].contains_key(key) by {
        assert(!keys.contains(key));
    }
    if let Some(claimed) = results[n]->Ok_0 {
        law_claim_takes_the_earliest(
            stores[n],
            stores[n + 1],
            nows[n],
            Set::empty(),
            made[n],
            claimed,
        );
    }
    assert forall|task: PendingModel|
        task.valid() && #[trigger] stores[0].contains_key(task.key()) implies exists|i: int|
        0 <= i < n && claimed_from(#[trigger] claimed[i]) == task by {
        assert(!stores[n].contains_key(task.key()));
        let i = choose|m: int|
            0 <= m < n && claimed_from(#[trigger] claimed[m]).key() == task.key();
        assert(claimed_from(claimed[i]).valid());
        law_keys_tell_tasks_apart(
            StateModel::Pending(claimed_from(claimed[i])),
            StateModel::Pending(task),
        );
    }
}

/// Where the pending scope holds tasks alone and none is scheduled for later, the claim that finds
/// nothing finds the queue empty.
pub proof fn law_claims_drain_the_queue(
    before: Map<KeyModel, Value>,
    after: Map<KeyModel, Value>,
    now: u64,
    refusals: Set<Error>,
    made: Seq<Answered>,
)
    requires
        only_pending_tasks(before),
        forall|task: PendingModel|
            task.valid() && #[trigger] before.contains_key(task.key()) ==> task.schedule_timestamp
                <= now,
        queue::claim_outcome(before, after, now, refusals, made, Ok(None)),
    ensures
        queue::keys_in(after, task::pending_scope()).len() == 0,
{
    law_tasks_are_plain(before);
    law_claim_finds_what_is_due(before, after, now, refusals, made);
    assert forall|key: KeyModel| !queue::keys_in(after, task::pending_scope()).contains(key) by {
        if before.contains_key(key) && key.scope == task::pending_scope() {
            let task = task::pending_of(key.name)->Ok_0;
            assert(is_task_key(key));
            assert(before.contains_key(task.key()));
        }
    }
    assert(queue::keys_in(after, task::pending_scope()) =~= Set::empty());
}

/// A claimed task can be finished: it is then finished, with its value, and running no more.
pub proof fn law_claimed_task_finishes(
    before: Map<KeyModel, Value>,
    between: Map<KeyModel, Value>,
    after: Map<KeyModel, Value>,
    claim_now: u64,
    finish_now: u64,
    claim_made: Seq<Answered>,
    finish_made: Seq<Answered>,
    claimed: Task,
    result: Result<(), Error>,
)
    requires
        queue::claim_outcome(
            before,
            between,
            claim_now,
            Set::empty(),
            claim_made,
            Ok(Some(claimed)),
        ),
        queue::finish_outcome(
            between,
            after,
            claimed.state@,
            finish_now,
            Set::empty(),
            finish_made,
            result,
        ),
    ensures
        result is Ok,
        !after.contains_key(claimed.state@.key()),
        ({
            let finished = FinishedModel {
                name: claimed_from(claimed),
                finish_timestamp: finish_now,
            };
            &&& after.contains_key(finished.key())
            &&& after[finished.key()] == claimed.value
        }),
        !after.contains_key(claimed_from(claimed).key()),
{
    law_claim_takes_the_earliest(before, between, claim_now, Set::empty(), claim_made, claimed);
    lemma_scopes_differ();
}

/// A task that was finished is not running, so it cannot be finished again.
pub proof fn law_finishes_once(
    before: Map<KeyModel, Value>,
    between: Map<KeyModel, Value>,
    after: Map<KeyModel, Value>,
    running: RunningModel,
    first_now: u64,
    second_now: u64,
    first_refusals: Set<Error>,
    second_refusals: Set<Error>,
    first_made: Seq<Answered>,
    second_made: Seq<Answered>,
    result: Result<(), Error>,
)
    requires
        queue::finish_outcome(
            before,
            between,
            StateModel::Running(running),
            first_now,
            first_refusals,
            first_made,
            Ok(()),
        ),
        queue::finish_outcome(
            between,
            after,
            StateModel::Running(running),
            second_now,
            second_refusals,
            second_made,
            result,
        ),
    ensures
        result is Err,
        second_refusals.is_empty() ==> result == Err::<(), Error>(Error::UnknownKey),
        after == between,
{
    lemma_scopes_differ();
}

/// Only a running task can be finished.
pub proof fn law_finish_refuses_others(
    before: Map<KeyModel, Value>,
    after: Map<KeyModel, Value>,
    state: StateModel,
    now: u64,
    refusals: Set<Error>,
    made: Seq<Answered>,
    result: Result<(), Error>,
)
    requires
        !(state is Running) || !before.contains_key(state.key()),
        queue::finish_outcome(before, after, state, now, refusals, made, result),
    ensures
        result is Err,
        after == before,
{
}

/// Finishing keeps the scopes to tasks and leaves pending tasks alone.
pub proof fn law_finish_keeps_tasks(
    before: Map<KeyModel, Value>,
    after: Map<KeyModel, Value>,
    state: StateModel,
    now: u64,
    refusals: Set<Error>,
    made: Seq<Answered>,
    result: Result<(), Error>,
)
    requires
        state.valid(),
        queue::finish_outcome(before, after, state, now, refusals, made, result),
    ensures
        only_tasks(before) ==> only_tasks(after),
        only_pending_tasks(before) ==> only_pending_tasks(after),
        plain_pending(before) ==> plain_pending(after),
        forall|key: KeyModel|
            key.scope == task::pending_scope() ==> #[trigger] same_at(before, after, key),
        distinct_names(before) ==> distinct_names(after),
{
    lemma_scopes_differ();
    if let StateModel::Running(running) = state {
        let finished = FinishedModel { name: running.task_name, finish_timestamp: now };
        lemma_task_key(StateModel::Finished(finished));
    }
    assert forall|key: KeyModel| key.scope == task::pending_scope() implies #[trigger] same_at(
        before,
        after,
        key,
    ) by {}
    assert forall|key: KeyModel| #[trigger]
        after.contains_key(key) && key.scope == task::pending_scope() implies before.contains_key(
        key,
    ) by {
        assert(same_at(before, after, key));
    }
    assert forall|task: PendingModel| #[trigger]
        after.contains_key(task.key()) implies before.contains_key(task.key()) by {
        assert(same_at(before, after, task.key()));
    }
}

/// Whether a key is that of a running task which was claimed at `limit` or earlier.
pub open spec fn is_timed_out(key: KeyModel, limit: u64) -> bool {
    &&& key.scope == task::running_scope()
    &&& select::claimed_by(key, limit) matches Some(task) && task.key() == key
}

/// Whether a key is that of a finished task which finished at `limit` or earlier.
pub open spec fn is_expired(key: KeyModel, limit: u64) -> bool {
    &&& key.scope == task::finished_scope()
    &&& select::finished_by(key, limit) matches Some(task) && task.key() == key
}

/// The timed-out tasks among some keys are those that one of the keys denotes.
proof fn lemma_timed_out(keys: Seq<KeyModel>, limit: u64)
    ensures
        forall|i: int|
            0 <= i < keys.len() ==> (#[trigger] select::claimed_by(keys[i], limit) matches Some(
                task,
            ) ==> select::timed_out(keys, limit).contains(task)),
        forall|n: int|
            0 <= n < select::timed_out(keys, limit).len() ==> exists|i: int|
                0 <= i < keys.len() && #[trigger] select::claimed_by(keys[i], limit) == Some(
                    #[trigger] select::timed_out(keys, limit)[n],
                ),
    decreases keys.len(),
{
    if keys.len() > 0 {
        let others = keys.drop_last();
        let tasks = select::timed_out(keys, limit);
        let fewer = select::timed_out(others, limit);
        lemma_timed_out(others, limit);
        assert forall|i: int| 0 <= i < keys.len() implies (#[trigger] select::claimed_by(
            keys[i],
            limit,
        ) matches Some(task) ==> tasks.contains(task)) by {
            if select::claimed_by(keys[i], limit) is Some {
                let task = select::claimed_by(keys[i], limit)->0;
                if i < others.len() {
                    assert(others[i] == keys[i]);
                    assert(select::claimed_by(others[i], limit) is Some);
                    let n = choose|n: int| 0 <= n < fewer.len() && fewer[n] == task;
                    assert(tasks[n] == task);
                } else {
                    assert(tasks[tasks.len() - 1] == task);
                }
            }
        }
        assert forall|n: int| 0 <= n < tasks.len() implies exists|i: int|
            0 <= i < keys.len() && #[trigger] select::claimed_by(keys[i], limit) == Some(
                #[trigger] tasks[n],
            ) by {
            if n < fewer.len() {
                assert(tasks[n] == fewer[n]);
                let i = choose|i: int|
                    0 <= i < others.len() && #[trigger] select::claimed_by(others[i], limit)
                        == Some(fewer[n]);
                assert(select::claimed_by(keys[i], limit) == Some(tasks[n]));
            } else {
                assert(select::claimed_by(keys[keys.len() - 1], limit) == Some(tasks[n]));
            }
        }
    }
}

/// The expired tasks among some keys are those that one of the keys denotes.
proof fn lemma_expired(keys: Seq<KeyModel>, limit: u64)
    ensures
        forall|i: int|
            0 <= i < keys.len() ==> (#[trigger] select::finished_by(keys[i], limit) matches Some(
                task,
            ) ==> select::expired(keys, limit).contains(task)),
        forall|n: int|
            0 <= n < select::expired(keys, limit).len() ==> exists|i: int|
                0 <= i < keys.len() && #[trigger] select::finished_by(keys[i], limit) == Some(
                    #[trigger] select::expired(keys, limit)[n],
                ),
    decreases keys.len(),
{
    if keys.len() > 0 {
        let others = keys.drop_last();
        let tasks = select::expired(keys, limit);
        let fewer = select::expired(others, limit);
        lemma_expired(others, limit);
        assert forall|i: int| 0 <= i < keys.len() implies (#[trigger] select::finished_by(
            keys[i],
            limit,
        ) matches Some(task) ==> tasks.contains(task)) by {
            if select::finished_by(keys[i], limit) is Some {
                let task = select::finished_by(keys[i], limit)->0;
                if i < others.len() {
                    assert(others[i] == keys[i]);
                    assert(select::finished_by(others[i], limit) is Some);
                    let n = choose|n: int| 0 <= n < fewer.len() && fewer[n] == task;
                    assert(tasks[n] == task);
                } else {
                    assert(tasks[tasks.len() - 1] == task);
                }
            }
        }
        assert forall|n: int| 0 <= n < tasks.len() implies exists|i: int|
            0 <= i < keys.len() && #[trigger] select::finished_by(keys[i], limit) == Some(
                #[trigger] tasks[n],
            ) by {
            if n < fewer.len() {
                assert(tasks[n] == fewer[n]);
                let i = choose|i: int|
                    0 <= i < others.len() && #[trigger] select::finished_by(others[i], limit)
                        == Some(fewer[n]);
                assert(select::finished_by(keys[i], limit) == Some(tasks[n]));
            } else {
                assert(select::finished_by(keys[keys.len() - 1], limit) == Some(tasks[n]));
            }
        }
    }
}

/// What is left after some tasks were removed.
proof fn lemma_cleaned(
    entries: Map<KeyModel, Value>,
    tasks: Seq<FinishedModel>,
    done: Seq<bool>,
)
    requires
        done.len() == tasks.len(),
    ensures
        forall|key: KeyModel|
            (forall|n: int| 0 <= n < tasks.len() && done[n] ==> (#[trigger] tasks[n]).key() != key)
                ==> #[trigger] same_at(entries, queue::cleaned(entries, tasks, done), key),
        forall|n: int|
            0 <= n < tasks.len() && done[n] ==> !queue::cleaned(
                entries,
                tasks,
                done,
            ).contains_key((#[trigger] tasks[n]).key()),
        forall|key: KeyModel| #[trigger]
            queue::cleaned(entries, tasks, done).contains_key(key) ==> entries.contains_key(key),
    decreases tasks.len(),
{
    if tasks.len() > 0 {
        let last = tasks.len() - 1;
        let fewer = tasks.drop_last();
        let fewer_done = done.drop_last();
        let others = queue::cleaned(entries, fewer, fewer_done);
        let left = queue::cleaned(entries, tasks, done);
        lemma_cleaned(entries, fewer, fewer_done);
        assert forall|key: KeyModel|
            (forall|n: int| 0 <= n < tasks.len() && done[n] ==> (#[trigger] tasks[n]).key()
                != key) implies #[trigger] same_at(entries, left, key) by {
            assert forall|n: int| 0 <= n < fewer.len() && fewer_done[n] implies (
            #[trigger] fewer[n]).key() != key by {
                assert(tasks[n] == fewer[n]);
                assert(done[n]);
            }
            assert(same_at(entries, others, key));
            assert(done[last] ==> tasks[last].key() != key);
        }
        assert forall|n: int| 0 <= n < tasks.len() && done[n] implies !left.contains_key(
            (#[trigger] tasks[n]).key(),
        ) by {
            if n < fewer.len() {
                assert(tasks[n] == fewer[n]);
                assert(fewer_done[n]);
                assert(!others.contains_key(fewer[n].key()));
            }
        }
    }
}

/// The tasks that are expired among listed keys, and their keys.
proof fn lemma_expired_listed(keys: Seq<KeyModel>, entries: Map<KeyModel, Value>, limit: u64)
    requires
        store::is_listing(keys, entries, task::finished_scope()),
    ensures
        forall|n: int|
            0 <= n < select::expired(keys, limit).len() ==> (#[trigger] select::expired(
                keys,
                limit,
            )[n]).valid() && is_expired(select::expired(keys, limit)[n].key(), limit),
        forall|key: KeyModel|
            is_expired(key, limit) && #[trigger] entries.contains_key(key) ==> exists|n: int|
                0 <= n < select::expired(keys, limit).len() && (#[trigger] select::expired(
                    keys,
                    limit,
                )[n]).key() == key,
{
    let tasks = select::expired(keys, limit);
    lemma_expired(keys, limit);
    assert forall|n: int| 0 <= n < tasks.len() implies (#[trigger] tasks[n]).valid() && is_expired(
        tasks[n].key(),
        limit,
    ) by {
        let i = choose|i: int|
            0 <= i < keys.len() && #[trigger] select::finished_by(keys[i], limit) == Some(tasks[n]);
        lemma_finished_of_is_valid(keys[i].name);
        task::lemma_finished_round_trip(tasks[n]);
    }
    assert forall|key: KeyModel|
        is_expired(key, limit) && #[trigger] entries.contains_key(key) implies exists|n: int|
        0 <= n < tasks.len() && (#[trigger] tasks[n]).key() == key by {
        assert(keys.contains(key));
        let i = choose|i: int| 0 <= i < keys.len() && keys[i] == key;
        let task = select::finished_by(keys[i], limit)->0;
        let n = choose|n: int| 0 <= n < tasks.len() && tasks[n] == task;
        assert(tasks[n].key() == key);
    }
}

/// The listing that cleaning up went by.
proof fn lemma_clean_up_listing(
    before: Map<KeyModel, Value>,
    after: Map<KeyModel, Value>,
    limit: u64,
    refusals: Set<Error>,
    made: Seq<Answered>,
) -> (keys: Seq<KeyModel>)
    requires
        queue::clean_up_outcome(before, after, limit, refusals, made, Ok(())),
    ensures
        queue::lists_first(before, task::finished_scope(), made, keys),
        queue::removes_each(made.skip(1), select::expired(keys, limit)),
        after == queue::cleaned(
            before,
            select::expired(keys, limit),
            queue::not_refused(made.skip(1), refusals),
        ),
{
    choose|keys: Seq<KeyModel>|
        {
            let tasks = select::expired(keys, limit);
            &&& #[trigger] queue::lists_first(before, task::finished_scope(), made, keys)
            &&& queue::removes_each(made.skip(1), tasks)
            &&& after == queue::cleaned(
                before,
                tasks,
                queue::not_refused(made.skip(1), refusals),
            )
        }
}

/// Cleaning up removes no entry but those of tasks that finished at `limit` or earlier.
pub proof fn law_clean_up_spares_the_rest(
    before: Map<KeyModel, Value>,
    after: Map<KeyModel, Value>,
    limit: u64,
    refusals: Set<Error>,
    made: Seq<Answered>,
    result: Result<(), Error>,
)
    requires
        queue::clean_up_outcome(before, after, limit, refusals, made, result),
    ensures
        forall|key: KeyModel| !is_expired(key, limit) ==> #[trigger] same_at(before, after, key),
        only_tasks(before) ==> only_tasks(after),
        only_pending_tasks(before) ==> only_pending_tasks(after),
        plain_pending(before) ==> plain_pending(after),
        distinct_names(before) ==> distinct_names(after),
{
    lemma_scopes_differ();
    if result is Ok {
        let keys = lemma_clean_up_listing(before, after, limit, refusals, made);
        lemma_expired_listed(keys, before, limit);
        lemma_cleaned(
            before,
            select::expired(keys, limit),
            queue::not_refused(made.skip(1), refusals),
        );
    }
    assert forall|key: KeyModel| !is_expired(key, limit) implies #[trigger] same_at(
        before,
        after,
        key,
    ) by {}
    if only_tasks(before) {
        assert forall|key: KeyModel| #[trigger] after.contains_key(key) implies is_task_key(
            key,
        ) by {
            if is_expired(key, limit) {
                lemma_finished_of_is_valid(key.name);
                lemma_task_key(StateModel::Finished(select::finished_by(key, limit)->0));
            } else {
                assert(same_at(before, after, key));
            }
        }
    }
    assert forall|key: KeyModel| #[trigger]
        after.contains_key(key) && key.scope == task::pending_scope() implies before.contains_key(
        key,
    ) by {
        assert(same_at(before, after, key));
    }
    assert forall|task: PendingModel| #[trigger]
        after.contains_key(task.key()) implies before.contains_key(task.key()) by {
        assert(same_at(before, after, task.key()));
    }
}

/// Cleaning up asks for the removal of every task that finished at `limit` or earlier, whatever
/// the answers are. A task whose removal was not refused is gone.
pub proof fn law_clean_up_asks_for_each(
    before: Map<KeyModel, Value>,
    after: Map<KeyModel, Value>,
    limit: u64,
    refusals: Set<Error>,
    made: Seq<Answered>,
    key: KeyModel,
) -> (i: int)
    requires
        queue::clean_up_outcome(before, after, limit, refusals, made, Ok(())),
        before.contains_key(key),
        is_expired(key, limit),
    ensures
        0 <= i < made.len(),
        made[i].request == (Request::Delete { key }),
        !queue::refused(made[i], refusals) ==> !after.contains_key(key),
{
    let keys = lemma_clean_up_listing(before, after, limit, refusals, made);
    let tasks = select::expired(keys, limit);
    let done = queue::not_refused(made.skip(1), refusals);
    lemma_expired_listed(keys, before, limit);
    lemma_cleaned(before, tasks, done);
    let i = choose|n: int| 0 <= n < tasks.len() && (#[trigger] tasks[n]).key() == key;
    assert(made.skip(1)[i].request == (Request::Delete { key: tasks[i].key() }));
    assert(done[i] == !queue::refused(made[i + 1], refusals));
    i + 1
}

/// Only what was asked for is removed: an entry whose removal was refused stays, and so does one
/// whose removal was not asked for.
pub proof fn law_clean_up_keeps_what_is_refused(
    before: Map<KeyModel, Value>,
    after: Map<KeyModel, Value>,
    limit: u64,
    refusals: Set<Error>,
    made: Seq<Answered>,
    key: KeyModel,
)
    requires
        queue::clean_up_outcome(before, after, limit, refusals, made, Ok(())),
        forall|i: int|
            0 <= i < made.len() && (#[trigger] made[i]).request == (Request::Delete { key })
                ==> queue::refused(made[i], refusals),
    ensures
        same_at(before, after, key),
{
    let keys = lemma_clean_up_listing(before, after, limit, refusals, made);
    let tasks = select::expired(keys, limit);
    let done = queue::not_refused(made.skip(1), refusals);
    lemma_cleaned(before, tasks, done);
    assert forall|n: int| 0 <= n < tasks.len() && done[n] implies (#[trigger] tasks[n]).key()
        != key by {
        assert(made.skip(1)[n].request == (Request::Delete { key: tasks[n].key() }));
        assert(done[n] == !queue::refused(made[n + 1], refusals));
    }
}

/// Once cleaning up has asked for a removal it succeeds, whatever the answers are.
pub proof fn law_refused_removal_is_no_failure(
    before: Map<KeyModel, Value>,
    after: Map<KeyModel, Value>,
    limit: u64,
    refusals: Set<Error>,
    made: Seq<Answered>,
    result: Result<(), Error>,
)
    requires
        queue::clean_up_outcome(before, after, limit, refusals, made, result),
        made.len() > 1,
    ensures
        result is Ok,
{
}

/// Where the store refuses nothing, cleaning up succeeds, and no task that finished at `limit`
/// or earlier is left.
pub proof fn law_clean_up_removes_the_expired(
    before: Map<KeyModel, Value>,
    after: Map<KeyModel, Value>,
    limit: u64,
    made: Seq<Answered>,
    result: Result<(), Error>,
)
    requires
        queue::clean_up_outcome(before, after, limit, Set::empty(), made, result),
    ensures
        result is Ok,
        forall|key: KeyModel| #[trigger] after.contains_key(key) ==> !is_expired(key, limit),
{
    let keys = lemma_clean_up_listing(before, after, limit, Set::empty(), made);
    lemma_cleaned(
        before,
        select::expired(keys, limit),
        queue::not_refused(made.skip(1), Set::empty()),
    );
    assert forall|key: KeyModel| #[trigger] after.contains_key(key) implies !is_expired(
        key,
        limit,
    ) by {
        if is_expired(key, limit) {
            assert(before.contains_key(key));
            let _ = law_clean_up_asks_for_each(before, after, limit, Set::empty(), made, key);
        }
    }
}

/// Where the store refuses nothing, what cleaning up leaves does not depend on the listing: two
/// such calls on equal stores with the same cutoff have equal results and leave equal stores.
pub proof fn law_clean_up_is_determined(
    before: Map<KeyModel, Value>,
    first: Map<KeyModel, Value>,
    second: Map<KeyModel, Value>,
    limit: u64,
    first_made: Seq<Answered>,
    second_made: Seq<Answered>,
    first_result: Result<(), Error>,
    second_result: Result<(), Error>,
)
    requires
        queue::clean_up_outcome(before, first, limit, Set::empty(), first_made, first_result),
        queue::clean_up_outcome(before, second, limit, Set::empty(), second_made, second_result),
    ensures
        first == second,
        first_result == second_result,
{
    law_clean_up_removes_the_expired(before, first, limit, first_made, first_result);
    law_clean_up_removes_the_expired(before, second, limit, second_made, second_result);
    law_clean_up_spares_the_rest(before, first, limit, Set::empty(), first_made, first_result);
    law_clean_up_spares_the_rest(before, second, limit, Set::empty(), second_made, second_result);
    assert forall|key: KeyModel| same_at(first, second, key) by {
        if !is_expired(key, limit) {
            assert(same_at(before, first, key));
            assert(same_at(before, second, key));
        }
    }
    lemma_same_everywhere(first, second);
    assert(first_result->Ok_0 == second_result->Ok_0);
}

/// Cleaning up a second time with the same cutoff changes nothing, where the first time nothing
/// was refused.
pub proof fn law_clean_up_twice(
    before: Map<KeyModel, Value>,
    between: Map<KeyModel, Value>,
    after: Map<KeyModel, Value>,
    limit: u64,
    refusals: Set<Error>,
    first_made: Seq<Answered>,
    second_made: Seq<Answered>,
    first_result: Result<(), Error>,
    second_result: Result<(), Error>,
)
    requires
        queue::clean_up_outcome(before, between, limit, Set::empty(), first_made, first_result),
        queue::clean_up_outcome(between, after, limit, refusals, second_made, second_result),
    ensures
        after == between,
        refusals.is_empty() ==> second_result is Ok,
{
    law_clean_up_removes_the_expired(before, between, limit, first_made, first_result);
    law_clean_up_spares_the_rest(between, after, limit, refusals, second_made, second_result);
    if second_result is Ok {
        let keys = lemma_clean_up_listing(between, after, limit, refusals, second_made);
        lemma_cleaned(
            between,
            select::expired(keys, limit),
            queue::not_refused(second_made.skip(1), refusals),
        );
        assert forall|key: KeyModel| same_at(between, after, key) by {
            if is_expired(key, limit) {
                assert(!between.contains_key(key));
            }
        }
        lemma_same_everywhere(between, after);
    }
}

/// Entries that are the same under every key are equal.
proof fn lemma_same_everywhere(a: Map<KeyModel, Value>, b: Map<KeyModel, Value>)
    requires
        forall|key: KeyModel| same_at(a, b, key),
    ensures
        a == b,
{
    assert forall|key: KeyModel| #[trigger] a.dom().contains(key) == b.dom().contains(key) by {
        assert(same_at(a, b, key));
    }
    assert forall|key: KeyModel| #[trigger] a.dom().contains(key) implies a[key] == b[key] by {
        assert(same_at(a, b, key));
    }
    assert(a.dom() =~= b.dom());
    assert(a =~= b);
}

/// What running tasks leave behind when they are made pending again: nothing else changes.
proof fn lemma_rescheduled(
    entries: Map<KeyModel, Value>,
    tasks: Seq<RunningModel>,
    now: u64,
    done: Seq<bool>,
)
    requires
        done.len() == tasks.len(),
    ensures
        forall|key: KeyModel|
            (forall|n: int|
                0 <= n < tasks.len() && done[n] && entries.contains_key((#[trigger] tasks[n]).key())
                    ==> tasks[n].key() != key && queue::pending_again(tasks[n], now).key() != key)
                ==> #[trigger] same_at(
                entries,
                queue::rescheduled(entries, tasks, now, done),
                key,
            ),
        forall|key: KeyModel|
            key.scope == task::running_scope() && #[trigger] queue::rescheduled(
                entries,
                tasks,
                now,
                done,
            ).contains_key(key) ==> entries.contains_key(key) && queue::rescheduled(
                entries,
                tasks,
                now,
                done,
            )[key] == entries[key],
        forall|n: int|
            0 <= n < tasks.len() && done[n] ==> !queue::rescheduled(
                entries,
                tasks,
                now,
                done,
            ).contains_key((#[trigger] tasks[n]).key()),
    decreases tasks.len(),
{
    lemma_scopes_differ();
    if tasks.len() > 0 {
        let last = tasks.len() - 1;
        let fewer = tasks.drop_last();
        let fewer_done = done.drop_last();
        let others = queue::rescheduled(entries, fewer, now, fewer_done);
        let all = queue::rescheduled(entries, tasks, now, done);
        lemma_rescheduled(entries, fewer, now, fewer_done);
        assert forall|key: KeyModel|
            (forall|n: int|
                0 <= n < tasks.len() && done[n] && entries.contains_key((#[trigger] tasks[n]).key())
                    ==> tasks[n].key() != key && queue::pending_again(tasks[n], now).key()
                    != key) implies #[trigger] same_at(entries, all, key) by {
            assert forall|n: int|
                0 <= n < fewer.len() && fewer_done[n] && entries.contains_key(
                    (#[trigger] fewer[n]).key(),
                ) implies fewer[n].key() != key && queue::pending_again(fewer[n], now).key()
                != key by {
                assert(fewer[n] == tasks[n]);
                assert(done[n]);
            }
            assert(same_at(entries, others, key));
            if others.contains_key(tasks[last].key()) {
                assert(entries.contains_key(tasks[last].key()));
            }
        }
        assert forall|n: int| 0 <= n < tasks.len() && done[n] implies !all.contains_key(
            (#[trigger] tasks[n]).key(),
        ) by {
            if n < last {
                assert(tasks[n] == fewer[n]);
                assert(fewer_done[n]);
                assert(!others.contains_key(fewer[n].key()));
            }
        }
    }
}

/// Whether a value is that of one of the running tasks, of this name, for which it was done.
spec fn comes_from(
    entries: Map<KeyModel, Value>,
    tasks: Seq<RunningModel>,
    done: Seq<bool>,
    name: Seq<char>,
    value: Value,
) -> bool {
    exists|m: int|
        {
            &&& 0 <= m < tasks.len() && done[m]
            &&& (#[trigger] tasks[m]).task_name.name == name
            &&& entries.contains_key(tasks[m].key())
            &&& value == entries[tasks[m].key()]
        }
}

/// What a running task becomes when it is made pending again.
proof fn lemma_rescheduled_task(
    entries: Map<KeyModel, Value>,
    tasks: Seq<RunningModel>,
    now: u64,
    done: Seq<bool>,
    n: int,
)
    requires
        done.len() == tasks.len(),
        forall|k: int| 0 <= k < tasks.len() ==> (#[trigger] tasks[k]).valid(),
        0 <= n < tasks.len(),
        done[n],
        entries.contains_key(tasks[n].key()),
    ensures
        queue::rescheduled(entries, tasks, now, done).contains_key(
            queue::pending_again(tasks[n], now).key(),
        ),
        comes_from(
            entries,
            tasks,
            done,
            tasks[n].task_name.name,
            queue::rescheduled(entries, tasks, now, done)[queue::pending_again(
                tasks[n],
                now,
            ).key()],
        ),
    decreases tasks.len(),
{
    let last = tasks.len() - 1;
    let fewer = tasks.drop_last();
    let fewer_done = done.drop_last();
    let others = queue::rescheduled(entries, fewer, now, fewer_done);
    let all = queue::rescheduled(entries, tasks, now, done);
    let task = tasks[last];
    let pending = queue::pending_again(tasks[n], now).key();
    let target = queue::pending_again(task, now).key();
    assert(tasks[n].valid());
    assert(task.valid());
    lemma_scopes_differ();
    lemma_rescheduled(entries, fewer, now, fewer_done);
    if done[last] && others.contains_key(task.key()) && pending == target {
        law_keys_tell_tasks_apart(
            StateModel::Pending(queue::pending_again(tasks[n], now)),
            StateModel::Pending(queue::pending_again(task, now)),
        );
        assert(all == store::moved(others, task.key(), target));
        assert(all[pending] == entries[tasks[last].key()]);
    } else {
        if n == last {
            assert(exists|k: int|
                0 <= k < fewer.len() && fewer_done[k] && (#[trigger] fewer[k]).key()
                    == task.key()) by {
                if forall|k: int|
                    0 <= k < fewer.len() && fewer_done[k] ==> (#[trigger] fewer[k]).key()
                        != task.key() {
                    assert(same_at(entries, others, task.key()));
                }
            }
        }
        let k = if n < last {
            n
        } else {
            choose|k: int|
                0 <= k < fewer.len() && fewer_done[k] && (#[trigger] fewer[k]).key() == task.key()
        };
        assert(fewer[k] == tasks[k]);
        law_keys_tell_tasks_apart(StateModel::Running(tasks[k]), StateModel::Running(tasks[n]));
        assert forall|j: int| 0 <= j < fewer.len() implies (#[trigger] fewer[j]).valid() by {
            assert(fewer[j] == tasks[j]);
        }
        lemma_rescheduled_task(entries, fewer, now, fewer_done, k);
        assert(all.contains_key(pending) && all[pending] == others[pending]);
        let m = choose|m: int|
            {
                &&& 0 <= m < fewer.len() && fewer_done[m]
                &&& (#[trigger] fewer[m]).task_name.name == tasks[n].task_name.name
                &&& entries.contains_key(fewer[m].key())
                &&& others[pending] == entries[fewer[m].key()]
            };
        assert(fewer[m] == tasks[m]);
        assert(done[m]);
    }
}

/// The tasks that time out among listed keys, and their keys.
proof fn lemma_timed_out_listed(
    keys: Seq<KeyModel>,
    entries: Map<KeyModel, Value>,
    limit: u64,
)
    requires
        store::is_listing(keys, entries, task::running_scope()),
    ensures
        forall|n: int|
            0 <= n < select::timed_out(keys, limit).len() ==> (#[trigger] select::timed_out(
                keys,
                limit,
            )[n]).valid() && is_timed_out(select::timed_out(keys, limit)[n].key(), limit),
        forall|task: RunningModel|
            task.valid() && task.claim_timestamp <= limit && #[trigger] entries.contains_key(
                task.key(),
            ) ==> select::timed_out(keys, limit).contains(task),
{
    let tasks = select::timed_out(keys, limit);
    lemma_timed_out(keys, limit);
    assert forall|n: int| 0 <= n < tasks.len() implies (#[trigger] tasks[n]).valid()
        && is_timed_out(tasks[n].key(), limit) by {
        let i = choose|i: int|
            0 <= i < keys.len() && #[trigger] select::claimed_by(keys[i], limit) == Some(tasks[n]);
        lemma_running_of_is_valid(keys[i].name);
        task::lemma_running_round_trip(tasks[n]);
    }
    assert forall|task: RunningModel|
        task.valid() && task.claim_timestamp <= limit && #[trigger] entries.contains_key(
            task.key(),
        ) implies tasks.contains(task) by {
        task::lemma_running_round_trip(task);
        assert(keys.contains(task.key()));
        let i = choose|i: int| 0 <= i < keys.len() && keys[i] == task.key();
        assert(select::claimed_by(keys[i], limit) == Some(task));
    }
}

/// The listing that rescheduling went by.
proof fn lemma_reschedule_listing(
    before: Map<KeyModel, Value>,
    after: Map<KeyModel, Value>,
    now: u64,
    limit: u64,
    refusals: Set<Error>,
    made: Seq<Answered>,
) -> (keys: Seq<KeyModel>)
    requires
        queue::reschedule_outcome(before, after, now, limit, refusals, made, Ok(())),
    ensures
        queue::lists_first(before, task::running_scope(), made, keys),
        queue::reschedules_each(made.skip(1), select::timed_out(keys, limit), now),
        after == queue::rescheduled(
            before,
            select::timed_out(keys, limit),
            now,
            queue::not_refused(made.skip(1), refusals),
        ),
{
    choose|keys: Seq<KeyModel>|
        {
            let tasks = select::timed_out(keys, limit);
            &&& #[trigger] queue::lists_first(before, task::running_scope(), made, keys)
            &&& queue::reschedules_each(made.skip(1), tasks, now)
            &&& after == queue::rescheduled(
                before,
                tasks,
                now,
                queue::not_refused(made.skip(1), refusals),
            )
        }
}

/// Whether one of the keys from a position up to another is that of a timed-out task.
spec fn is_among(keys: Seq<KeyModel>, limit: u64, task: RunningModel, from: int, to: int) -> bool {
    exists|q: int| from <= q < to && #[trigger] select::claimed_by(keys[q], limit) == Some(task)
}

/// Where the task at a position of the listed keys stands among the timed-out ones: those before it
/// come from earlier keys, and those after it from later ones.
proof fn lemma_timed_out_position(keys: Seq<KeyModel>, limit: u64, p: int) -> (n: int)
    requires
        0 <= p < keys.len(),
        select::claimed_by(keys[p], limit) is Some,
    ensures
        0 <= n < select::timed_out(keys, limit).len(),
        Some(select::timed_out(keys, limit)[n]) == select::claimed_by(keys[p], limit),
        forall|m: int|
            0 <= m < n ==> is_among(
                keys,
                limit,
                #[trigger] select::timed_out(keys, limit)[m],
                0,
                p,
            ),
        forall|m: int|
            n < m < select::timed_out(keys, limit).len() ==> is_among(
                keys,
                limit,
                #[trigger] select::timed_out(keys, limit)[m],
                p + 1,
                keys.len() as int,
            ),
    decreases keys.len(),
{
    let others = keys.drop_last();
    let tasks = select::timed_out(keys, limit);
    let fewer = select::timed_out(others, limit);
    let last = keys.len() - 1;
    let n = if p == last {
        lemma_timed_out(others, limit);
        tasks.len() - 1
    } else {
        assert(others[p] == keys[p]);
        lemma_timed_out_position(others, limit, p)
    };
    assert forall|m: int| 0 <= m < n implies is_among(keys, limit, #[trigger] tasks[m], 0, p) by {
        assert(tasks[m] == fewer[m]);
        let q = if p == last {
            choose|q: int|
                0 <= q < others.len() && #[trigger] select::claimed_by(others[q], limit) == Some(
                    fewer[m],
                )
        } else {
            assert(is_among(others, limit, fewer[m], 0, p));
            choose|q: int|
                0 <= q < p && #[trigger] select::claimed_by(others[q], limit) == Some(fewer[m])
        };
        assert(select::claimed_by(keys[q], limit) == Some(tasks[m]));
    }
    assert forall|m: int| n < m < tasks.len() implies is_among(
        keys,
        limit,
        #[trigger] tasks[m],
        p + 1,
        keys.len() as int,
    ) by {
        if m < fewer.len() {
            assert(tasks[m] == fewer[m]);
            assert(is_among(others, limit, fewer[m], p + 1, last));
            let q = choose|q: int|
                p + 1 <= q < last && #[trigger] select::claimed_by(others[q], limit) == Some(
                    fewer[m],
                );
            assert(select::claimed_by(keys[q], limit) == Some(tasks[m]));
        } else {
            assert(select::claimed_by(keys[last], limit) == Some(tasks[m]));
        }
    }
    n
}

/// The value of a task that is made pending again stays with it, if no task of its name comes
/// after.
proof fn lemma_last_of_name(
    entries: Map<KeyModel, Value>,
    tasks: Seq<RunningModel>,
    now: u64,
    done: Seq<bool>,
    n: int,
)
    requires
        done.len() == tasks.len(),
        0 <= n < tasks.len(),
        done[n],
        forall|k: int| 0 <= k < tasks.len() ==> (#[trigger] tasks[k]).valid(),
        forall|m: int| 0 <= m < n ==> (#[trigger] tasks[m]).key() != tasks[n].key(),
        forall|m: int|
            n < m < tasks.len() ==> (#[trigger] tasks[m]).task_name.name
                != tasks[n].task_name.name,
        entries.contains_key(tasks[n].key()),
    ensures
        queue::rescheduled(entries, tasks, now, done).contains_key(
            queue::pending_again(tasks[n], now).key(),
        ),
        queue::rescheduled(entries, tasks, now, done)[queue::pending_again(tasks[n], now).key()]
            == entries[tasks[n].key()],
    decreases tasks.len(),
{
    let last = tasks.len() - 1;
    let fewer = tasks.drop_last();
    let fewer_done = done.drop_last();
    let others = queue::rescheduled(entries, fewer, now, fewer_done);
    let task = tasks[n];
    lemma_scopes_differ();
    if n == last {
        lemma_rescheduled(entries, fewer, now, fewer_done);
        assert forall|m: int| 0 <= m < fewer.len() implies (#[trigger] fewer[m]).key()
            != task.key() by {
            assert(fewer[m] == tasks[m]);
        }
        assert(same_at(entries, others, task.key()));
    } else {
        assert forall|k: int| 0 <= k < fewer.len() implies (#[trigger] fewer[k]).valid() by {
            assert(fewer[k] == tasks[k]);
        }
        assert forall|m: int| 0 <= m < n implies (#[trigger] fewer[m]).key() != fewer[n].key() by {
            assert(fewer[m] == tasks[m]);
        }
        assert forall|m: int| n < m < fewer.len() implies (#[trigger] fewer[m]).task_name.name
            != fewer[n].task_name.name by {
            assert(fewer[m] == tasks[m]);
        }
        lemma_last_of_name(entries, fewer, now, fewer_done, n);
        assert(tasks[last].valid());
        assert(task.valid());
        if queue::pending_again(tasks[last], now).key() == queue::pending_again(task, now).key() {
            law_keys_tell_tasks_apart(
                StateModel::Pending(queue::pending_again(tasks[last], now)),
                StateModel::Pending(queue::pending_again(task, now)),
            );
        }
    }
}

/// Where nothing is refused, the last listed of the timed-out tasks of a name is the one whose
/// value stays.
pub(crate) proof fn lemma_last_listed(
    before: Map<KeyModel, Value>,
    after: Map<KeyModel, Value>,
    now: u64,
    limit: u64,
    made: Seq<Answered>,
    keys: Seq<KeyModel>,
    p: int,
    running: RunningModel,
)
    requires
        queue::reschedule_outcome(before, after, now, limit, Set::empty(), made, Ok(())),
        made[0].reply == Ok::<Answer, Error>(Answer::Keys(keys)),
        0 <= p < keys.len(),
        keys[p] == running.key(),
        running.valid(),
        running.claim_timestamp <= limit,
        forall|q: int|
            0 <= q < keys.len() ==> (task::running_of(#[trigger] keys[q].name) matches Ok(other)
                ==> other.key() == keys[q]),
        forall|q: int|
            p < q < keys.len() ==> (task::running_of(#[trigger] keys[q].name) matches Ok(other)
                ==> other.claim_timestamp > limit || other.task_name.name
                != running.task_name.name),
    ensures
        after[queue::pending_again(running, now).key()] == before[running.key()],
{
    let listed = lemma_reschedule_listing(before, after, now, limit, Set::empty(), made);
    assert(listed == keys);
    let tasks = select::timed_out(keys, limit);
    let done = queue::not_refused(made.skip(1), Set::empty());
    task::lemma_running_round_trip(running);
    lemma_timed_out_listed(keys, before, limit);
    let n = lemma_timed_out_position(keys, limit, p);
    assert(tasks[n] == running);
    assert forall|m: int| 0 <= m < n implies (#[trigger] tasks[m]).key() != tasks[n].key() by {
        assert(is_among(keys, limit, tasks[m], 0, p));
        let q = choose|q: int|
            0 <= q < p && #[trigger] select::claimed_by(keys[q], limit) == Some(tasks[m]);
        assert(task::running_of(keys[q].name) == Ok::<RunningModel, Error>(tasks[m]));
        assert(keys[q] != keys[p]);
    }
    assert forall|m: int| n < m < tasks.len() implies (#[trigger] tasks[m]).task_name.name
        != tasks[n].task_name.name by {
        assert(is_among(keys, limit, tasks[m], p + 1, keys.len() as int));
        let q = choose|q: int|
            p + 1 <= q < keys.len() && #[trigger] select::claimed_by(keys[q], limit) == Some(
                tasks[m],
            );
        assert(task::running_of(keys[q].name) == Ok::<RunningModel, Error>(tasks[m]));
    }
    assert(keys.contains(keys[p]));
    lemma_last_of_name(before, tasks, now, done, n);
}

/// Whether a key is one under which a timed-out task among the entries becomes pending again.
pub open spec fn is_pending_again(
    entries: Map<KeyModel, Value>,
    key: KeyModel,
    limit: u64,
    now: u64,
) -> bool {
    exists|task: RunningModel|
        {
            &&& task.valid() && task.claim_timestamp <= limit
            &&& #[trigger] entries.contains_key(task.key())
            &&& queue::pending_again(task, now).key() == key
        }
}

/// Rescheduling changes no entry but those of tasks that were claimed at `limit` or earlier, and
/// those under which they become pending again. The scopes keep to tasks.
pub proof fn law_reschedule_spares_the_rest(
    before: Map<KeyModel, Value>,
    after: Map<KeyModel, Value>,
    now: u64,
    limit: u64,
    refusals: Set<Error>,
    made: Seq<Answered>,
    result: Result<(), Error>,
)
    requires
        queue::reschedule_outcome(before, after, now, limit, refusals, made, result),
    ensures
        forall|key: KeyModel|
            !is_timed_out(key, limit) && !is_pending_again(before, key, limit, now)
                ==> #[trigger] same_at(
                before,
                after,
                key,
            ),
        only_tasks(before) ==> only_tasks(after),
        only_pending_tasks(before) ==> only_pending_tasks(after),
        plain_pending(before) ==> plain_pending(after),
{
    if result is Ok {
        let keys = lemma_reschedule_listing(before, after, now, limit, refusals, made);
        let done = queue::not_refused(made.skip(1), refusals);
        let tasks = select::timed_out(keys, limit);
        lemma_timed_out_listed(keys, before, limit);
        lemma_rescheduled(before, tasks, now, done);
        assert forall|key: KeyModel|
            !is_timed_out(key, limit) && !is_pending_again(
                before,
                key,
                limit,
                now,
            ) implies #[trigger] same_at(before, after, key) by {
            assert forall|n: int|
                0 <= n < tasks.len() && before.contains_key(
                    (#[trigger] tasks[n]).key(),
                ) implies tasks[n].key() != key && queue::pending_again(tasks[n], now).key()
                != key by {
                task::lemma_running_round_trip(tasks[n]);
            }
        }
    } else {
        assert forall|key: KeyModel| #[trigger] same_at(before, after, key) by {}
    }
    lemma_scopes_differ();
    assert forall|key: KeyModel| #[trigger]
        after.contains_key(key) && key.scope == task::pending_scope() implies is_task_key(key)
        || before.contains_key(key) by {
        if is_pending_again(before, key, limit, now) {
            let task = choose|task: RunningModel|
                {
                    &&& task.valid() && task.claim_timestamp <= limit
                    &&& #[trigger] before.contains_key(task.key())
                    &&& queue::pending_again(task, now).key() == key
                };
            lemma_task_key(StateModel::Pending(queue::pending_again(task, now)));
        } else {
            assert(same_at(before, after, key));
        }
    }
    if only_tasks(before) {
        assert forall|key: KeyModel| #[trigger] after.contains_key(key) implies is_task_key(
            key,
        ) by {
            if is_pending_again(before, key, limit, now) {
                let task = choose|task: RunningModel|
                    {
                        &&& task.valid() && task.claim_timestamp <= limit
                        &&& #[trigger] before.contains_key(task.key())
                        &&& queue::pending_again(task, now).key() == key
                    };
                lemma_task_key(StateModel::Pending(queue::pending_again(task, now)));
            } else if is_timed_out(key, limit) {
                lemma_scopes_differ();
                let task = select::claimed_by(key, limit)->0;
                lemma_running_of_is_valid(key.name);
                lemma_task_key(StateModel::Running(task));
            } else {
                assert(same_at(before, after, key));
            }
        }
    }
}

/// Rescheduling asks for every task that was claimed at `limit` or earlier to be made pending
/// again, whatever the answers are.
pub proof fn law_reschedule_asks_for_each(
    before: Map<KeyModel, Value>,
    after: Map<KeyModel, Value>,
    now: u64,
    limit: u64,
    refusals: Set<Error>,
    made: Seq<Answered>,
    task: RunningModel,
) -> (i: int)
    requires
        queue::reschedule_outcome(before, after, now, limit, refusals, made, Ok(())),
        task.valid(),
        task.claim_timestamp <= limit,
        before.contains_key(task.key()),
    ensures
        0 <= i < made.len(),
        made[i].request == queue::reschedule_request(task, now),
{
    let keys = lemma_reschedule_listing(before, after, now, limit, refusals, made);
    let tasks = select::timed_out(keys, limit);
    lemma_timed_out_listed(keys, before, limit);
    assert(tasks.contains(task));
    let i = choose|n: int| 0 <= n < tasks.len() && tasks[n] == task;
    assert(made.skip(1)[i].request == queue::reschedule_request(tasks[i], now));
    i + 1
}

/// A task whose rescheduling was not refused, whatever became of the others, is running no more
/// and is pending again, scheduled for `now`, with the value of a timed-out task of its name:
/// its own, if it is the only one.
pub proof fn law_rescheduled_unless_refused(
    before: Map<KeyModel, Value>,
    after: Map<KeyModel, Value>,
    now: u64,
    limit: u64,
    refusals: Set<Error>,
    made: Seq<Answered>,
    task: RunningModel,
    i: int,
)
    requires
        queue::reschedule_outcome(before, after, now, limit, refusals, made, Ok(())),
        task.valid(),
        before.contains_key(task.key()),
        0 <= i < made.len(),
        made[i].request == queue::reschedule_request(task, now),
        !queue::refused(made[i], refusals),
    ensures
        !after.contains_key(task.key()),
        after.contains_key(queue::pending_again(task, now).key()),
        exists|other: RunningModel|
            {
                &&& other.valid() && other.claim_timestamp <= limit
                &&& other.task_name.name == task.task_name.name
                &&& #[trigger] before.contains_key(other.key())
                &&& after[queue::pending_again(task, now).key()] == before[other.key()]
            },
        (forall|other: RunningModel|
            other.valid() && other.claim_timestamp <= limit && other.task_name.name
                == task.task_name.name && #[trigger] before.contains_key(other.key()) ==> other
                == task) ==> after[queue::pending_again(task, now).key()] == before[task.key()],
{
    let keys = lemma_reschedule_listing(before, after, now, limit, refusals, made);
    let tasks = select::timed_out(keys, limit);
    let done = queue::not_refused(made.skip(1), refusals);
    lemma_timed_out_listed(keys, before, limit);
    lemma_rescheduled(before, tasks, now, done);
    let n = i - 1;
    assert(made.skip(1)[n].request == queue::reschedule_request(tasks[n], now));
    law_keys_tell_tasks_apart(StateModel::Running(tasks[n]), StateModel::Running(task));
    assert(done[n]);
    lemma_rescheduled_task(before, tasks, now, done, n);
    let pending = queue::pending_again(task, now).key();
    let m = choose|m: int|
        {
            &&& 0 <= m < tasks.len() && done[m]
            &&& (#[trigger] tasks[m]).task_name.name == tasks[n].task_name.name
            &&& before.contains_key(tasks[m].key())
            &&& after[pending] == before[tasks[m].key()]
        };
    let other = tasks[m];
    task::lemma_running_round_trip(other);
    assert(other.valid() && other.claim_timestamp <= limit);
    assert(before.contains_key(other.key()));
}

/// A running task whose rescheduling was refused keeps running, with its value, and so does one
/// for which it was not asked.
pub proof fn law_refused_task_keeps_running(
    before: Map<KeyModel, Value>,
    after: Map<KeyModel, Value>,
    now: u64,
    limit: u64,
    refusals: Set<Error>,
    made: Seq<Answered>,
    task: RunningModel,
)
    requires
        queue::reschedule_outcome(before, after, now, limit, refusals, made, Ok(())),
        task.valid(),
        forall|i: int|
            0 <= i < made.len() && (#[trigger] made[i]).request == queue::reschedule_request(
                task,
                now,
            ) ==> queue::refused(made[i], refusals),
    ensures
        same_at(before, after, task.key()),
{
    let keys = lemma_reschedule_listing(before, after, now, limit, refusals, made);
    let tasks = select::timed_out(keys, limit);
    let done = queue::not_refused(made.skip(1), refusals);
    lemma_scopes_differ();
    lemma_timed_out_listed(keys, before, limit);
    lemma_rescheduled(before, tasks, now, done);
    assert forall|n: int| 0 <= n < tasks.len() && done[n] implies (#[trigger] tasks[n]).key()
        != task.key() by {
        if tasks[n].key() == task.key() {
            law_keys_tell_tasks_apart(StateModel::Running(tasks[n]), StateModel::Running(task));
            assert(made.skip(1)[n].request == queue::reschedule_request(tasks[n], now));
            assert(done[n] == !queue::refused(made[n + 1], refusals));
        }
    }
}

/// Once rescheduling has asked for a task to be moved it succeeds, whatever the answers are.
pub proof fn law_refused_move_is_no_failure(
    before: Map<KeyModel, Value>,
    after: Map<KeyModel, Value>,
    now: u64,
    limit: u64,
    refusals: Set<Error>,
    made: Seq<Answered>,
    result: Result<(), Error>,
)
    requires
        queue::reschedule_outcome(before, after, now, limit, refusals, made, result),
        made.len() > 1,
    ensures
        result is Ok,
{
}

/// Where the store refuses nothing, rescheduling succeeds. Every task that was claimed at
/// `limit` or earlier is then running no more and is pending again, scheduled for `now`, with the
/// value of a timed-out task of its name: its own, if it is the only one.
pub proof fn law_reschedule_makes_pending(
    before: Map<KeyModel, Value>,
    after: Map<KeyModel, Value>,
    now: u64,
    limit: u64,
    made: Seq<Answered>,
    result: Result<(), Error>,
    task: RunningModel,
)
    requires
        queue::reschedule_outcome(before, after, now, limit, Set::empty(), made, result),
        task.valid(),
        task.claim_timestamp <= limit,
        before.contains_key(task.key()),
    ensures
        result is Ok,
        !after.contains_key(task.key()),
        after.contains_key(queue::pending_again(task, now).key()),
        exists|other: RunningModel|
            {
                &&& other.valid() && other.claim_timestamp <= limit
                &&& other.task_name.name == task.task_name.name
                &&& #[trigger] before.contains_key(other.key())
                &&& after[queue::pending_again(task, now).key()] == before[other.key()]
            },
        (forall|other: RunningModel|
            other.valid() && other.claim_timestamp <= limit && other.task_name.name
                == task.task_name.name && #[trigger] before.contains_key(other.key()) ==> other
                == task) ==> after[queue::pending_again(task, now).key()] == before[task.key()],
{
    let i = law_reschedule_asks_for_each(before, after, now, limit, Set::empty(), made, task);
    law_rescheduled_unless_refused(before, after, now, limit, Set::empty(), made, task, i);
}

/// Where the store refuses nothing, no task is left running that was claimed at `limit` or
/// earlier.
pub proof fn law_reschedule_leaves_none_timed_out(
    before: Map<KeyModel, Value>,
    after: Map<KeyModel, Value>,
    now: u64,
    limit: u64,
    made: Seq<Answered>,
    result: Result<(), Error>,
)
    requires
        queue::reschedule_outcome(before, after, now, limit, Set::empty(), made, result),
    ensures
        result is Ok,
        forall|key: KeyModel| #[trigger] after.contains_key(key) ==> !is_timed_out(key, limit),
{
    let keys = lemma_reschedule_listing(before, after, now, limit, Set::empty(), made);
    lemma_rescheduled(
        before,
        select::timed_out(keys, limit),
        now,
        queue::not_refused(made.skip(1), Set::empty()),
    );
    assert forall|key: KeyModel| #[trigger] after.contains_key(key) implies !is_timed_out(
        key,
        limit,
    ) by {
        if is_timed_out(key, limit) {
            let task = select::claimed_by(key, limit)->0;
            lemma_running_of_is_valid(key.name);
            assert(before.contains_key(task.key()));
            law_reschedule_makes_pending(before, after, now, limit, made, result, task);
        }
    }
}

/// Rescheduling a second time with the same time and cutoff changes nothing, where the first time
/// nothing was refused.
pub proof fn law_reschedule_twice(
    before: Map<KeyModel, Value>,
    between: Map<KeyModel, Value>,
    after: Map<KeyModel, Value>,
    now: u64,
    limit: u64,
    refusals: Set<Error>,
    first_made: Seq<Answered>,
    second_made: Seq<Answered>,
    first_result: Result<(), Error>,
    second_result: Result<(), Error>,
)
    requires
        queue::reschedule_outcome(
            before,
            between,
            now,
            limit,
            Set::empty(),
            first_made,
            first_result,
        ),
        queue::reschedule_outcome(
            between,
            after,
            now,
            limit,
            refusals,
            second_made,
            second_result,
        ),
    ensures
        after == between,
        refusals.is_empty() ==> second_result is Ok,
{
    law_reschedule_leaves_none_timed_out(before, between, now, limit, first_made, first_result);
    if second_result is Ok {
        let keys = lemma_reschedule_listing(between, after, now, limit, refusals, second_made);
        let tasks = select::timed_out(keys, limit);
        lemma_timed_out_listed(keys, between, limit);
        lemma_rescheduled(between, tasks, now, queue::not_refused(second_made.skip(1), refusals));
        assert forall|key: KeyModel| same_at(between, after, key) by {
            assert forall|n: int| 0 <= n < tasks.len() implies !between.contains_key(
                (#[trigger] tasks[n]).key(),
            ) by {
                assert(is_timed_out(tasks[n].key(), limit));
            }
        }
        lemma_same_everywhere(between, after);
    }
}

/// Where the store refuses nothing and no two timed-out tasks have the same name, what
/// rescheduling leaves does not depend on the listing: two such calls on equal stores with the
/// same time and cutoff have equal results and leave equal stores.
pub proof fn law_reschedule_is_determined(
    before: Map<KeyModel, Value>,
    first: Map<KeyModel, Value>,
    second: Map<KeyModel, Value>,
    now: u64,
    limit: u64,
    first_made: Seq<Answered>,
    second_made: Seq<Answered>,
    first_result: Result<(), Error>,
    second_result: Result<(), Error>,
)
    requires
        distinct_timed_out(before, limit),
        queue::reschedule_outcome(
            before,
            first,
            now,
            limit,
            Set::empty(),
            first_made,
            first_result,
        ),
        queue::reschedule_outcome(
            before,
            second,
            now,
            limit,
            Set::empty(),
            second_made,
            second_result,
        ),
    ensures
        first == second,
        first_result == second_result,
{
    lemma_reschedule_decides(before, first, now, limit, first_made, first_result);
    lemma_reschedule_decides(before, second, now, limit, second_made, second_result);
    assert forall|key: KeyModel| same_at(first, second, key) by {
        if is_timed_out(key, limit) {
            assert(!first.contains_key(key));
            assert(!second.contains_key(key));
        } else if is_pending_again(before, key, limit, now) {
            let task = choose|task: RunningModel|
                {
                    &&& task.valid() && task.claim_timestamp <= limit
                    &&& #[trigger] before.contains_key(task.key())
                    &&& queue::pending_again(task, now).key() == key
                };
            assert(before.contains_key(task.key()));
        } else {
            assert(same_at(before, first, key));
            assert(same_at(before, second, key));
        }
    }
    lemma_same_everywhere(first, second);
    assert(first_result->Ok_0 == second_result->Ok_0);
}

/// Whether no two running tasks that were claimed at `limit` or earlier have the same name.
pub open spec fn distinct_timed_out(entries: Map<KeyModel, Value>, limit: u64) -> bool {
    forall|a: RunningModel, b: RunningModel|
        {
            &&& a.valid() && a.claim_timestamp <= limit
            &&& b.valid() && b.claim_timestamp <= limit
            &&& #[trigger] entries.contains_key(a.key())
            &&& #[trigger] entries.contains_key(b.key())
            &&& a.task_name.name == b.task_name.name
        } ==> a == b
}

/// What becomes of each entry when tasks of distinct names are rescheduled.
proof fn lemma_reschedule_decides(
    before: Map<KeyModel, Value>,
    after: Map<KeyModel, Value>,
    now: u64,
    limit: u64,
    made: Seq<Answered>,
    result: Result<(), Error>,
)
    requires
        distinct_timed_out(before, limit),
        queue::reschedule_outcome(before, after, now, limit, Set::empty(), made, result),
    ensures
        result is Ok,
        forall|key: KeyModel| is_timed_out(key, limit) ==> !#[trigger] after.contains_key(key),
        forall|task: RunningModel|
            task.valid() && task.claim_timestamp <= limit && #[trigger] before.contains_key(
                task.key(),
            ) ==> after.contains_key(queue::pending_again(task, now).key())
                && after[queue::pending_again(task, now).key()] == before[task.key()],
        forall|key: KeyModel|
            !is_timed_out(key, limit) && !is_pending_again(before, key, limit, now)
                ==> #[trigger] same_at(before, after, key),
{
    law_reschedule_leaves_none_timed_out(before, after, now, limit, made, result);
    law_reschedule_spares_the_rest(before, after, now, limit, Set::empty(), made, result);
    assert forall|task: RunningModel|
        task.valid() && task.claim_timestamp <= limit && #[trigger] before.contains_key(
            task.key(),
        ) implies after.contains_key(queue::pending_again(task, now).key())
        && after[queue::pending_again(task, now).key()] == before[task.key()] by {
        law_reschedule_makes_pending(before, after, now, limit, made, result, task);
    }
}

/// Rescheduling without a timeout and with one of 900 seconds have equal results and leave equal
/// stores, given equal stores that refuse nothing, the same clock reading, and timed-out tasks of
/// distinct names.
pub proof fn law_default_reschedule<B: KeyValueStoreBackend>(
    before: Map<KeyModel, Value>,
    by_default: Map<KeyModel, Value>,
    by_timeout: Map<KeyModel, Value>,
    time: SystemTime,
    timeout: &Duration,
    default_made: Seq<Answered>,
    timeout_made: Seq<Answered>,
    default_result: Result<(), Error>,
    timeout_result: Result<(), Error>,
)
    requires
        clock::whole_seconds(*timeout) == 900,
        clock::cutoff_of(time, 900) matches Ok((now, limit)) ==> distinct_timed_out(before, limit),
        queue::reschedule_call(
            before,
            by_default,
            clock::cutoff_of(
                time,
                queue::timeout_seconds(None, <KeyValueStore<B> as Queue>::RESCHEDULE_AFTER),
            ),
            Set::empty(),
            default_made,
            default_result,
        ),
        queue::reschedule_call(
            before,
            by_timeout,
            clock::cutoff_of(
                time,
                queue::timeout_seconds(
                    Some(timeout),
                    <KeyValueStore<B> as Queue>::RESCHEDULE_AFTER,
                ),
            ),
            Set::empty(),
            timeout_made,
            timeout_result,
        ),
    ensures
        by_default == by_timeout,
        default_result == timeout_result,
{
    queue::law_default_timeouts::<B>();
    if let Ok((now, limit)) = clock::cutoff_of(time, 900) {
        law_reschedule_is_determined(
            before,
            by_default,
            by_timeout,
            now,
            limit,
            default_made,
            timeout_made,
            default_result,
            timeout_result,
        );
    }
}

/// Cleaning up without a timeout and with one of 604800 seconds have equal results and leave
/// equal stores, given equal stores that refuse nothing and the same clock reading.
pub proof fn law_default_clean_up<B: KeyValueStoreBackend>(
    before: Map<KeyModel, Value>,
    by_default: Map<KeyModel, Value>,
    by_timeout: Map<KeyModel, Value>,
    time: SystemTime,
    timeout: &Duration,
    default_made: Seq<Answered>,
    timeout_made: Seq<Answered>,
    default_result: Result<(), Error>,
    timeout_result: Result<(), Error>,
)
    requires
        clock::whole_seconds(*timeout) == 604800,
        queue::clean_up_call(
            before,
            by_default,
            clock::cutoff_of(
                time,
                queue::timeout_seconds(None, <KeyValueStore<B> as Queue>::REMOVE_AFTER),
            ),
            Set::empty(),
            default_made,
            default_result,
        ),
        queue::clean_up_call(
            before,
            by_timeout,
            clock::cutoff_of(
                time,
                queue::timeout_seconds(Some(timeout), <KeyValueStore<B> as Queue>::REMOVE_AFTER),
            ),
            Set::empty(),
            timeout_made,
            timeout_result,
        ),
    ensures
        by_default == by_timeout,
        default_result == timeout_result,
{
    queue::law_default_timeouts::<B>();
    if let Ok((now, limit)) = clock::cutoff_of(time, 604800) {
        law_clean_up_is_determined(
            before,
            by_default,
            by_timeout,
            limit,
            default_made,
            timeout_made,
            default_result,
            timeout_result,
        );
    }
}

/// Rescheduling keeps the names of pending tasks distinct, unless a timed-out task becomes
/// pending beside a task of its name that is pending for another time.
pub proof fn law_reschedule_keeps_names_distinct(
    before: Map<KeyModel, Value>,
    after: Map<KeyModel, Value>,
    now: u64,
    limit: u64,
    refusals: Set<Error>,
    made: Seq<Answered>,
    result: Result<(), Error>,
)
    requires
        distinct_names(before),
        forall|running: RunningModel, pending: PendingModel|
            {
                &&& running.valid() && running.claim_timestamp <= limit
                &&& #[trigger] before.contains_key(running.key())
                &&& pending.valid() && pending.name == running.task_name.name
                &&& #[trigger] before.contains_key(pending.key())
            } ==> pending.schedule_timestamp == now,
        queue::reschedule_outcome(before, after, now, limit, refusals, made, result),
    ensures
        distinct_names(after),
{
    if result is Ok {
        let keys = lemma_reschedule_listing(before, after, now, limit, refusals, made);
        let done = queue::not_refused(made.skip(1), refusals);
        assert forall|a: PendingModel, b: PendingModel|
            a.valid() && b.valid() && #[trigger] after.contains_key(a.key())
                && #[trigger] after.contains_key(b.key()) && a.name == b.name implies a == b by {
            lemma_origin(keys, before, after, now, limit, done, a);
            lemma_origin(keys, before, after, now, limit, done, b);
        }
    }
}

/// A task that is pending after rescheduling was pending before, or is a listed task that timed
/// out.
proof fn lemma_origin(
    keys: Seq<KeyModel>,
    before: Map<KeyModel, Value>,
    after: Map<KeyModel, Value>,
    now: u64,
    limit: u64,
    done: Seq<bool>,
    pending: PendingModel,
)
    requires
        store::is_listing(keys, before, task::running_scope()),
        done.len() == select::timed_out(keys, limit).len(),
        after == queue::rescheduled(before, select::timed_out(keys, limit), now, done),
        pending.valid(),
        after.contains_key(pending.key()),
    ensures
        before.contains_key(pending.key()) || (pending.schedule_timestamp == now && exists|
            running: RunningModel,
        |
            {
                &&& running.valid() && running.claim_timestamp <= limit
                &&& running.task_name.name == pending.name
                &&& #[trigger] before.contains_key(running.key())
            }),
{
    let tasks = select::timed_out(keys, limit);
    lemma_scopes_differ();
    lemma_timed_out_listed(keys, before, limit);
    lemma_rescheduled(before, tasks, now, done);
    if !before.contains_key(pending.key()) {
        assert(exists|n: int|
            0 <= n < tasks.len() && before.contains_key((#[trigger] tasks[n]).key())
                && queue::pending_again(tasks[n], now).key() == pending.key()) by {
            if forall|n: int|
                0 <= n < tasks.len() && before.contains_key((#[trigger] tasks[n]).key())
                    ==> queue::pending_again(tasks[n], now).key() != pending.key() {
                assert(same_at(before, after, pending.key()));
            }
        }
        let n = choose|n: int|
            0 <= n < tasks.len() && before.contains_key((#[trigger] tasks[n]).key())
                && queue::pending_again(tasks[n], now).key() == pending.key();
        law_keys_tell_tasks_apart(
            StateModel::Pending(queue::pending_again(tasks[n], now)),
            StateModel::Pending(pending),
        );
        task::lemma_running_round_trip(tasks[n]);
    }
}

/// A task that was claimed and timed out is pending again under its name, and a look for the name
/// finds a scheduled time.
pub proof fn law_claimed_task_is_rescheduled(
    before: Map<KeyModel, Value>,
    between: Map<KeyModel, Value>,
    after: Map<KeyModel, Value>,
    claim_now: u64,
    now: u64,
    limit: u64,
    claim_made: Seq<Answered>,
    made: Seq<Answered>,
    claimed: Task,
    result: Result<(), Error>,
    refusals: Set<Error>,
    lookup_made: Seq<Answered>,
    found: Option<u64>,
)
    requires
        queue::claim_outcome(
            before,
            between,
            claim_now,
            Set::empty(),
            claim_made,
            Ok(Some(claimed)),
        ),
        claim_now <= limit,
        queue::reschedule_outcome(between, after, now, limit, Set::empty(), made, result),
        queue::lookup_outcome(after, claimed_from(claimed).name, refusals, lookup_made, Ok(found)),
    ensures
        result is Ok,
        !after.contains_key(claimed.state@.key()),
        after.contains_key(
            (PendingModel { name: claimed_from(claimed).name, schedule_timestamp: now }).key(),
        ),
        found is Some,
{
    law_claim_takes_the_earliest(before, between, claim_now, Set::empty(), claim_made, claimed);
    let running = claimed.state@->Running_0;
    law_reschedule_makes_pending(between, after, now, limit, made, result, running);
    let pending = queue::pending_again(running, now);
    let (keys, first) = lemma_lookup_listing(
        after,
        pending.name,
        refusals,
        lookup_made,
        found,
    );
    lemma_first_named(keys, after, pending.name, first);
    assert(after.contains_key(pending.key()));
}

/// A finished task that is read from a name has a segment for its own name.
proof fn lemma_finished_of_is_valid(name: Seq<char>)
    ensures
        task::finished_of(name) matches Ok(task) ==> task.valid(),
{
}

/// A running task that is read from a name has a segment for its own name.
proof fn lemma_running_of_is_valid(name: Seq<char>)
    ensures
        task::running_of(name) matches Ok(task) ==> task.valid(),
{
}

} // verus!
