//! How numbers, segments, keys and tasks are written and read, and which of the listed keys count.
//!
//! The laws relate calls: what a text is read as follows from what its parts are read as, and what
//! is written is what is read back.

use vstd::prelude::*;

use crate::error::{Error, ParseSegmentError};
use crate::key;
use crate::key::Key;
use crate::segment::{Segment, SegmentBuf};
use crate::select;
use crate::store;
use crate::task;
use crate::task::{
    FinishedTask, PendingModel, PendingTask, RunningTask, StateModel, Task, TaskState,
};
use crate::text;

verus! {

/// A text is split at its first separator, and not at all where it has none.
pub proof fn law_split<'a>(text: &'a str, sep: char, parts: Option<(&'a str, &'a str)>)
    requires
        call_ensures(text::split_once, (text, sep), parts),
    ensures
        match parts {
            Some((before, after)) => {
                &&& text@ == before@.push(sep) + after@
                &&& !before@.contains(sep)
            },
            None => !text@.contains(sep),
        },
{
    text@.index_of_first_ensures(sep);
    if let Some((before, after)) = parts {
        assert(text@ =~= before@.push(sep) + after@);
    }
}

/// A single character is read as a number where it is a digit. The empty text is no number.
pub proof fn law_short_numbers(text: &str, result: Option<u64>)
    requires
        call_ensures(text::parse_number, (text,), result),
        text@.len() <= 1,
    ensures
        result == (if text@.len() == 1 && '0' <= text@[0] && text@[0] <= '9' {
            Some((text@[0] as int - '0' as int) as u64)
        } else {
            None::<u64>
        }),
{
    let digits = text::unsigned_digits(text@);
    if text@.len() == 1 && text@[0] != '+' {
        assert(digits.drop_last() =~= Seq::<char>::empty());
        assert(text::digits_value(digits.drop_last()) == 0);
        assert(text::is_digit(digits[0]) == ('0' <= text@[0] && text@[0] <= '9'));
    }
}

/// One more digit makes a number ten times as large, plus the digit, as far as there are such
/// numbers. A plus sign may stand before the first digit. Nothing else can be added to a number,
/// and nothing that is added to another text makes it a number.
pub proof fn law_longer_numbers(
    text: &str,
    longer: &str,
    c: char,
    result: Option<u64>,
    longer_result: Option<u64>,
)
    requires
        call_ensures(text::parse_number, (text,), result),
        call_ensures(text::parse_number, (longer,), longer_result),
        text@.len() > 0,
        longer@ == text@.push(c),
    ensures
        ({
            let digit = c as int - '0' as int;
            longer_result == (if '0' <= c && c <= '9' {
                match result {
                    Some(n) => if n * 10 + digit <= u64::MAX {
                        Some((n * 10 + digit) as u64)
                    } else {
                        None
                    },
                    None => if text@ == seq!['+'] {
                        Some(digit as u64)
                    } else {
                        None
                    },
                }
            } else {
                None
            })
        }),
{
    let digits = text::unsigned_digits(text@);
    let more = text::unsigned_digits(longer@);
    assert(longer@[0] == text@[0]);
    assert(more =~= digits.push(c));
    assert(more.drop_last() =~= digits);
    assert(text::is_digit(c) == ('0' <= c && c <= '9'));
    assert(more[digits.len() as int] == c);
    if text::all_digits(more) {
        assert forall|i: int| 0 <= i < digits.len() implies text::is_digit(
            #[trigger] digits[i],
        ) by {
            assert(more[i] == digits[i]);
        }
    }
    if text::all_digits(digits) && text::is_digit(c) {
        assert forall|i: int| 0 <= i < more.len() implies text::is_digit(#[trigger] more[i]) by {
            if i < digits.len() {
                assert(more[i] == digits[i]);
            }
        }
    }
    if digits.len() == 0 {
        assert(text::digits_value(digits) == 0);
        assert(text@ =~= seq!['+']);
    } else if text@ == seq!['+'] {
        assert(digits.len() == 0);
    }
}

/// A number is written so that it is read back, without a sign and without needless zeros.
pub proof fn law_numbers_are_read_back(n: u64, text: String, read: &str, result: Option<u64>)
    requires
        call_ensures(text::format_number, (n,), text),
        read@ == text@,
        call_ensures(text::parse_number, (read,), result),
    ensures
        result == Some(n),
        text@.len() > 0,
        text@[0] != '+',
        text@[0] == '0' ==> text@.len() == 1,
{
    text::lemma_number_of_decimal(n);
    text::lemma_decimal(n as nat);
    assert(text::is_digit(text@[0]));
    lemma_no_leading_zero(n as nat);
}

/// The decimal form of a number other than zero starts with another digit.
proof fn lemma_no_leading_zero(n: nat)
    ensures
        text::decimal(n).len() > 0,
        n > 0 ==> text::decimal(n)[0] != '0',
        n < 10 ==> text::decimal(n).len() == 1,
    decreases n,
{
    if n >= 10 {
        lemma_no_leading_zero(n / 10);
        assert(text::decimal(n)[0] == text::decimal(n / 10)[0]);
    }
}

/// A segment is a text that is not empty, has no blank at either end and no slash in it. What is
/// read as a segment is the text itself.
pub proof fn law_segments<'a>(text: &'a str, result: Result<Segment<'a>, ParseSegmentError>)
    requires
        call_ensures(Segment::parse, (text,), result),
    ensures
        ({
            let blank = |c: char| c == ' ' || c == '\t' || c == '\n';
            match result {
                Ok(segment) => {
                    &&& segment@ == text@
                    &&& text@.len() > 0
                    &&& !blank(text@[0]) && !blank(text@[text@.len() - 1])
                    &&& !text@.contains('/')
                },
                Err(ParseSegmentError::Empty) => text@.len() == 0,
                Err(ParseSegmentError::SurroundingWhitespace) => {
                    &&& text@.len() > 0
                    &&& blank(text@[0]) || blank(text@[text@.len() - 1])
                },
                Err(ParseSegmentError::ContainsSeparator) => {
                    &&& text@.len() > 0
                    &&& !blank(text@[0]) && !blank(text@[text@.len() - 1])
                    &&& text@.contains('/')
                },
            }
        }),
{
}

/// A text without a slash is read as a key if it is a segment: as the key of that name, in the
/// global scope.
pub proof fn law_plain_keys<'a>(
    text: &'a str,
    segment: Result<Segment<'a>, ParseSegmentError>,
    result: Result<Key, ParseSegmentError>,
)
    requires
        call_ensures(Segment::parse, (text,), segment),
        call_ensures(Key::parse, (text,), result),
        !text@.contains('/'),
    ensures
        match (segment, result) {
            (Ok(_), Ok(key)) => key@.name == text@ && key@.scope.len() == 0,
            (Err(expected), Err(error)) => error == expected,
            _ => false,
        },
{
    key::lemma_key_of_segment(text@);
}

/// A text with a slash is read as a key if what stands before the first slash is a segment, and
/// what stands after it a key: as that key, with the segment around its scope.
pub proof fn law_scoped_keys<'a>(
    text: &'a str,
    first: &'a str,
    rest: &'a str,
    outer: Result<Segment<'a>, ParseSegmentError>,
    inner: Result<Key, ParseSegmentError>,
    result: Result<Key, ParseSegmentError>,
)
    requires
        call_ensures(Segment::parse, (first,), outer),
        call_ensures(Key::parse, (rest,), inner),
        call_ensures(Key::parse, (text,), result),
        text@ == first@.push('/') + rest@,
        !first@.contains('/'),
    ensures
        match (outer, inner, result) {
            (Ok(_), Ok(inner), Ok(key)) => {
                &&& key@.name == inner@.name
                &&& key@.scope == seq![first@] + inner@.scope
            },
            (Ok(_), Err(expected), Err(error)) => error == expected,
            (Err(expected), _, Err(error)) => error == expected,
            _ => false,
        },
{
    text::lemma_split_first_joined(first@, '/', rest@);
}

/// A task is stored in the scope of its state, under its timestamps and its name with a dash after
/// each timestamp: the latest timestamp first.
pub proof fn law_task_keys(
    state: TaskState,
    key: Key,
    latest: u64,
    latest_text: String,
    scheduled: u64,
    scheduled_text: String,
)
    requires
        call_ensures(<Key as From<TaskState>>::from, (state,), key),
        call_ensures(text::format_number, (latest,), latest_text),
        call_ensures(text::format_number, (scheduled,), scheduled_text),
        match state {
            TaskState::Pending(task) => scheduled == task.schedule_timestamp,
            TaskState::Running(task) => {
                &&& latest == task.claim_timestamp
                &&& scheduled == task.task_name.schedule_timestamp
            },
            TaskState::Finished(task) => {
                &&& latest == task.finish_timestamp
                &&& scheduled == task.name.schedule_timestamp
            },
        },
    ensures
        state@.key() == key@,
        match state {
            TaskState::Pending(task) => {
                &&& key@.scope == seq!["pending"@]
                &&& key@.name == scheduled_text@.push('-') + task.name@
            },
            TaskState::Running(task) => {
                &&& key@.scope == seq!["running"@]
                &&& key@.name == latest_text@.push('-') + (scheduled_text@.push('-')
                    + task.task_name.name@)
            },
            TaskState::Finished(task) => {
                &&& key@.scope == seq!["finished"@]
                &&& key@.name == latest_text@.push('-') + (scheduled_text@.push('-')
                    + task.name.name@)
            },
        },
{
}

/// A key is read as a pending task if its name is a number, a dash and a segment: as the task of
/// that name, scheduled for that time. The segment is looked at before the number.
pub proof fn law_read_pending<'a>(
    key: Key,
    number: &'a str,
    rest: &'a str,
    timestamp: Option<u64>,
    name: Result<Segment<'a>, ParseSegmentError>,
    result: Result<PendingTask, Error>,
)
    requires
        call_ensures(<PendingTask as TryFrom<Key>>::try_from, (key,), result),
        call_ensures(text::parse_number, (number,), timestamp),
        call_ensures(Segment::parse, (rest,), name),
    ensures
        !key@.name.contains('-') ==> result == Err::<PendingTask, Error>(Error::InvalidKey),
        key@.name == number@.push('-') + rest@ && !number@.contains('-') ==> match (
            name,
            timestamp,
            result,
        ) {
            (Ok(_), Some(timestamp), Ok(task)) => {
                &&& task.name@ == rest@
                &&& task.schedule_timestamp == timestamp
            },
            (Ok(_), None, Err(error)) => error == Error::InvalidKey,
            (Err(expected), _, Err(error)) => error == Error::Segment(expected),
            _ => false,
        },
{
    key@.name.index_of_first_ensures('-');
    if !number@.contains('-') {
        text::lemma_split_first_joined(number@, '-', rest@);
    }
}

/// A key is read as a running or finished task if its name is a number, a dash and what is read as
/// a pending task in turn: as that task, claimed or finished at that time. What stands behind the
/// dash is looked at before the number.
pub proof fn law_read_stamped<'a>(
    key: Key,
    number: &'a str,
    rest: &'a str,
    timestamp: Option<u64>,
    inner: Result<Key, ParseSegmentError>,
    pending: Result<PendingTask, Error>,
    running: Result<RunningTask, Error>,
    finished: Result<FinishedTask, Error>,
)
    requires
        call_ensures(<RunningTask as TryFrom<Key>>::try_from, (key,), running),
        call_ensures(<FinishedTask as TryFrom<Key>>::try_from, (key,), finished),
        call_ensures(text::parse_number, (number,), timestamp),
        call_ensures(Key::parse, (rest,), inner),
        inner matches Ok(inner) ==> call_ensures(
            <PendingTask as TryFrom<Key>>::try_from,
            (inner,),
            pending,
        ),
    ensures
        !key@.name.contains('-') ==> running == Err::<RunningTask, Error>(Error::InvalidKey)
            && finished == Err::<FinishedTask, Error>(Error::InvalidKey),
        key@.name == number@.push('-') + rest@ && !number@.contains('-') ==> match (
            inner,
            pending,
            timestamp,
        ) {
            (Ok(_), Ok(task), Some(timestamp)) => {
                &&& running is Ok && finished is Ok
                &&& running->Ok_0.task_name@ == task@
                &&& running->Ok_0.claim_timestamp == timestamp
                &&& finished->Ok_0.name@ == task@
                &&& finished->Ok_0.finish_timestamp == timestamp
            },
            (Ok(_), Ok(_), None) => {
                &&& running == Err::<RunningTask, Error>(Error::InvalidKey)
                &&& finished == Err::<FinishedTask, Error>(Error::InvalidKey)
            },
            (Ok(_), Err(error), _) => {
                &&& running == Err::<RunningTask, Error>(error)
                &&& finished == Err::<FinishedTask, Error>(error)
            },
            (Err(error), _, _) => {
                &&& running == Err::<RunningTask, Error>(Error::Segment(error))
                &&& finished == Err::<FinishedTask, Error>(Error::Segment(error))
            },
        },
{
    key@.name.index_of_first_ensures('-');
    if !number@.contains('-') {
        text::lemma_split_first_joined(number@, '-', rest@);
    }
}

/// A task is read back from the key under which it is stored.
pub proof fn law_tasks_are_read_back(
    state: TaskState,
    key: Key,
    pending: Result<PendingTask, Error>,
    running: Result<RunningTask, Error>,
    finished: Result<FinishedTask, Error>,
)
    requires
        call_ensures(<Key as From<TaskState>>::from, (state,), key),
        call_ensures(<PendingTask as TryFrom<Key>>::try_from, (key,), pending),
        call_ensures(<RunningTask as TryFrom<Key>>::try_from, (key,), running),
        call_ensures(<FinishedTask as TryFrom<Key>>::try_from, (key,), finished),
    ensures
        match state {
            TaskState::Pending(task) => {
                &&& pending is Ok
                &&& pending->Ok_0.name@ == task.name@
                &&& pending->Ok_0.schedule_timestamp == task.schedule_timestamp
            },
            TaskState::Running(task) => {
                &&& running is Ok
                &&& running->Ok_0.task_name.name@ == task.task_name.name@
                &&& running->Ok_0.task_name.schedule_timestamp
                    == task.task_name.schedule_timestamp
                &&& running->Ok_0.claim_timestamp == task.claim_timestamp
            },
            TaskState::Finished(task) => {
                &&& finished is Ok
                &&& finished->Ok_0.name.name@ == task.name.name@
                &&& finished->Ok_0.name.schedule_timestamp == task.name.schedule_timestamp
                &&& finished->Ok_0.finish_timestamp == task.finish_timestamp
            },
        },
{
    match state@ {
        StateModel::Pending(task) => {
            task::lemma_pending_round_trip(task);
        },
        StateModel::Running(task) => {
            task::lemma_running_round_trip(task);
        },
        StateModel::Finished(task) => {
            task::lemma_finished_round_trip(task);
        },
    }
}

/// A task goes by the name of its state.
pub proof fn law_task_names(task: Task, segment: Segment<'static>)
    requires
        call_ensures(Task::name, (&task,), segment),
    ensures
        segment@ == match task.state {
            TaskState::Pending(_) => "pending"@,
            TaskState::Running(_) => "running"@,
            TaskState::Finished(_) => "finished"@,
        },
{
}

/// The first of the listed keys that is read as a pending task of the name is found, and an error
/// in place of a list is handed on.
pub proof fn law_find_pending(
    listed: Result<Vec<Key>, Error>,
    name: SegmentBuf,
    result: Result<Option<PendingTask>, Error>,
)
    requires
        call_ensures(select::find_pending, (listed, &name), result),
    ensures
        match (listed, result) {
            (Ok(keys), Ok(Some(found))) => exists|i: int|
                {
                    &&& 0 <= i < keys@.len()
                    &&& task::pending_of((#[trigger] keys@[i])@.name) == Ok::<PendingModel, Error>(
                        found@,
                    )
                    &&& found.name@ == name@
                    &&& forall|j: int|
                        0 <= j < i ==> (task::pending_of((#[trigger] keys@[j])@.name) matches Ok(
                            other,
                        ) ==> other.name != name@)
                },
            (Ok(keys), Ok(None)) => forall|j: int|
                0 <= j < keys@.len() ==> (task::pending_of((#[trigger] keys@[j])@.name) matches Ok(
                    other,
                ) ==> other.name != name@),
            (Err(expected), Err(error)) => error == expected,
            _ => false,
        },
{
    if let Ok(keys) = listed {
        let all = store::models(keys@);
        let found = result->Ok_0;
        assert(select::is_first_named(all, name@, select::pending_model(found)));
        if let Some(task) = found {
            let i = choose|i: int|
                {
                    &&& 0 <= i < all.len()
                    &&& #[trigger] select::named(all[i], name@) == Some(task@)
                    &&& forall|j: int|
                        0 <= j < i ==> #[trigger] select::named(all[j], name@) is None
                };
            assert(keys@[i]@ == all[i]);
            assert forall|j: int| 0 <= j < i implies (task::pending_of(
                (#[trigger] keys@[j])@.name,
            ) matches Ok(other) ==> other.name != name@) by {
                assert(select::named(all[j], name@) is None);
            }
        } else {
            assert forall|j: int| 0 <= j < keys@.len() implies (task::pending_of(
                (#[trigger] keys@[j])@.name,
            ) matches Ok(other) ==> other.name != name@) by {
                assert(select::named(all[j], name@) is None);
            }
        }
    }
}

/// The next task is one that is due and read from a listed key, such that no listed task is
/// scheduled before it and none that is listed before it for the same time. There is none only
/// where no listed task is due. An error in place of a list is handed on.
pub proof fn law_next_pending(
    listed: Result<Vec<Key>, Error>,
    now: u64,
    result: Result<Option<PendingTask>, Error>,
)
    requires
        call_ensures(select::next_pending, (listed, now), result),
    ensures
        match (listed, result) {
            (Ok(keys), Ok(Some(found))) => {
                &&& found.schedule_timestamp <= now
                &&& exists|i: int|
                    {
                        &&& 0 <= i < keys@.len()
                        &&& task::pending_of((#[trigger] keys@[i])@.name) == Ok::<
                            PendingModel,
                            Error,
                        >(found@)
                        &&& forall|j: int|
                            0 <= j < keys@.len() ==> (task::pending_of(
                                (#[trigger] keys@[j])@.name,
                            ) matches Ok(other) ==> found.schedule_timestamp
                                <= other.schedule_timestamp && (j < i ==> found.schedule_timestamp
                                < other.schedule_timestamp))
                    }
            },
            (Ok(keys), Ok(None)) => forall|j: int|
                0 <= j < keys@.len() ==> (task::pending_of((#[trigger] keys@[j])@.name) matches Ok(
                    other,
                ) ==> now < other.schedule_timestamp),
            (Err(expected), Err(error)) => error == expected,
            _ => false,
        },
{
    if let Ok(keys) = listed {
        let all = store::models(keys@);
        let found = result->Ok_0;
        assert(select::is_next(all, now, select::pending_model(found)));
        if let Some(task) = found {
            let i = choose|i: int|
                {
                    &&& 0 <= i < all.len()
                    &&& #[trigger] select::due(all[i], now) == Some(task@)
                    &&& forall|j: int|
                        0 <= j < all.len() ==> (#[trigger] select::due(all[j], now) matches Some(
                            other,
                        ) ==> task.schedule_timestamp <= other.schedule_timestamp && (j < i
                            ==> task.schedule_timestamp < other.schedule_timestamp))
                };
            assert(keys@[i]@ == all[i]);
            assert forall|j: int| 0 <= j < keys@.len() implies (task::pending_of(
                (#[trigger] keys@[j])@.name,
            ) matches Ok(other) ==> task.schedule_timestamp <= other.schedule_timestamp && (j < i
                ==> task.schedule_timestamp < other.schedule_timestamp)) by {
                let _ = select::due(all[j], now);
            }
        } else {
            assert forall|j: int| 0 <= j < keys@.len() implies (task::pending_of(
                (#[trigger] keys@[j])@.name,
            ) matches Ok(other) ==> now < other.schedule_timestamp) by {
                assert(select::due(all[j], now) is None);
            }
        }
    }
}

/// One more listed key adds one timed-out task at the end, where it is read as a running task that
/// was claimed at the limit or earlier, and none otherwise. No key gives no task, and an error in
/// place of a list is handed on.
pub proof fn law_timed_out_tasks(
    keys: Vec<Key>,
    more: Vec<Key>,
    limit: u64,
    result: Result<Vec<RunningTask>, Error>,
    more_result: Result<Vec<RunningTask>, Error>,
    error: Error,
    failed: Result<Vec<RunningTask>, Error>,
)
    requires
        call_ensures(select::timed_out_tasks, (Ok(keys), limit), result),
        call_ensures(select::timed_out_tasks, (Ok(more), limit), more_result),
        call_ensures(select::timed_out_tasks, (Err(error), limit), failed),
        more@.len() > 0,
        keys@ == more@.drop_last(),
    ensures
        result is Ok && more_result is Ok,
        failed == Err::<Vec<RunningTask>, Error>(error),
        keys@.len() == 0 ==> result->Ok_0@.len() == 0,
        ({
            let tasks = result->Ok_0@.map_values(|task: RunningTask| task@);
            more_result->Ok_0@.map_values(|task: RunningTask| task@) == match task::running_of(
                more@.last()@.name,
            ) {
                Ok(task) => if task.claim_timestamp <= limit {
                    tasks.push(task)
                } else {
                    tasks
                },
                Err(_) => tasks,
            }
        }),
{
    assert(store::models(more@).drop_last() =~= store::models(keys@));
    assert(select::running_models(result->Ok_0@) =~= result->Ok_0@.map_values(
        |task: RunningTask| task@,
    ));
    assert(select::running_models(more_result->Ok_0@) =~= more_result->Ok_0@.map_values(
        |task: RunningTask| task@,
    ));
    if keys@.len() == 0 {
        assert(select::running_models(result->Ok_0@).len() == 0);
    }
}

/// One more listed key adds one expired task at the end, where it is read as a task that finished
/// at the limit or earlier, and none otherwise. No key gives no task, and an error in place of a
/// list is handed on.
pub proof fn law_expired_tasks(
    keys: Vec<Key>,
    more: Vec<Key>,
    limit: u64,
    result: Result<Vec<FinishedTask>, Error>,
    more_result: Result<Vec<FinishedTask>, Error>,
    error: Error,
    failed: Result<Vec<FinishedTask>, Error>,
)
    requires
        call_ensures(select::expired_tasks, (Ok(keys), limit), result),
        call_ensures(select::expired_tasks, (Ok(more), limit), more_result),
        call_ensures(select::expired_tasks, (Err(error), limit), failed),
        more@.len() > 0,
        keys@ == more@.drop_last(),
    ensures
        result is Ok && more_result is Ok,
        failed == Err::<Vec<FinishedTask>, Error>(error),
        keys@.len() == 0 ==> result->Ok_0@.len() == 0,
        ({
            let tasks = result->Ok_0@.map_values(|task: FinishedTask| task@);
            more_result->Ok_0@.map_values(|task: FinishedTask| task@) == match task::finished_of(
                more@.last()@.name,
            ) {
                Ok(task) => if task.finish_timestamp <= limit {
                    tasks.push(task)
                } else {
                    tasks
                },
                Err(_) => tasks,
            }
        }),
{
    assert(store::models(more@).drop_last() =~= store::models(keys@));
    assert(select::finished_models(result->Ok_0@) =~= result->Ok_0@.map_values(
        |task: FinishedTask| task@,
    ));
    assert(select::finished_models(more_result->Ok_0@) =~= more_result->Ok_0@.map_values(
        |task: FinishedTask| task@,
    ));
    if keys@.len() == 0 {
        assert(select::finished_models(result->Ok_0@).len() == 0);
    }
}

} // verus!
