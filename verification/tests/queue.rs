use std::time::Duration;

use kvx_queue::error::Error;
use kvx_queue::key::{Key, Scope};
use kvx_queue::memory::Memory;
use kvx_queue::queue::{claim_step, Queue};
use kvx_queue::segment::{Segment, SegmentBuf};
use kvx_queue::store::{Answered, KeyValueStore, KeyValueStoreBackend};
use kvx_queue::task::{FinishedTask, PendingTask, RunningTask, Task, TaskState};
use serde_json::Value;

fn queue_store() -> KeyValueStore<Memory> {
    KeyValueStore::new(Memory::new())
}

fn segment(text: &str) -> SegmentBuf {
    Segment::parse(text).unwrap().to_buf()
}

fn key(text: &str) -> Key {
    Key::parse(text).unwrap()
}

fn names<B: KeyValueStoreBackend>(queue: &mut KeyValueStore<B>, scope: Segment<'_>) -> Vec<String> {
    let keys = queue.inner.list_keys(&Scope::from_segment(&scope)).unwrap();
    let mut names: Vec<String> = keys
        .iter()
        .map(|key| key.name().as_str().to_string())
        .collect();
    names.sort();
    names
}

fn pending(queue: &mut KeyValueStore<Memory>) -> Vec<String> {
    names(queue, PendingTask::segment())
}

fn running(queue: &mut KeyValueStore<Memory>) -> Vec<String> {
    names(queue, RunningTask::segment())
}

fn finished(queue: &mut KeyValueStore<Memory>) -> Vec<String> {
    names(queue, FinishedTask::segment())
}

fn claimed_name(task: &Task) -> &str {
    match &task.state {
        TaskState::Running(running) => running.task_name.name.as_str(),
        _ => panic!("a claimed task is running"),
    }
}

#[test]
fn test_reschedule_long_running() {
    let mut queue = queue_store();

    let name = "job";
    let segment = Segment::parse(name).unwrap();
    let value = Value::from("value");

    queue.schedule_task(segment.to_buf(), value, None).unwrap();

    assert_eq!(queue.pending_tasks_remaining().unwrap(), 1);

    let job = queue.claim_scheduled_pending_task().unwrap();

    assert!(job.is_some());
    assert_eq!(queue.pending_tasks_remaining().unwrap(), 0);

    let job = queue.claim_scheduled_pending_task().unwrap();

    assert!(job.is_none());

    queue
        .reschedule_long_running_tasks(Some(&Duration::from_secs(0)))
        .unwrap();

    let existing = queue.pending_task_scheduled(segment.to_buf()).unwrap();

    assert!(existing.is_some());
    assert_eq!(queue.pending_tasks_remaining().unwrap(), 1);

    let job = queue.claim_scheduled_pending_task().unwrap();

    assert!(job.is_some());
    assert_eq!(queue.pending_tasks_remaining().unwrap(), 0);
}

#[test]
fn queue_workers_take_turns() {
    let mut queue = queue_store();
    for i in 1..=10 {
        let name = format!("job-{i}");
        queue
            .schedule_task(segment(&name), Value::from("value"), None)
            .unwrap();
    }
    assert_eq!(pending(&mut queue).len(), 10);

    let mut in_work: Vec<Task> = Vec::new();
    while queue.pending_tasks_remaining().unwrap() > 0 || !in_work.is_empty() {
        for _ in 0..3 {
            if let Some(task) = queue.claim_scheduled_pending_task().unwrap() {
                in_work.push(task);
            }
        }
        if let Some(task) = in_work.pop() {
            assert_eq!(task.value, Value::from("value"));
            queue.finish_running_task(task).unwrap();
        }
    }

    assert_eq!(pending(&mut queue).len(), 0);
    assert_eq!(running(&mut queue).len(), 0);
    assert_eq!(finished(&mut queue).len(), 10);
}

#[test]
fn a_scheduled_task_is_stored_under_its_key() {
    let mut queue = queue_store();
    queue
        .schedule_task(segment("job"), Value::from(1), Some(10))
        .unwrap();
    assert_eq!(pending(&mut queue), ["10-job"]);
    assert_eq!(
        queue.inner.get(&key("pending/10-job")),
        Ok(Some(Value::from(1)))
    );
    assert_eq!(queue.pending_task_scheduled(segment("job")), Ok(Some(10)));
    assert_eq!(queue.pending_task_scheduled(segment("bob")), Ok(None));
}

#[test]
fn a_task_without_a_time_is_scheduled_for_now() {
    let mut queue = queue_store();
    let before = std::time::SystemTime::UNIX_EPOCH.elapsed().unwrap().as_secs();
    queue
        .schedule_task(segment("job"), Value::Null, None)
        .unwrap();
    let after = std::time::SystemTime::UNIX_EPOCH.elapsed().unwrap().as_secs();
    let time = queue.pending_task_scheduled(segment("job")).unwrap().unwrap();
    assert!(before <= time && time <= after);
}

#[test]
fn scheduling_replaces_the_task_of_the_same_name() {
    let mut queue = queue_store();
    queue.schedule_at(segment("job"), Value::from("old"), 10).unwrap();
    queue.schedule_at(segment("other"), Value::from("kept"), 11).unwrap();
    queue.schedule_at(segment("job"), Value::from("new"), 20).unwrap();
    assert_eq!(pending(&mut queue), ["11-other", "20-job"]);
    assert_eq!(queue.pending_tasks_remaining(), Ok(2));
    assert_eq!(queue.pending_task_scheduled(segment("job")), Ok(Some(20)));
    assert_eq!(
        queue.inner.get(&key("pending/20-job")),
        Ok(Some(Value::from("new")))
    );
    assert_eq!(
        queue.inner.get(&key("pending/11-other")),
        Ok(Some(Value::from("kept")))
    );

    // Also for the same time, and for an earlier one.
    queue.schedule_at(segment("job"), Value::from("newer"), 20).unwrap();
    assert_eq!(
        queue.inner.get(&key("pending/20-job")),
        Ok(Some(Value::from("newer")))
    );
    queue.schedule_at(segment("job"), Value::from("newest"), 5).unwrap();
    assert_eq!(pending(&mut queue), ["11-other", "5-job"]);
}

#[test]
fn scheduling_leaves_running_and_finished_tasks_alone() {
    let mut queue = queue_store();
    queue.schedule_at(segment("job"), Value::from(1), 10).unwrap();
    let task = queue.claim_at(10).unwrap().unwrap();
    queue.schedule_at(segment("job"), Value::from(2), 12).unwrap();
    assert_eq!(running(&mut queue), ["10-10-job"]);
    assert_eq!(pending(&mut queue), ["12-job"]);
    queue.finish_at(task, 13).unwrap();
    queue.schedule_at(segment("job"), Value::from(3), 14).unwrap();
    assert_eq!(finished(&mut queue), ["13-10-job"]);
    assert_eq!(pending(&mut queue), ["14-job"]);
}

#[test]
fn scheduling_fails_where_the_existing_task_has_another_key() {
    let mut queue = queue_store();
    queue.inner.store(&key("pending/+5-job"), Value::from(1)).unwrap();
    assert_eq!(
        queue.schedule_at(segment("job"), Value::from(2), 9),
        Err(Error::UnknownKey)
    );
    assert_eq!(pending(&mut queue), ["+5-job"]);
}

#[test]
fn keys_that_denote_no_task_are_counted_and_passed_over() {
    let mut queue = queue_store();
    queue.inner.store(&key("pending/nothing"), Value::Null).unwrap();
    assert_eq!(queue.pending_tasks_remaining(), Ok(1));
    assert!(queue.claim_at(u64::MAX).unwrap().is_none());
    queue.schedule_at(segment("job"), Value::from(2), 9).unwrap();
    assert_eq!(queue.pending_tasks_remaining(), Ok(2));
    assert!(queue.claim_at(9).unwrap().is_some());

    // A task whose value is not found is not claimed.
    queue.inner.store(&key("pending/+1-job"), Value::Null).unwrap();
    assert!(queue.claim_at(9).unwrap().is_none());
}

#[test]
fn the_earliest_due_task_is_claimed() {
    let mut queue = queue_store();
    queue.schedule_at(segment("late"), Value::from("l"), 30).unwrap();
    queue.schedule_at(segment("mid"), Value::from("m"), 20).unwrap();
    queue.schedule_at(segment("early"), Value::from("e"), 10).unwrap();

    assert!(queue.claim_at(9).unwrap().is_none());
    assert_eq!(queue.pending_tasks_remaining(), Ok(3));

    let task = queue.claim_at(25).unwrap().unwrap();
    assert_eq!(claimed_name(&task), "early");
    assert_eq!(task.value, Value::from("e"));
    assert_eq!(task.name().as_str(), "running");
    assert_eq!(running(&mut queue), ["25-10-early"]);
    assert_eq!(
        queue.inner.get(&key("running/25-10-early")),
        Ok(Some(Value::from("e")))
    );
    assert_eq!(queue.pending_tasks_remaining(), Ok(2));

    let task = queue.claim_at(25).unwrap().unwrap();
    assert_eq!(claimed_name(&task), "mid");
    assert!(queue.claim_at(25).unwrap().is_none());
    assert_eq!(queue.pending_tasks_remaining(), Ok(1));
    assert_eq!(claimed_name(&queue.claim_at(30).unwrap().unwrap()), "late");
    assert!(queue.claim_at(u64::MAX).unwrap().is_none());
    assert_eq!(queue.pending_tasks_remaining(), Ok(0));
}

#[test]
fn a_running_task_is_finished_once() {
    let mut queue = queue_store();
    queue.schedule_at(segment("job"), Value::from(1), 10).unwrap();
    let task = queue.claim_at(11).unwrap().unwrap();
    let again = task.clone();
    assert_eq!(queue.finish_at(task, 12), Ok(()));
    assert_eq!(finished(&mut queue), ["12-10-job"]);
    assert_eq!(running(&mut queue).len(), 0);
    assert_eq!(
        queue.inner.get(&key("finished/12-10-job")),
        Ok(Some(Value::from(1)))
    );
    assert_eq!(queue.finish_at(again, 13), Err(Error::UnknownKey));
    assert_eq!(finished(&mut queue), ["12-10-job"]);
}

#[test]
fn a_task_that_is_not_running_is_not_finished() {
    let mut queue = queue_store();
    queue.schedule_at(segment("job"), Value::from(1), 10).unwrap();
    let name = PendingTask {
        name: segment("job"),
        schedule_timestamp: 10,
    };
    let task = Task {
        state: TaskState::Pending(name.clone()),
        value: Value::from(1),
    };
    assert_eq!(
        queue.finish_running_task(task),
        Err(Error::Other(
            "Cannot finish task pending. It is not running.".to_string()
        ))
    );
    let task = Task {
        state: TaskState::Finished(FinishedTask {
            name,
            finish_timestamp: 11,
        }),
        value: Value::from(1),
    };
    assert_eq!(
        queue.finish_at(task, 12),
        Err(Error::Other(
            "Cannot finish task finished. It is not running.".to_string()
        ))
    );
    assert_eq!(pending(&mut queue), ["10-job"]);
}

#[test]
fn tasks_that_time_out_are_pending_again() {
    let mut queue = queue_store();
    for (name, time) in [("a", 10), ("b", 20), ("c", 30)] {
        queue.schedule_at(segment(name), Value::from(name), time).unwrap();
        assert!(queue.claim_at(time).unwrap().is_some());
    }
    queue.schedule_at(segment("d"), Value::from("d"), 100).unwrap();

    assert_eq!(queue.reschedule_at(50, 41), Ok(()));
    assert_eq!(running(&mut queue).len(), 3);
    assert_eq!(queue.reschedule_at(50, 30), Ok(()));
    assert_eq!(running(&mut queue), ["30-30-c"]);
    assert_eq!(pending(&mut queue), ["100-d", "50-a", "50-b"]);
    assert_eq!(
        queue.inner.get(&key("pending/50-a")),
        Ok(Some(Value::from("a")))
    );
    assert_eq!(queue.pending_task_scheduled(segment("b")), Ok(Some(50)));
}

#[test]
fn timed_out_tasks_of_one_name_become_one() {
    let mut queue = queue_store();
    queue.schedule_at(segment("job"), Value::from(1), 10).unwrap();
    queue.claim_at(10).unwrap();
    queue.schedule_at(segment("job"), Value::from(2), 11).unwrap();
    queue.claim_at(11).unwrap();
    assert_eq!(running(&mut queue).len(), 2);
    assert_eq!(queue.reschedule_at(50, 1), Ok(()));
    assert_eq!(running(&mut queue).len(), 0);
    assert_eq!(pending(&mut queue), ["50-job"]);
}

#[test]
fn a_timed_out_task_may_stand_beside_a_pending_one() {
    let mut queue = queue_store();
    queue.schedule_at(segment("job"), Value::from(1), 10).unwrap();
    queue.claim_at(10).unwrap();
    queue.schedule_at(segment("job"), Value::from(2), 11).unwrap();
    assert_eq!(queue.reschedule_at(50, 1), Ok(()));
    assert_eq!(pending(&mut queue), ["11-job", "50-job"]);
}

#[test]
fn finished_tasks_are_cleaned_up() {
    let mut queue = queue_store();
    for (name, time) in [("a", 10), ("b", 20), ("c", 30)] {
        queue.schedule_at(segment(name), Value::from(name), time).unwrap();
        let task = queue.claim_at(time).unwrap().unwrap();
        queue.finish_at(task, time).unwrap();
    }
    queue.schedule_at(segment("d"), Value::from("d"), 1).unwrap();
    queue.claim_at(1).unwrap();
    queue.schedule_at(segment("e"), Value::from("e"), 1).unwrap();

    assert_eq!(queue.clean_up_at(50, 30), Ok(()));
    assert_eq!(finished(&mut queue), ["30-30-c"]);
    assert_eq!(running(&mut queue), ["1-1-d"]);
    assert_eq!(pending(&mut queue), ["1-e"]);
    assert_eq!(queue.clean_up_at(50, 50), Ok(()));
    assert_eq!(finished(&mut queue), ["30-30-c"]);
}

#[test]
fn timeouts_have_defaults() {
    assert_eq!(<KeyValueStore<Memory> as Queue>::RESCHEDULE_AFTER, 900);
    assert_eq!(<KeyValueStore<Memory> as Queue>::REMOVE_AFTER, 604_800);

    let now = std::time::SystemTime::UNIX_EPOCH.elapsed().unwrap().as_secs();
    let mut queue = queue_store();
    queue.schedule_at(segment("old"), Value::Null, 1).unwrap();
    queue.claim_at(now - 901).unwrap().unwrap();
    queue.schedule_at(segment("new"), Value::Null, 1).unwrap();
    queue.claim_at(now - 600).unwrap().unwrap();
    queue.reschedule_long_running_tasks(None).unwrap();
    assert!(queue.pending_task_scheduled(segment("old")).unwrap().is_some());
    assert!(queue.pending_task_scheduled(segment("new")).unwrap().is_none());

    let mut queue = queue_store();
    for (name, time) in [("old", now - 604_801), ("new", now - 600_000)] {
        queue.schedule_at(segment(name), Value::Null, 1).unwrap();
        let task = queue.claim_at(time).unwrap().unwrap();
        queue.finish_at(task, time).unwrap();
    }
    queue.clean_up_finished_tasks(None).unwrap();
    assert_eq!(finished(&mut queue), [format!("{}-1-new", now - 600_000)]);
    queue
        .clean_up_finished_tasks(Some(&Duration::from_secs(60)))
        .unwrap();
    assert_eq!(finished(&mut queue).len(), 0);
}

#[test]
fn a_timeout_that_reaches_back_before_the_epoch_is_refused() {
    let mut queue = queue_store();
    queue.schedule_at(segment("job"), Value::Null, 0).unwrap();
    queue.claim_at(0).unwrap().unwrap();
    let forever = Duration::from_secs(u64::MAX);
    assert_eq!(
        queue.reschedule_long_running_tasks(Some(&forever)),
        Err(Error::BeforeEpoch)
    );
    assert_eq!(
        queue.clean_up_finished_tasks(Some(&forever)),
        Err(Error::BeforeEpoch)
    );
    assert_eq!(running(&mut queue), ["0-0-job"]);
}

#[test]
fn the_pending_scope_is_that_of_pending_tasks() {
    assert!(
        KeyValueStore::<Memory>::pending_scope() == Scope::from_segment(&PendingTask::segment())
    );
}

/// A backend that answers reads, and writes as well while it is told to.
struct Moody {
    memory: Memory,
    reads: bool,
    writes: bool,
}

fn refusal() -> Error {
    Error::Other("not now".to_string())
}

impl KeyValueStoreBackend for Moody {
    // Only contracts speak of the entries, the refusals and the requests.
    fn entries(&self) -> vstd::map::Map<kvx_queue::key::KeyModel, Value> {
        unreachable!()
    }

    fn refusals(&self) -> vstd::set::Set<Error> {
        unreachable!()
    }

    fn requests(&self) -> vstd::seq::Seq<Answered> {
        unreachable!()
    }

    fn list_keys(&mut self, scope: &Scope) -> Result<Vec<Key>, Error> {
        if self.reads {
            self.memory.list_keys(scope)
        } else {
            Err(refusal())
        }
    }

    fn get(&mut self, key: &Key) -> Result<Option<Value>, Error> {
        if self.reads {
            self.memory.get(key)
        } else {
            Err(refusal())
        }
    }

    fn store(&mut self, key: &Key, value: Value) -> Result<(), Error> {
        if self.writes {
            self.memory.store(key, value)
        } else {
            Err(refusal())
        }
    }

    fn move_value(&mut self, from: &Key, to: &Key) -> Result<(), Error> {
        if self.writes {
            self.memory.move_value(from, to)
        } else {
            Err(refusal())
        }
    }

    fn delete(&mut self, key: &Key) -> Result<(), Error> {
        if self.writes {
            self.memory.delete(key)
        } else {
            Err(refusal())
        }
    }
}

fn moody_store() -> KeyValueStore<Moody> {
    KeyValueStore::new(Moody {
        memory: Memory::new(),
        reads: true,
        writes: true,
    })
}

#[test]
fn errors_of_the_store_are_handed_on() {
    let mut queue = moody_store();
    queue.schedule_at(segment("job"), Value::from(1), 10).unwrap();
    queue.schedule_at(segment("run"), Value::from(2), 5).unwrap();
    let task = queue.claim_at(5).unwrap().unwrap();

    queue.inner.reads = false;
    assert_eq!(queue.pending_tasks_remaining(), Err(refusal()));
    assert_eq!(queue.pending_task_scheduled(segment("job")), Err(refusal()));
    assert_eq!(
        queue.schedule_at(segment("job"), Value::Null, 1),
        Err(refusal())
    );
    assert_eq!(queue.claim_at(10).unwrap_err(), refusal());
    assert_eq!(queue.reschedule_at(10, 0), Err(refusal()));
    assert_eq!(queue.clean_up_at(10, 0), Err(refusal()));

    queue.inner.reads = true;
    queue.inner.writes = false;
    assert_eq!(
        queue.schedule_at(segment("job"), Value::Null, 1),
        Err(refusal())
    );
    assert_eq!(
        queue.schedule_at(segment("new"), Value::Null, 1),
        Err(refusal())
    );
    assert_eq!(queue.claim_at(10).unwrap_err(), refusal());
    assert_eq!(queue.finish_at(task, 10), Err(refusal()));
    assert_eq!(queue.pending_tasks_remaining(), Ok(1));
}

#[test]
fn tasks_that_cannot_be_moved_or_removed_stay() {
    let mut queue = moody_store();
    for name in ["a", "b"] {
        queue.schedule_at(segment(name), Value::from(name), 5).unwrap();
        queue.claim_at(5).unwrap().unwrap();
    }
    queue.schedule_at(segment("c"), Value::from("c"), 5).unwrap();
    let task = queue.claim_at(5).unwrap().unwrap();
    queue.finish_at(task, 6).unwrap();

    queue.inner.writes = false;
    assert_eq!(queue.reschedule_at(10, 0), Ok(()));
    assert_eq!(queue.clean_up_at(10, 0), Ok(()));
    assert_eq!(names(&mut queue, RunningTask::segment()), ["5-5-a", "5-5-b"]);
    assert_eq!(names(&mut queue, FinishedTask::segment()), ["6-5-c"]);

    queue.inner.writes = true;
    assert_eq!(queue.reschedule_at(10, 0), Ok(()));
    assert_eq!(queue.clean_up_at(10, 0), Ok(()));
    assert_eq!(names(&mut queue, PendingTask::segment()), ["10-a", "10-b"]);
    assert_eq!(names(&mut queue, FinishedTask::segment()).len(), 0);
}

/// A backend that refuses to touch one key, and notes what it was asked to move or delete.
struct Picky {
    memory: Memory,
    refused: String,
    reads: bool,
    gets: bool,
    stores: bool,
    asked: Vec<String>,
}

impl Picky {
    fn note(&mut self, key: &Key) -> Result<(), Error> {
        let name = key.name().as_str().to_string();
        self.asked.push(name.clone());
        if name == self.refused {
            Err(refusal())
        } else {
            Ok(())
        }
    }
}

impl KeyValueStoreBackend for Picky {
    fn entries(&self) -> vstd::map::Map<kvx_queue::key::KeyModel, Value> {
        unreachable!()
    }

    fn refusals(&self) -> vstd::set::Set<Error> {
        unreachable!()
    }

    fn requests(&self) -> vstd::seq::Seq<Answered> {
        unreachable!()
    }

    fn list_keys(&mut self, scope: &Scope) -> Result<Vec<Key>, Error> {
        if self.reads {
            self.memory.list_keys(scope)
        } else {
            Err(refusal())
        }
    }

    fn get(&mut self, key: &Key) -> Result<Option<Value>, Error> {
        if self.gets {
            self.memory.get(key)
        } else {
            Err(refusal())
        }
    }

    fn store(&mut self, key: &Key, value: Value) -> Result<(), Error> {
        if self.stores {
            self.memory.store(key, value)
        } else {
            Err(refusal())
        }
    }

    fn move_value(&mut self, from: &Key, to: &Key) -> Result<(), Error> {
        self.note(from)?;
        self.memory.move_value(from, to)
    }

    fn delete(&mut self, key: &Key) -> Result<(), Error> {
        self.note(key)?;
        self.memory.delete(key)
    }
}

fn picky_store(refused: &str) -> KeyValueStore<Picky> {
    let mut memory = Memory::new();
    for name in ["5-1-a", "5-1-b", "5-1-c"] {
        let (_, value) = name.rsplit_once('-').unwrap();
        memory
            .store(&key(&format!("running/{name}")), Value::from(value))
            .unwrap();
        memory
            .store(&key(&format!("finished/{name}")), Value::from(value))
            .unwrap();
    }
    KeyValueStore::new(Picky {
        memory,
        refused: refused.to_string(),
        reads: true,
        gets: true,
        stores: true,
        asked: Vec::new(),
    })
}

#[test]
fn a_refused_move_leaves_one_task_running() {
    for (refused, moved) in [
        ("5-1-a", ["10-b", "10-c"]),
        ("5-1-b", ["10-a", "10-c"]),
        ("5-1-c", ["10-a", "10-b"]),
    ] {
        let mut queue = picky_store(refused);
        assert_eq!(queue.reschedule_at(10, 5), Ok(()));
        queue.inner.asked.sort();
        assert_eq!(queue.inner.asked, ["5-1-a", "5-1-b", "5-1-c"]);
        assert_eq!(names(&mut queue, RunningTask::segment()), [refused]);
        assert_eq!(names(&mut queue, PendingTask::segment()), moved);
        for name in moved {
            let (_, value) = name.split_once('-').unwrap();
            assert_eq!(
                queue.inner.get(&key(&format!("pending/{name}"))),
                Ok(Some(Value::from(value)))
            );
        }
        let (_, value) = refused.rsplit_once('-').unwrap();
        assert_eq!(
            queue.inner.get(&key(&format!("running/{refused}"))),
            Ok(Some(Value::from(value)))
        );
    }
}

#[test]
fn a_refused_delete_leaves_one_finished_task() {
    for refused in ["5-1-a", "5-1-b", "5-1-c"] {
        let mut queue = picky_store(refused);
        assert_eq!(queue.clean_up_at(10, 5), Ok(()));
        queue.inner.asked.sort();
        assert_eq!(queue.inner.asked, ["5-1-a", "5-1-b", "5-1-c"]);
        assert_eq!(names(&mut queue, FinishedTask::segment()), [refused]);
        assert_eq!(names(&mut queue, RunningTask::segment()).len(), 3);
    }
}

#[test]
fn a_refused_listing_asks_for_nothing_more() {
    let mut queue = picky_store("none");
    queue.inner.reads = false;
    assert_eq!(queue.reschedule_at(10, 5), Err(refusal()));
    assert_eq!(queue.clean_up_at(10, 5), Err(refusal()));
    assert!(queue.inner.asked.is_empty());
    queue.inner.reads = true;
    assert_eq!(names(&mut queue, RunningTask::segment()).len(), 3);
    assert_eq!(names(&mut queue, FinishedTask::segment()).len(), 3);
}

#[test]
fn a_task_can_be_cloned() {
    let mut queue = queue_store();
    queue.schedule_at(segment("job"), Value::from("work"), 10).unwrap();
    let task = queue.claim_at(11).unwrap().unwrap();
    let copy = task.clone();
    assert_eq!(claimed_name(&copy), claimed_name(&task));
    assert_eq!(copy.value, Value::from("work"));
    assert_eq!(queue.finish_at(copy, 12), Ok(()));
    assert_eq!(finished(&mut queue), ["12-10-job"]);
}

#[test]
fn claims_give_each_task_once_and_in_order() {
    let mut queue = queue_store();
    let times = [7, 3, 9, 1, 5, 3];
    for (i, time) in times.iter().enumerate() {
        queue
            .schedule_at(segment(&format!("job-{i}")), Value::from(i), *time)
            .unwrap();
    }
    let mut claimed: Vec<(u64, String)> = Vec::new();
    for left in (0..times.len()).rev() {
        let task = queue.claim_at(9).unwrap().unwrap();
        match &task.state {
            TaskState::Running(running) => claimed.push((
                running.task_name.schedule_timestamp,
                running.task_name.name.as_str().to_string(),
            )),
            _ => panic!("a claimed task is running"),
        }
        assert_eq!(queue.pending_tasks_remaining(), Ok(left));
    }
    assert!(queue.claim_at(9).unwrap().is_none());

    let order: Vec<u64> = claimed.iter().map(|(time, _)| *time).collect();
    assert_eq!(order, [1, 3, 3, 5, 7, 9]);
    let mut once: Vec<String> = claimed.into_iter().map(|(_, name)| name).collect();
    once.sort();
    assert_eq!(once, ["job-0", "job-1", "job-2", "job-3", "job-4", "job-5"]);
}

#[test]
fn no_timeout_is_the_default_timeout() {
    let now = std::time::SystemTime::UNIX_EPOCH.elapsed().unwrap().as_secs();
    let timeouts = [None, Some(Duration::from_secs(900))];
    for timeout in timeouts {
        let mut queue = queue_store();
        for (name, time) in [("old", now - 1000), ("new", now - 800)] {
            queue.schedule_at(segment(name), Value::from(name), 1).unwrap();
            queue.claim_at(time).unwrap().unwrap();
        }
        assert_eq!(queue.reschedule_long_running_tasks(timeout.as_ref()), Ok(()));
        assert_eq!(running(&mut queue), [format!("{}-1-new", now - 800)]);
        assert_eq!(queue.pending_tasks_remaining(), Ok(1));
    }
    let timeouts = [None, Some(Duration::from_secs(604_800))];
    for timeout in timeouts {
        let mut queue = queue_store();
        for (name, time) in [("old", now - 605_000), ("new", now - 604_000)] {
            queue.schedule_at(segment(name), Value::from(name), 1).unwrap();
            let task = queue.claim_at(time).unwrap().unwrap();
            queue.finish_at(task, time).unwrap();
        }
        assert_eq!(queue.clean_up_finished_tasks(timeout.as_ref()), Ok(()));
        assert_eq!(finished(&mut queue), [format!("{}-1-new", now - 604_000)]);
    }
}

#[test]
fn a_refused_read_ends_a_claim() {
    let mut queue = picky_store("none");
    queue.schedule_at(segment("job"), Value::from("work"), 7).unwrap();
    queue.inner.gets = false;
    assert_eq!(queue.claim_at(8).unwrap_err(), refusal());
    assert!(queue.inner.asked.is_empty());
    assert_eq!(queue.claim_scheduled_pending_task().unwrap_err(), refusal());
    assert!(queue.inner.asked.is_empty());
    assert_eq!(names(&mut queue, PendingTask::segment()), ["7-job"]);

    queue.inner.gets = true;
    queue.inner.reads = false;
    assert_eq!(queue.claim_at(8).unwrap_err(), refusal());
    assert!(queue.inner.asked.is_empty());

    queue.inner.reads = true;
    queue.inner.refused = "7-job".to_string();
    assert_eq!(queue.claim_at(8).unwrap_err(), refusal());
    assert_eq!(queue.inner.asked, ["7-job"]);
    assert_eq!(names(&mut queue, PendingTask::segment()), ["7-job"]);
}

#[test]
fn a_claim_goes_by_the_answer_to_its_read() {
    let name = PendingTask {
        name: segment("job"),
        schedule_timestamp: 7,
    };
    assert_eq!(
        claim_step(Err(refusal()), name.clone(), 8).unwrap_err(),
        refusal()
    );
    assert!(claim_step(Ok(None), name.clone(), 8).unwrap().is_none());
    let task = claim_step(Ok(Some(Value::from("work"))), name, 8).unwrap().unwrap();
    assert_eq!(task.value, Value::from("work"));
    assert!(Key::from(task.state) == key("running/8-7-job"));
}

#[test]
fn a_failure_to_schedule_leaves_the_task_where_it_was_or_moved() {
    let mut queue = picky_store("none");
    queue.schedule_at(segment("job"), Value::from("old"), 7).unwrap();
    queue.inner.stores = false;

    // Nothing to move: nothing is changed.
    assert_eq!(
        queue.schedule_at(segment("new"), Value::from("v"), 9),
        Err(refusal())
    );
    assert_eq!(names(&mut queue, PendingTask::segment()), ["7-job"]);

    // The move is refused: nothing is changed.
    queue.inner.refused = "7-job".to_string();
    assert_eq!(
        queue.schedule_at(segment("job"), Value::from("new"), 9),
        Err(refusal())
    );
    assert_eq!(names(&mut queue, PendingTask::segment()), ["7-job"]);

    // The store is refused after the move: the task has its new time and its old value.
    queue.inner.refused = "none".to_string();
    assert_eq!(
        queue.schedule_at(segment("job"), Value::from("new"), 9),
        Err(refusal())
    );
    assert_eq!(names(&mut queue, PendingTask::segment()), ["9-job"]);
    assert_eq!(
        queue.inner.get(&key("pending/9-job")),
        Ok(Some(Value::from("old")))
    );
}

#[test]
fn a_second_time_at_the_same_clock_value_changes_nothing() {
    let mut queue = queue_store();
    for (name, time) in [("a", 10), ("b", 20), ("c", 30)] {
        queue.schedule_at(segment(name), Value::from(name), time).unwrap();
        let task = queue.claim_at(time).unwrap().unwrap();
        queue.finish_at(task, time).unwrap();
        queue.schedule_at(segment(name), Value::from(name), time).unwrap();
        queue.claim_at(time).unwrap().unwrap();
    }
    for _ in 0..2 {
        assert_eq!(queue.reschedule_at(50, 30), Ok(()));
        assert_eq!(running(&mut queue), ["30-30-c"]);
        assert_eq!(pending(&mut queue), ["50-a", "50-b"]);
        assert_eq!(queue.clean_up_at(50, 30), Ok(()));
        assert_eq!(finished(&mut queue), ["30-30-c"]);
    }
}

#[test]
fn other_entries_do_not_disturb_pending_tasks() {
    let mut queue = queue_store();
    for text in ["running/odd", "finished/+1-2-x", "running/+5-1-y", "pending/odd"] {
        queue.inner.store(&key(text), Value::Null).unwrap();
    }
    queue.schedule_at(segment("job"), Value::from(1), 7).unwrap();
    assert_eq!(queue.pending_task_scheduled(segment("job")), Ok(Some(7)));
    assert_eq!(queue.pending_task_scheduled(segment("x")), Ok(None));
    assert_eq!(claimed_name(&queue.claim_at(7).unwrap().unwrap()), "job");
    assert!(queue.claim_at(7).unwrap().is_none());
}
