use kvx_queue::error::{Error, ParseSegmentError};
use kvx_queue::key::{Key, Scope};
use kvx_queue::segment::Segment;
use kvx_queue::task::{FinishedTask, PendingTask, RunningTask, Task, TaskState};
use serde_json::Value;

fn pending(name: &str, schedule_timestamp: u64) -> PendingTask {
    PendingTask {
        name: Segment::parse(name).unwrap().to_buf(),
        schedule_timestamp,
    }
}

fn key(text: &str) -> Key {
    Key::parse(text).unwrap()
}

#[test]
fn segments_are_checked() {
    assert_eq!(Segment::parse("job-1").unwrap().as_str(), "job-1");
    assert_eq!(Segment::parse("a b").unwrap().to_buf().as_str(), "a b");
    assert_eq!(Segment::parse("").unwrap_err(), ParseSegmentError::Empty);
    for text in [" job", "job ", "\tjob", "job\n", " "] {
        assert_eq!(
            Segment::parse(text).unwrap_err(),
            ParseSegmentError::SurroundingWhitespace
        );
    }
    assert_eq!(
        Segment::parse("a/b").unwrap_err(),
        ParseSegmentError::ContainsSeparator
    );
}

#[test]
fn segments_are_equal_by_text() {
    let a = Segment::parse("job").unwrap().to_buf();
    assert!(a == a.clone());
    assert!(a != Segment::parse("bob").unwrap().to_buf());
}

#[test]
fn keys_are_read_from_text() {
    let global = key("name");
    assert_eq!(global.name().as_str(), "name");

    let mut scoped = key("name");
    scoped.add_super_scope(&Segment::parse("inner").unwrap());
    scoped.add_super_scope(&Segment::parse("outer").unwrap());
    assert!(scoped == key("outer/inner/name"));
    assert!(scoped != key("inner/outer/name"));
    assert!(scoped != key("inner/name"));
    assert!(scoped != global);
    assert!(scoped.clone() == scoped);

    assert!(*key("pending/1-job").scope() == Scope::from_segment(&PendingTask::segment()));
    assert!(*key("1-job").scope() != Scope::from_segment(&PendingTask::segment()));
}

#[test]
fn keys_that_are_no_keys_are_refused() {
    assert_eq!(Key::parse("").unwrap_err(), ParseSegmentError::Empty);
    assert_eq!(Key::parse("a//b").unwrap_err(), ParseSegmentError::Empty);
    assert_eq!(Key::parse("a/").unwrap_err(), ParseSegmentError::Empty);
    assert_eq!(
        Key::parse("a /b").unwrap_err(),
        ParseSegmentError::SurroundingWhitespace
    );
}

#[test]
fn tasks_have_texts() {
    let task = pending("job-1", 1700000000);
    assert_eq!(task.to_text(), "1700000000-job-1");
    let running = RunningTask {
        task_name: task.clone(),
        claim_timestamp: 1700000005,
    };
    assert_eq!(running.to_text(), "1700000005-1700000000-job-1");
    let finished = FinishedTask {
        name: task,
        finish_timestamp: 0,
    };
    assert_eq!(finished.to_text(), "0-1700000000-job-1");
}

#[test]
fn tasks_have_keys() {
    let task = pending("job", 10);
    let running = RunningTask {
        task_name: task.clone(),
        claim_timestamp: 11,
    };
    let finished = FinishedTask {
        name: task.clone(),
        finish_timestamp: 12,
    };
    assert!(Key::from(TaskState::Pending(task)) == key("pending/10-job"));
    assert!(Key::from(TaskState::Running(running)) == key("running/11-10-job"));
    assert!(Key::from(TaskState::Finished(finished)) == key("finished/12-10-job"));
}

#[test]
fn tasks_are_read_back_from_their_keys() {
    for name in ["job", "job-1", "-", "a b", "1-2"] {
        for timestamp in [0, 10, u64::MAX] {
            let task = pending(name, timestamp);
            let back = PendingTask::try_from(Key::from(TaskState::Pending(task.clone()))).unwrap();
            assert_eq!(back.name.as_str(), name);
            assert_eq!(back.schedule_timestamp, timestamp);

            let running = RunningTask {
                task_name: task.clone(),
                claim_timestamp: 77,
            };
            let back = RunningTask::try_from(Key::from(TaskState::Running(running))).unwrap();
            assert_eq!(back.task_name.name.as_str(), name);
            assert_eq!(back.task_name.schedule_timestamp, timestamp);
            assert_eq!(back.claim_timestamp, 77);

            let finished = FinishedTask {
                name: task,
                finish_timestamp: 78,
            };
            let back = FinishedTask::try_from(Key::from(TaskState::Finished(finished))).unwrap();
            assert_eq!(back.name.name.as_str(), name);
            assert_eq!(back.name.schedule_timestamp, timestamp);
            assert_eq!(back.finish_timestamp, 78);
        }
    }
}

#[test]
fn different_tasks_have_different_keys() {
    let states = [
        TaskState::Pending(pending("job", 10)),
        TaskState::Pending(pending("job", 11)),
        TaskState::Pending(pending("job-1", 10)),
        TaskState::Running(RunningTask {
            task_name: pending("job", 10),
            claim_timestamp: 10,
        }),
        TaskState::Finished(FinishedTask {
            name: pending("job", 10),
            finish_timestamp: 10,
        }),
        TaskState::Pending(pending("10-job", 10)),
    ];
    for (i, a) in states.iter().enumerate() {
        for (j, b) in states.iter().enumerate() {
            assert_eq!(Key::from(a.clone()) == Key::from(b.clone()), i == j);
        }
    }
}

#[test]
fn the_scope_of_a_key_does_not_matter_for_reading() {
    let task = PendingTask::try_from(key("somewhere/else/10-job")).unwrap();
    assert_eq!(task.name.as_str(), "job");
    assert_eq!(task.schedule_timestamp, 10);
}

#[test]
fn pending_tasks_that_are_none_are_refused() {
    let error = |text: &str| PendingTask::try_from(key(text)).unwrap_err();
    assert_eq!(error("job"), Error::InvalidKey);
    assert_eq!(error("x-job"), Error::InvalidKey);
    assert_eq!(error("-job"), Error::InvalidKey);
    assert_eq!(error("18446744073709551616-job"), Error::InvalidKey);
    assert_eq!(error("10-"), Error::Segment(ParseSegmentError::Empty));
    // The name is looked at before the timestamp.
    assert_eq!(error("x-"), Error::Segment(ParseSegmentError::Empty));
    assert_eq!(
        error("10- job"),
        Error::Segment(ParseSegmentError::SurroundingWhitespace)
    );
    assert_eq!(
        PendingTask::try_from(key("+10-job")).unwrap().schedule_timestamp,
        10
    );
}

#[test]
fn running_and_finished_tasks_that_are_none_are_refused() {
    let running = |text: &str| RunningTask::try_from(key(text)).unwrap_err();
    let finished = |text: &str| FinishedTask::try_from(key(text)).unwrap_err();
    for (text, error) in [
        ("job", Error::InvalidKey),
        ("10-job", Error::InvalidKey),
        ("x-10-job", Error::InvalidKey),
        ("10-x-job", Error::InvalidKey),
        ("10-", Error::Segment(ParseSegmentError::Empty)),
        ("10-10-", Error::Segment(ParseSegmentError::Empty)),
        (
            "10- 10-job",
            Error::Segment(ParseSegmentError::SurroundingWhitespace),
        ),
    ] {
        assert_eq!(running(text), error, "{text}");
        assert_eq!(finished(text), error, "{text}");
    }
}

#[test]
fn pending_tasks_are_equal_by_name() {
    assert!(pending("job", 1) == pending("job", 2));
    assert!(pending("job", 1) != pending("bob", 1));
}

#[test]
fn a_task_goes_by_the_scope_of_its_state() {
    let states = [
        (TaskState::Pending(pending("job", 1)), "pending"),
        (
            TaskState::Running(RunningTask {
                task_name: pending("job", 1),
                claim_timestamp: 2,
            }),
            "running",
        ),
        (
            TaskState::Finished(FinishedTask {
                name: pending("job", 1),
                finish_timestamp: 3,
            }),
            "finished",
        ),
    ];
    for (state, segment) in states {
        assert_eq!(state.super_scope().as_str(), segment);
        let task = Task {
            state,
            value: Value::Null,
        };
        assert_eq!(task.name().as_str(), segment);
    }
}
