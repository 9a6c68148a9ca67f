use kvx_queue::error::Error;
use kvx_queue::key::Key;
use kvx_queue::segment::{Segment, SegmentBuf};
use kvx_queue::select::{count_listed, expired_tasks, find_pending, next_pending, timed_out_tasks};

fn keys(texts: &[&str]) -> Result<Vec<Key>, Error> {
    Ok(texts.iter().map(|text| Key::parse(text).unwrap()).collect())
}

fn segment(text: &str) -> SegmentBuf {
    Segment::parse(text).unwrap().to_buf()
}

#[test]
fn keys_are_counted_whatever_they_denote() {
    assert_eq!(count_listed(keys(&[])), Ok(0));
    assert_eq!(count_listed(keys(&["1-a", "no task"])), Ok(2));
}

#[test]
fn the_first_task_of_a_name_is_found() {
    let listed = || keys(&["a", "9-b", "5-a", "3-a"]);
    let found = find_pending(listed(), &segment("a")).unwrap().unwrap();
    assert_eq!(found.schedule_timestamp, 5);
    assert!(find_pending(listed(), &segment("c")).unwrap().is_none());
    assert!(find_pending(keys(&[]), &segment("a")).unwrap().is_none());
}

#[test]
fn the_earliest_due_task_is_next() {
    let listed = || keys(&["7-late", "x-bad", "3-first", "3-second", "5-mid", "bad"]);
    let next = next_pending(listed(), 6).unwrap().unwrap();
    assert_eq!(next.name.as_str(), "first");
    assert_eq!(next.schedule_timestamp, 3);
    assert_eq!(
        next_pending(listed(), 3).unwrap().unwrap().name.as_str(),
        "first"
    );
    assert!(next_pending(listed(), 2).unwrap().is_none());
    assert!(next_pending(keys(&[]), 2).unwrap().is_none());

    let other_order = next_pending(keys(&["7-late", "3-second", "3-first"]), 9).unwrap();
    assert_eq!(other_order.unwrap().name.as_str(), "second");
}

#[test]
fn running_tasks_time_out_at_the_limit() {
    let listed = keys(&["5-1-a", "6-1-b", "7-1-c", "5-d", "4-9-e"]);
    let tasks = timed_out_tasks(listed, 6).unwrap();
    let names: Vec<&str> = tasks.iter().map(|t| t.task_name.name.as_str()).collect();
    assert_eq!(names, ["a", "b", "e"]);
    assert_eq!(tasks[0].claim_timestamp, 5);
    assert_eq!(tasks[2].task_name.schedule_timestamp, 9);
}

#[test]
fn finished_tasks_expire_at_the_limit() {
    let listed = keys(&["5-1-a", "6-1-b", "7-1-c", "5-d", "4-9-e"]);
    let tasks = expired_tasks(listed, 6).unwrap();
    let names: Vec<&str> = tasks.iter().map(|t| t.name.name.as_str()).collect();
    assert_eq!(names, ["a", "b", "e"]);
    assert_eq!(tasks[1].finish_timestamp, 6);
}

#[test]
fn an_error_in_place_of_a_list_is_handed_on() {
    let failed = || Err(Error::Other("gone".to_string()));
    let gone = Error::Other("gone".to_string());
    assert_eq!(count_listed(failed()).unwrap_err(), gone);
    assert_eq!(find_pending(failed(), &segment("a")).unwrap_err(), gone);
    assert_eq!(next_pending(failed(), 1).unwrap_err(), gone);
    assert_eq!(timed_out_tasks(failed(), 1).unwrap_err(), gone);
    assert_eq!(expired_tasks(failed(), 1).unwrap_err(), gone);
}
