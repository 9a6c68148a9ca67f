//! Tasks and the keys under which they are stored.

use serde_json::Value;
use vstd::prelude::*;

use crate::error::Error;
use crate::key;
use crate::key::{Key, KeyModel};
use crate::segment;
use crate::segment::{Segment, SegmentBuf};
use crate::text;

verus! {

/// What a pending task stands for.
#[verifier::ext_equal]
pub struct PendingModel {
    pub name: Seq<char>,
    pub schedule_timestamp: u64,
}

/// What a running task stands for.
#[verifier::ext_equal]
pub struct RunningModel {
    pub task_name: PendingModel,
    pub claim_timestamp: u64,
}

/// What a finished task stands for.
#[verifier::ext_equal]
pub struct FinishedModel {
    pub name: PendingModel,
    pub finish_timestamp: u64,
}

/// What the state of a task stands for.
#[verifier::ext_equal]
pub enum StateModel {
    Pending(PendingModel),
    Running(RunningModel),
    Finished(FinishedModel),
}

/// A timestamp in front of the rest of a task text.
pub open spec fn stamped(timestamp: u64, rest: Seq<char>) -> Seq<char> {
    text::decimal(timestamp as nat).push(TaskState::SEPARATOR) + rest
}

impl PendingModel {
    /// Whether the name of the task is a segment.
    pub open spec fn valid(self) -> bool {
        segment::is_segment(self.name)
    }

    /// The text of the task: `<schedule timestamp>-<name>`.
    pub open spec fn text(self) -> Seq<char> {
        stamped(self.schedule_timestamp, self.name)
    }

    /// The key of the task.
    pub open spec fn key(self) -> KeyModel {
        KeyModel { scope: pending_scope(), name: self.text() }
    }
}

impl RunningModel {
    /// Whether the name of the task is a segment.
    pub open spec fn valid(self) -> bool {
        self.task_name.valid()
    }

    /// The text of the task: `<claim timestamp>-<schedule timestamp>-<name>`.
    pub open spec fn text(self) -> Seq<char> {
        stamped(self.claim_timestamp, self.task_name.text())
    }

    /// The key of the task.
    pub open spec fn key(self) -> KeyModel {
        KeyModel { scope: running_scope(), name: self.text() }
    }
}

impl FinishedModel {
    /// Whether the name of the task is a segment.
    pub open spec fn valid(self) -> bool {
        self.name.valid()
    }

    /// The text of the task: `<finish timestamp>-<schedule timestamp>-<name>`.
    pub open spec fn text(self) -> Seq<char> {
        stamped(self.finish_timestamp, self.name.text())
    }

    /// The key of the task.
    pub open spec fn key(self) -> KeyModel {
        KeyModel { scope: finished_scope(), name: self.text() }
    }
}

impl StateModel {
    /// Whether the name of the task is a segment.
    pub open spec fn valid(self) -> bool {
        match self {
            StateModel::Pending(task) => task.valid(),
            StateModel::Running(task) => task.valid(),
            StateModel::Finished(task) => task.valid(),
        }
    }

    /// The segment of the scope in which tasks of this state are stored.
    pub open spec fn segment(self) -> Seq<char> {
        match self {
            StateModel::Pending(_) => PendingTask::SEGMENT@,
            StateModel::Running(_) => RunningTask::SEGMENT@,
            StateModel::Finished(_) => FinishedTask::SEGMENT@,
        }
    }

    /// The key of the task.
    pub open spec fn key(self) -> KeyModel {
        match self {
            StateModel::Pending(task) => task.key(),
            StateModel::Running(task) => task.key(),
            StateModel::Finished(task) => task.key(),
        }
    }
}

/// The scope of pending tasks.
pub open spec fn pending_scope() -> Seq<Seq<char>> {
    seq![PendingTask::SEGMENT@]
}

/// The scope of running tasks.
pub open spec fn running_scope() -> Seq<Seq<char>> {
    seq![RunningTask::SEGMENT@]
}

/// The scope of finished tasks.
pub open spec fn finished_scope() -> Seq<Seq<char>> {
    seq![FinishedTask::SEGMENT@]
}

/// The pending task that a key with this name denotes.
pub open spec fn pending_of(name: Seq<char>) -> Result<PendingModel, Error> {
    match text::split_first(name, TaskState::SEPARATOR) {
        None => Err(Error::InvalidKey),
        Some((timestamp, rest)) => match segment::segment_error(rest) {
            Some(error) => Err(Error::Segment(error)),
            None => match text::number(timestamp) {
                None => Err(Error::InvalidKey),
                Some(schedule_timestamp) => Ok(PendingModel { name: rest, schedule_timestamp }),
            },
        },
    }
}

/// The timestamp and the pending task behind it that a key with this name denotes.
pub open spec fn stamped_of(name: Seq<char>) -> Result<(u64, PendingModel), Error> {
    match text::split_first(name, TaskState::SEPARATOR) {
        None => Err(Error::InvalidKey),
        Some((timestamp, rest)) => match key::key_of_text(rest) {
            Err(error) => Err(Error::Segment(error)),
            Ok(key) => match pending_of(key.name) {
                Err(error) => Err(error),
                Ok(task) => match text::number(timestamp) {
                    None => Err(Error::InvalidKey),
                    Some(timestamp) => Ok((timestamp, task)),
                },
            },
        },
    }
}

/// The running task that a key with this name denotes.
pub open spec fn running_of(name: Seq<char>) -> Result<RunningModel, Error> {
    match stamped_of(name) {
        Ok((claim_timestamp, task_name)) => Ok(RunningModel { task_name, claim_timestamp }),
        Err(error) => Err(error),
    }
}

/// The finished task that a key with this name denotes.
pub open spec fn finished_of(name: Seq<char>) -> Result<FinishedModel, Error> {
    match stamped_of(name) {
        Ok((finish_timestamp, name)) => Ok(FinishedModel { name, finish_timestamp }),
        Err(error) => Err(error),
    }
}

/// A task that waits to be claimed.
#[derive(Debug)]
pub struct PendingTask {
    pub name: SegmentBuf,
    pub schedule_timestamp: u64,
}

impl PendingTask {
    /// The segment of the scope of pending tasks.
    pub const SEGMENT: &'static str = "pending";
}

/// A task that was claimed and is being worked on.
#[derive(Debug)]
pub struct RunningTask {
    pub task_name: PendingTask,
    pub claim_timestamp: u64,
}

impl RunningTask {
    /// The segment of the scope of running tasks.
    pub const SEGMENT: &'static str = "running";
}

/// A task that is done.
#[derive(Debug)]
pub struct FinishedTask {
    pub name: PendingTask,
    pub finish_timestamp: u64,
}

impl FinishedTask {
    /// The segment of the scope of finished tasks.
    pub const SEGMENT: &'static str = "finished";
}

/// The state of a task.
#[derive(Debug)]
pub enum TaskState {
    Pending(PendingTask),
    Running(RunningTask),
    Finished(FinishedTask),
}

impl TaskState {
    /// The character between the fields of a task text.
    pub const SEPARATOR: char = '-';
}

impl View for PendingTask {
    type V = PendingModel;

    open spec fn view(&self) -> PendingModel {
        PendingModel { name: self.name@, schedule_timestamp: self.schedule_timestamp }
    }
}

impl View for RunningTask {
    type V = RunningModel;

    open spec fn view(&self) -> RunningModel {
        RunningModel { task_name: self.task_name@, claim_timestamp: self.claim_timestamp }
    }
}

impl View for FinishedTask {
    type V = FinishedModel;

    open spec fn view(&self) -> FinishedModel {
        FinishedModel { name: self.name@, finish_timestamp: self.finish_timestamp }
    }
}

impl View for TaskState {
    type V = StateModel;

    open spec fn view(&self) -> StateModel {
        match self {
            TaskState::Pending(task) => StateModel::Pending(task@),
            TaskState::Running(task) => StateModel::Running(task@),
            TaskState::Finished(task) => StateModel::Finished(task@),
        }
    }
}

impl PendingTask {
    /// The segment of the scope of pending tasks.
    pub fn segment() -> (segment: Segment<'static>)
        ensures
            segment@ == Self::SEGMENT@,
    {
        proof {
            reveal_strlit("pending");
        }
        Segment::literal(Self::SEGMENT)
    }

    /// The text of the task: `<schedule timestamp>-<name>`.
    pub fn to_text(&self) -> (text: String)
        ensures
            text@ == self@.text(),
            self@.valid(),
    {
        stamp(self.schedule_timestamp, self.name.as_str())
    }

    /// Reads the task that the name of a key denotes.
    pub fn from_name(name: &SegmentBuf) -> (result: Result<Self, Error>)
        ensures
            match result {
                Ok(task) => pending_of(name@) == Ok::<PendingModel, Error>(task@),
                Err(error) => pending_of(name@) == Err::<PendingModel, Error>(error),
            },
    {
        match text::split_once(name.as_str(), TaskState::SEPARATOR) {
            None => Err(Error::InvalidKey),
            Some((timestamp, rest)) => match Segment::parse(rest) {
                Err(error) => Err(Error::Segment(error)),
                Ok(rest) => match text::parse_number(timestamp) {
                    None => Err(Error::InvalidKey),
                    Some(schedule_timestamp) => Ok(
                        PendingTask { name: rest.to_buf(), schedule_timestamp },
                    ),
                },
            },
        }
    }
}

impl RunningTask {
    /// The segment of the scope of running tasks.
    pub fn segment() -> (segment: Segment<'static>)
        ensures
            segment@ == Self::SEGMENT@,
    {
        proof {
            reveal_strlit("running");
        }
        Segment::literal(Self::SEGMENT)
    }

    /// The text of the task: `<claim timestamp>-<schedule timestamp>-<name>`.
    pub fn to_text(&self) -> (text: String)
        ensures
            text@ == self@.text(),
            self@.valid(),
    {
        let task_name = self.task_name.to_text();
        stamp(self.claim_timestamp, task_name.as_str())
    }

    /// Reads the task that the name of a key denotes.
    pub fn from_name(name: &SegmentBuf) -> (result: Result<Self, Error>)
        ensures
            match result {
                Ok(task) => running_of(name@) == Ok::<RunningModel, Error>(task@),
                Err(error) => running_of(name@) == Err::<RunningModel, Error>(error),
            },
    {
        match text::split_once(name.as_str(), TaskState::SEPARATOR) {
            None => Err(Error::InvalidKey),
            Some((timestamp, rest)) => match Key::parse(rest) {
                Err(error) => Err(Error::Segment(error)),
                Ok(key) => match PendingTask::try_from(key) {
                    Err(error) => Err(error),
                    Ok(task) => match text::parse_number(timestamp) {
                        None => Err(Error::InvalidKey),
                        Some(timestamp) => Ok(
                            RunningTask { task_name: task, claim_timestamp: timestamp },
                        ),
                    },
                },
            },
        }
    }
}

impl FinishedTask {
    /// The segment of the scope of finished tasks.
    pub fn segment() -> (segment: Segment<'static>)
        ensures
            segment@ == Self::SEGMENT@,
    {
        proof {
            reveal_strlit("finished");
        }
        Segment::literal(Self::SEGMENT)
    }

    /// The text of the task: `<finish timestamp>-<schedule timestamp>-<name>`.
    pub fn to_text(&self) -> (text: String)
        ensures
            text@ == self@.text(),
            self@.valid(),
    {
        let name = self.name.to_text();
        stamp(self.finish_timestamp, name.as_str())
    }

    /// Reads the task that the name of a key denotes.
    pub fn from_name(name: &SegmentBuf) -> (result: Result<Self, Error>)
        ensures
            match result {
                Ok(task) => finished_of(name@) == Ok::<FinishedModel, Error>(task@),
                Err(error) => finished_of(name@) == Err::<FinishedModel, Error>(error),
            },
    {
        match text::split_once(name.as_str(), TaskState::SEPARATOR) {
            None => Err(Error::InvalidKey),
            Some((timestamp, rest)) => match Key::parse(rest) {
                Err(error) => Err(Error::Segment(error)),
                Ok(key) => match PendingTask::try_from(key) {
                    Err(error) => Err(error),
                    Ok(task) => match text::parse_number(timestamp) {
                        None => Err(Error::InvalidKey),
                        Some(timestamp) => Ok(
                            FinishedTask { name: task, finish_timestamp: timestamp },
                        ),
                    },
                },
            },
        }
    }
}

/// Writes a timestamp in front of the rest of a task text.
fn stamp(timestamp: u64, rest: &str) -> (text: String)
    ensures
        text@ == stamped(timestamp, rest@),
{
    let mut text = text::format_number(timestamp);
    proof {
        reveal_strlit("-");
    }
    text.append("-");
    text.append(rest);
    assert(text@ =~= stamped(timestamp, rest@));
    text
}

impl Clone for PendingTask {
    fn clone(&self) -> (task: Self)
        ensures
            task@ == self@,
    {
        PendingTask { name: self.name.clone(), schedule_timestamp: self.schedule_timestamp }
    }
}

impl Clone for RunningTask {
    fn clone(&self) -> (task: Self)
        ensures
            task@ == self@,
    {
        RunningTask {
            task_name: self.task_name.clone(),
            claim_timestamp: self.claim_timestamp,
        }
    }
}

impl Clone for FinishedTask {
    fn clone(&self) -> (task: Self)
        ensures
            task@ == self@,
    {
        FinishedTask { name: self.name.clone(), finish_timestamp: self.finish_timestamp }
    }
}

impl Clone for TaskState {
    fn clone(&self) -> (state: Self)
        ensures
            state@ == self@,
    {
        match self {
            TaskState::Pending(task) => TaskState::Pending(task.clone()),
            TaskState::Running(task) => TaskState::Running(task.clone()),
            TaskState::Finished(task) => TaskState::Finished(task.clone()),
        }
    }
}

impl PartialEq for PendingTask {
    /// Pending tasks are the same when their names are, whenever they are scheduled.
    fn eq(&self, other: &Self) -> (equal: bool) {
        self.name == other.name
    }
}

impl vstd::std_specs::cmp::PartialEqSpecImpl for PendingTask {
    open spec fn obeys_eq_spec() -> bool {
        true
    }

    open spec fn eq_spec(&self, other: &Self) -> bool {
        self@.name == other@.name
    }
}

impl TryFrom<Key> for PendingTask {
    type Error = Error;

    /// Reads the task that a key denotes by its name.
    fn try_from(key: Key) -> (result: Result<Self, Error>)
        ensures
            match result {
                Ok(task) => pending_of(key@.name) == Ok::<PendingModel, Error>(task@),
                Err(error) => pending_of(key@.name) == Err::<PendingModel, Error>(error),
            },
    {
        Self::from_name(key.name())
    }
}

impl vstd::std_specs::convert::TryFromSpecImpl<Key> for PendingTask {
    // The result is stated over views, in the contract of `try_from`.
    open spec fn obeys_try_from_spec() -> bool {
        false
    }

    open spec fn try_from_spec(key: Key) -> Result<Self, Error> {
        arbitrary()
    }
}

impl TryFrom<Key> for RunningTask {
    type Error = Error;

    /// Reads the task that a key denotes by its name.
    fn try_from(key: Key) -> (result: Result<Self, Error>)
        ensures
            match result {
                Ok(task) => running_of(key@.name) == Ok::<RunningModel, Error>(task@),
                Err(error) => running_of(key@.name) == Err::<RunningModel, Error>(error),
            },
    {
        Self::from_name(key.name())
    }
}

impl vstd::std_specs::convert::TryFromSpecImpl<Key> for RunningTask {
    // The result is stated over views, in the contract of `try_from`.
    open spec fn obeys_try_from_spec() -> bool {
        false
    }

    open spec fn try_from_spec(key: Key) -> Result<Self, Error> {
        arbitrary()
    }
}

impl TryFrom<Key> for FinishedTask {
    type Error = Error;

    /// Reads the task that a key denotes by its name.
    fn try_from(key: Key) -> (result: Result<Self, Error>)
        ensures
            match result {
                Ok(task) => finished_of(key@.name) == Ok::<FinishedModel, Error>(task@),
                Err(error) => finished_of(key@.name) == Err::<FinishedModel, Error>(error),
            },
    {
        Self::from_name(key.name())
    }
}

impl vstd::std_specs::convert::TryFromSpecImpl<Key> for FinishedTask {
    // The result is stated over views, in the contract of `try_from`.
    open spec fn obeys_try_from_spec() -> bool {
        false
    }

    open spec fn try_from_spec(key: Key) -> Result<Self, Error> {
        arbitrary()
    }
}

impl TaskState {
    /// The segment of the scope in which tasks of this state are stored.
    pub fn super_scope(&self) -> (segment: Segment<'static>)
        ensures
            segment@ == self@.segment(),
    {
        match self {
            TaskState::Pending(_) => PendingTask::segment(),
            TaskState::Running(_) => RunningTask::segment(),
            TaskState::Finished(_) => FinishedTask::segment(),
        }
    }
}

/// A task in some state, with the value that was scheduled for it.
#[derive(Debug)]
pub struct Task {
    pub state: TaskState,
    pub value: Value,
}

impl Clone for Task {
    fn clone(&self) -> (task: Self)
        ensures
            task.state@ == self.state@,
            task.value == self.value,
    {
        Task { state: self.state.clone(), value: self.value.clone() }
    }
}

impl Task {
    /// The segment of the scope in which the task is stored.
    pub fn name(&self) -> (segment: Segment<'static>)
        ensures
            segment@ == self.state@.segment(),
    {
        self.state.super_scope()
    }
}

impl From<TaskState> for Key {
    /// The key under which a task is stored.
    fn from(task: TaskState) -> (key: Self)
        ensures
            key@ == task@.key(),
            task@.valid(),
    {
        let text = match &task {
            TaskState::Pending(t) => t.to_text(),
            TaskState::Running(t) => t.to_text(),
            TaskState::Finished(t) => t.to_text(),
        };
        proof {
            lemma_text_is_segment(task@);
            key::lemma_key_of_segment(text@);
        }
        let mut name = Key::parse(text.as_str()).unwrap();
        name.add_super_scope(&task.super_scope());
        assert(name@.scope =~= task@.key().scope);
        name
    }
}

impl vstd::std_specs::convert::FromSpecImpl<TaskState> for Key {
    // The result is stated over views, in the contract of `from`.
    open spec fn obeys_from_spec() -> bool {
        false
    }

    open spec fn from_spec(task: TaskState) -> Self {
        arbitrary()
    }
}

/// A timestamp in front of a segment makes a segment.
proof fn lemma_stamped_is_segment(timestamp: u64, rest: Seq<char>)
    requires
        segment::is_segment(rest),
    ensures
        segment::is_segment(stamped(timestamp, rest)),
{
    let digits = text::decimal(timestamp as nat);
    let s = stamped(timestamp, rest);
    text::lemma_decimal(timestamp as nat);
    assert(s[0] == digits[0]);
    assert(text::is_digit(digits[0]));
    assert(s.last() == rest.last());
    assert forall|i: int| 0 <= i < s.len() implies s[i] != segment::SEPARATOR by {
        if i < digits.len() {
            assert(s[i] == digits[i]);
        } else if i > digits.len() {
            assert(s[i] == rest[i - digits.len() - 1]);
            assert(rest.contains(s[i]));
        }
    }
}

/// The text of a task is a segment, so it can be the name of a key.
pub proof fn lemma_text_is_segment(task: StateModel)
    requires
        task.valid(),
    ensures
        segment::is_segment(task.key().name),
{
    match task {
        StateModel::Pending(t) => {
            lemma_stamped_is_segment(t.schedule_timestamp, t.name);
        },
        StateModel::Running(t) => {
            lemma_stamped_is_segment(t.task_name.schedule_timestamp, t.task_name.name);
            lemma_stamped_is_segment(t.claim_timestamp, t.task_name.text());
        },
        StateModel::Finished(t) => {
            lemma_stamped_is_segment(t.name.schedule_timestamp, t.name.name);
            lemma_stamped_is_segment(t.finish_timestamp, t.name.text());
        },
    }
}

/// A timestamp and the rest of a task text split back into both.
proof fn lemma_split_stamped(timestamp: u64, rest: Seq<char>)
    ensures
        text::split_first(stamped(timestamp, rest), TaskState::SEPARATOR) == Some(
            (text::decimal(timestamp as nat), rest),
        ),
        text::number(text::decimal(timestamp as nat)) == Some(timestamp),
{
    text::lemma_decimal_excludes(timestamp as nat, TaskState::SEPARATOR);
    text::lemma_split_first_joined(
        text::decimal(timestamp as nat),
        TaskState::SEPARATOR,
        rest,
    );
    text::lemma_number_of_decimal(timestamp);
}

/// A pending task is read back from its key.
pub proof fn lemma_pending_round_trip(task: PendingModel)
    requires
        task.valid(),
    ensures
        pending_of(task.key().name) == Ok::<PendingModel, Error>(task),
{
    lemma_split_stamped(task.schedule_timestamp, task.name);
}

/// A timestamp and a pending task are read back from the text that joins them.
proof fn lemma_stamped_round_trip(timestamp: u64, task: PendingModel)
    requires
        task.valid(),
    ensures
        stamped_of(stamped(timestamp, task.text())) == Ok::<(u64, PendingModel), Error>(
            (timestamp, task),
        ),
{
    lemma_split_stamped(timestamp, task.text());
    lemma_stamped_is_segment(task.schedule_timestamp, task.name);
    key::lemma_key_of_segment(task.text());
    lemma_pending_round_trip(task);
}

/// A running task is read back from its key.
pub proof fn lemma_running_round_trip(task: RunningModel)
    requires
        task.valid(),
    ensures
        running_of(task.key().name) == Ok::<RunningModel, Error>(task),
{
    lemma_stamped_round_trip(task.claim_timestamp, task.task_name);
}

/// A finished task is read back from its key.
pub proof fn lemma_finished_round_trip(task: FinishedModel)
    requires
        task.valid(),
    ensures
        finished_of(task.key().name) == Ok::<FinishedModel, Error>(task),
{
    lemma_stamped_round_trip(task.finish_timestamp, task.name);
}

} // verus!
