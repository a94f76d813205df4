//! The task record, the values it is made of, and the trees of tasks.
use super::builder::TaskTreeBuilder;
use super::finish::{lemma_raised_is_forest, lemma_raised_is_rooted};
use super::forest::{
    all_resolve, child_order, distinct_ids, is_forest, is_rooted, resolves, unresolved_ids,
};
use super::outcome::{lemma_all_placed, lemma_exhausted, lemma_settled};
use crate::text::{
    bright_red, bright_red_text, decimal, decimal_string, default_color, default_color_text,
};
use vstd::prelude::*;

verus! {

pub type TaskID = u64;

pub type ProjectID = u64;

pub type SectionID = u64;

pub type LabelID = u64;

pub type UserID = u64;

/// Priority of a task, from `Normal` (level 1) up to `Urgent` (level 4).
#[derive(Debug, Clone, Copy, PartialEq, Eq, Structural)]
pub enum Priority {
    Normal,
    High,
    VeryHigh,
    Urgent,
}

impl Priority {
    /// The number that stands for this priority on the wire.
    pub open spec fn spec_level(self) -> u8 {
        match self {
            Priority::Normal => 1u8,
            Priority::High => 2u8,
            Priority::VeryHigh => 3u8,
            Priority::Urgent => 4u8,
        }
    }

    /// The number that stands for this priority on the wire, 1 to 4.
    #[verifier::when_used_as_spec(spec_level)]
    pub fn level(self) -> (n: u8)
        ensures
            n == self.spec_level(),
    {
        match self {
            Priority::Normal => 1,
            Priority::High => 2,
            Priority::VeryHigh => 3,
            Priority::Urgent => 4,
        }
    }

    /// The priority that `level` stands for, if it is one of 1 to 4.
    pub fn from_level(level: u8) -> (p: Option<Priority>)
        ensures
            1 <= level <= 4 <==> p is Some,
            p matches Some(q) ==> q.spec_level() == level,
    {
        if level == 1 {
            Some(Priority::Normal)
        } else if level == 2 {
            Some(Priority::High)
        } else if level == 3 {
            Some(Priority::VeryHigh)
        } else if level == 4 {
            Some(Priority::Urgent)
        } else {
            None
        }
    }

    /// Every priority is found again from its level.
    pub proof fn lemma_level_round_trip(p: Priority, q: Priority)
        ensures
            1 <= p.spec_level() <= 4,
            p.spec_level() == q.spec_level() ==> p == q,
    {
    }
}

impl Default for Priority {
    fn default() -> (p: Priority)
        ensures
            p == Priority::Normal,
    {
        Priority::Normal
    }
}

/// An instant on the UTC time line: whole seconds since the Unix epoch and
/// the nanoseconds into that second.
#[derive(Debug, Clone, Copy, PartialEq, Eq, Structural)]
pub struct Timestamp {
    pub secs: i64,
    pub nanos: u32,
}

/// An instant together with the offset of the local time it was written in,
/// in seconds east of UTC.
#[derive(Debug, Clone, Copy, PartialEq, Eq, Structural)]
pub struct ZonedTimestamp {
    pub secs: i64,
    pub nanos: u32,
    pub offset: i32,
}

/// ExactTime exists in DueDate if this is an exact DueDate.
#[derive(Debug)]
pub struct ExactTime {
    pub datetime: ZonedTimestamp,
    pub timezone: String,
}

/// DueDate is the due object of a task.
///
/// Mostly contains human-readable content for easier display.
#[derive(Debug)]
pub struct DueDate {
    pub human_readable: String,
    pub date: String,
    pub recurring: bool,
    pub exact: Option<ExactTime>,
}

/// Task describes a task as the service reports it.
#[derive(Debug)]
pub struct Task {
    pub id: TaskID,
    pub project_id: ProjectID,
    pub section_id: Option<SectionID>,
    pub content: String,
    pub description: String,
    pub completed: bool,
    pub label_ids: Vec<LabelID>,
    pub parent_id: Option<TaskID>,
    pub order: isize,
    pub priority: Priority,
    pub due: Option<DueDate>,
    pub url: String,
    pub comment_count: usize,
    pub assignee: Option<UserID>,
    pub assigner: Option<UserID>,
    pub created: Timestamp,
}

/// The current instant. `chrono::Utc::now` reads the system clock; the two
/// accessors `timestamp` and `timestamp_subsec_nanos` hand out what it read.
/// Nothing is claimed of the result. `chrono` panics where the clock reads
/// before 1970 or beyond the years it can represent.
#[verifier::external_body]
fn utc_now() -> Timestamp {
    let now = chrono::Utc::now();
    Timestamp { secs: now.timestamp(), nanos: now.timestamp_subsec_nanos() }
}

/// `num_traits::Zero::is_zero` on `u64`: whether the value equals 0.
#[verifier::external_body]
fn is_zero(value: u64) -> (b: bool)
    ensures
        b == (value == 0),
{
    num_traits::Zero::is_zero(&value)
}

/// An identifier of 0 stands for no identifier at all.
pub open spec fn spec_zero_to_none(value: Option<u64>) -> Option<u64> {
    match value {
        Some(v) => if v == 0 {
            None
        } else {
            Some(v)
        },
        None => None,
    }
}

/// Reads an optional identifier in which 0 means absent.
#[verifier::when_used_as_spec(spec_zero_to_none)]
pub fn zero_to_none(value: Option<u64>) -> (r: Option<u64>)
    ensures
        r == spec_zero_to_none(value),
{
    match value {
        Some(v) => {
            if is_zero(v) {
                None
            } else {
                Some(v)
            }
        },
        None => None,
    }
}

impl Task {
    /// What `new` and `created_at` fill in but for the time of creation: the
    /// identifier and the content as given, everything else empty.
    pub open spec fn is_fresh(self, id: TaskID, content: Seq<char>) -> bool {
        &&& self.id == id
        &&& self.project_id == 0
        &&& self.section_id is None
        &&& self.content@ == content
        &&& self.description@ == Seq::<char>::empty()
        &&& !self.completed
        &&& self.label_ids@ == Seq::<LabelID>::empty()
        &&& self.parent_id is None
        &&& self.order == 0
        &&& self.priority == Priority::Normal
        &&& self.due is None
        &&& self.url@ == Seq::<char>::empty()
        &&& self.comment_count == 0
        &&& self.assignee is None
        &&& self.assigner is None
    }

    /// A task without parent, labels or due date that was created at
    /// `created`.
    pub fn created_at(id: TaskID, content: &str, created: Timestamp) -> (task: Task)
        ensures
            task.is_fresh(id, content@),
            task.created == created,
    {
        Task {
            id,
            project_id: 0,
            section_id: None,
            content: content.to_string(),
            description: String::new(),
            completed: false,
            label_ids: Vec::new(),
            parent_id: None,
            order: 0,
            priority: Priority::default(),
            due: None,
            url: String::new(),
            comment_count: 0,
            assignee: None,
            assigner: None,
            created,
        }
    }

    /// A task without parent, labels or due date, created now. The library
    /// works on what the service reports; this is for writing records by hand.
    pub fn new(id: TaskID, content: &str) -> (task: Task)
        ensures
            task.is_fresh(id, content@),
    {
        Task::created_at(id, content, utc_now())
    }
}

/// A task as one row of a table: its identifier in bright red, then its
/// content.
pub struct TableTask<'a>(pub &'a Task);

impl<'a> TableTask<'a> {
    /// The row as text.
    pub open spec fn spec_render(self) -> Seq<char> {
        bright_red_text(decimal(self.0.id as nat)) + " "@ + default_color_text(self.0.content@)
    }

    /// The row as text, with the escape sequences that colour it.
    pub fn render(&self) -> (row: String)
        ensures
            row@ == self.spec_render(),
    {
        let id = decimal_string(self.0.id);
        let mut row = bright_red(id.as_str());
        row.append(" ");
        let content = default_color(self.0.content.as_str());
        row.append(content.as_str());
        row
    }
}

/// A task and the tasks below it.
#[derive(Debug)]
pub struct TaskTree {
    pub task: Task,
    pub subtasks: Vec<TaskTree>,
}

/// The mathematical tree that a `TaskTree` stands for.
pub struct TreeView {
    pub task: Task,
    pub subtasks: Seq<TreeView>,
}

impl View for TaskTree {
    type V = TreeView;

    open spec fn view(&self) -> TreeView
        decreases self,
    {
        TreeView {
            task: self.task,
            subtasks: Seq::new(
                self.subtasks@.len(),
                |k: int|
                    if 0 <= k < self.subtasks@.len() {
                        self.subtasks@[k].view()
                    } else {
                        arbitrary()
                    },
            ),
        }
    }
}

/// Why a batch of tasks is no forest.
#[derive(Debug)]
pub enum BuildError {
    /// Some tasks name a parent that is missing from the batch, or that is
    /// itself below no root. `ids` holds the identifiers of all such tasks.
    UnresolvedParents { ids: Vec<TaskID> },
}

impl BuildError {
    /// The identifiers of the tasks that could not be attached.
    pub open spec fn ids(self) -> Seq<TaskID> {
        match self {
            BuildError::UnresolvedParents { ids } => ids@,
        }
    }

    /// The number of tasks that could not be attached.
    pub fn count(&self) -> (count: usize)
        ensures
            count == self.ids().len(),
    {
        match self {
            BuildError::UnresolvedParents { ids } => ids.len(),
        }
    }

    /// The error in words.
    pub open spec fn spec_message(self) -> Seq<char> {
        "missing parent nodes in "@ + decimal(self.ids().len()) + " subtasks"@
    }

    /// The error in words, with the number of tasks that could not be
    /// attached.
    pub fn message(&self) -> (text: String)
        ensures
            text@ == self.spec_message(),
    {
        let mut text = String::from_str("missing parent nodes in ");
        let count = decimal_string(self.count() as u64);
        text.append(count.as_str());
        text.append(" subtasks");
        text
    }
}

impl TaskTree {
    /// Builds the forest that the parent identifiers of `tasks` describe.
    ///
    /// The tasks without a parent become the roots, in the order of the
    /// batch. Every other task is attached below the task that its parent
    /// identifier names, wherever in the batch that task stands; the
    /// subtasks of a task stand in the order in which they were attached,
    /// which `child_order` gives. The batch is refused as a whole if some
    /// task reaches no root that way, and the error names every such task.
    ///
    /// Identifiers are meant to be distinct. Where they are not, the roots
    /// are still those of the batch and every subtask names the task above
    /// it as its parent.
    pub fn from_tasks(tasks: Vec<Task>) -> (res: Result<Vec<TaskTree>, BuildError>)
        ensures
            match res {
                Ok(forest) => {
                    &&& all_resolve(tasks@)
                    &&& is_rooted(tasks@, forest_view(forest@))
                    &&& distinct_ids(tasks@) ==> is_forest(tasks@, forest_view(forest@))
                },
                Err(e) => {
                    &&& !all_resolve(tasks@)
                    &&& e.ids() == unresolved_ids(tasks@)
                },
            },
    {
        let ghost ts = tasks@;
        let mut builder = TaskTreeBuilder::new(tasks);
        builder.resolve();
        let ghost a = builder.arena();
        proof {
            lemma_exhausted(a);
        }
        if builder.pending.len() > 0 {
            let ids = builder.unplaced();
            proof {
                let i = a.queue[0];
                assert(!a.placed[i]);
                assert(!resolves(ts, i));
            }
            Err(BuildError::UnresolvedParents { ids })
        } else {
            proof {
                lemma_all_placed(a);
                assert(all_resolve(ts)) by {
                    assert forall|i: int| 0 <= i < ts.len() implies resolves(
                        ts,
                        i,
                    ) by {
                        assert(a.placed[i]);
                    }
                }
            }
            let forest = builder.finalize();
            proof {
                lemma_raised_is_rooted(a, forest_view(forest@));
                if distinct_ids(ts) {
                    assert forall|p: int| 0 <= p < ts.len() implies #[trigger] a.kids[p]
                        == child_order(ts, p) by {
                        lemma_settled(a, p);
                    }
                    lemma_raised_is_forest(ts, a.kids, forest_view(forest@));
                }
            }
            Ok(forest)
        }
    }
}

/// The trees that a sequence of `TaskTree`s stands for.
pub open spec fn forest_view(forest: Seq<TaskTree>) -> Seq<TreeView> {
    Seq::new(forest.len(), |k: int| forest[k]@)
}

} // verus!
