//! Listing tasks, and what follows from the choices made in the list.
use crate::api::rest::{Priority, TableTask, TaskID, TaskTree};
use vstd::prelude::*;

verus! {

/// How to list the tasks.
#[derive(Debug)]
pub struct Params {
    /// The filter query that selects the tasks.
    pub filter: String,
    /// Whether to offer the tasks for selection instead of printing them.
    pub interactive: bool,
}

impl Params {
    /// The filter that applies where none is given.
    pub open spec fn default_filter() -> Seq<char> {
        "(today | overdue)"@
    }
}

impl Default for Params {
    fn default() -> (params: Params)
        ensures
            params.filter@ == Params::default_filter(),
            !params.interactive,
    {
        Params { filter: String::from_str("(today | overdue)"), interactive: false }
    }
}

/// The rows of the table of tasks: one for each tree, made of its topmost
/// task.
pub fn rows(tree: &[TaskTree]) -> (lines: Vec<String>)
    ensures
        lines@.len() == tree@.len(),
        forall|i: int|
            0 <= i < tree@.len() ==> (#[trigger] lines@[i])@ == TableTask(
                &tree@[i].task,
            ).spec_render(),
{
    let mut lines: Vec<String> = Vec::new();
    let mut i: usize = 0;
    while i < tree.len()
        invariant
            i <= tree@.len(),
            lines@.len() == i,
            forall|k: int|
                0 <= k < i ==> (#[trigger] lines@[k])@ == TableTask(&tree@[k].task).spec_render(),
        decreases tree@.len() - i,
    {
        lines.push(TableTask(&tree[i].task).render());
        i += 1;
    }
    lines
}

/// The tree that was chosen from the list, if one was.
pub fn pick(tree: &[TaskTree], choice: Option<usize>) -> (picked: Option<&TaskTree>)
    requires
        choice matches Some(index) ==> index < tree@.len(),
    ensures
        match choice {
            Some(index) => picked == Some(&tree@[index as int]),
            None => picked is None,
        },
{
    match choice {
        Some(index) => Some(&tree[index]),
        None => None,
    }
}

/// What can be done with a chosen task.
#[derive(Debug, Clone, Copy, PartialEq, Eq, Structural)]
pub enum TaskOptions {
    Close,
    Edit,
    Quit,
}

impl TaskOptions {
    /// The option at `index` of the menu.
    pub open spec fn spec_from_repr(index: usize) -> Option<TaskOptions> {
        if index == 0 {
            Some(TaskOptions::Close)
        } else if index == 1 {
            Some(TaskOptions::Edit)
        } else if index == 2 {
            Some(TaskOptions::Quit)
        } else {
            None
        }
    }

    /// The option at `index` of the menu, if the menu is that long.
    #[verifier::when_used_as_spec(spec_from_repr)]
    pub fn from_repr(index: usize) -> (option: Option<TaskOptions>)
        ensures
            option == Self::spec_from_repr(index),
    {
        if index == 0 {
            Some(TaskOptions::Close)
        } else if index == 1 {
            Some(TaskOptions::Edit)
        } else if index == 2 {
            Some(TaskOptions::Quit)
        } else {
            None
        }
    }

    /// The entry of the menu for this option.
    pub open spec fn spec_name(self) -> Seq<char> {
        match self {
            TaskOptions::Close => "Close"@,
            TaskOptions::Edit => "Edit"@,
            TaskOptions::Quit => "Quit"@,
        }
    }

    /// The entry of the menu for this option.
    pub fn name(self) -> (name: &'static str)
        ensures
            name@ == self.spec_name(),
    {
        match self {
            TaskOptions::Close => "Close",
            TaskOptions::Edit => "Edit",
            TaskOptions::Quit => "Quit",
        }
    }

    /// The entries of the menu, in its order.
    pub fn variants() -> (names: Vec<&'static str>)
        ensures
            names@.len() == 3,
            forall|index: usize|
                index < 3 ==> (#[trigger] names@[index as int])@ == Self::spec_from_repr(
                    index,
                )->0.spec_name(),
    {
        let mut names: Vec<&'static str> = Vec::new();
        names.push(TaskOptions::Close.name());
        names.push(TaskOptions::Edit.name());
        names.push(TaskOptions::Quit.name());
        names
    }
}

/// What can be changed of a chosen task.
#[derive(Debug, Clone, Copy, PartialEq, Eq, Structural)]
pub enum EditOptions {
    Name,
    Description,
    Due,
    Priority,
    Quit,
}

impl EditOptions {
    /// The option at `index` of the menu.
    pub open spec fn spec_from_repr(index: usize) -> Option<EditOptions> {
        if index == 0 {
            Some(EditOptions::Name)
        } else if index == 1 {
            Some(EditOptions::Description)
        } else if index == 2 {
            Some(EditOptions::Due)
        } else if index == 3 {
            Some(EditOptions::Priority)
        } else if index == 4 {
            Some(EditOptions::Quit)
        } else {
            None
        }
    }

    /// The option at `index` of the menu, if the menu is that long.
    #[verifier::when_used_as_spec(spec_from_repr)]
    pub fn from_repr(index: usize) -> (option: Option<EditOptions>)
        ensures
            option == Self::spec_from_repr(index),
    {
        if index == 0 {
            Some(EditOptions::Name)
        } else if index == 1 {
            Some(EditOptions::Description)
        } else if index == 2 {
            Some(EditOptions::Due)
        } else if index == 3 {
            Some(EditOptions::Priority)
        } else if index == 4 {
            Some(EditOptions::Quit)
        } else {
            None
        }
    }

    /// The entry of the menu for this option.
    pub open spec fn spec_name(self) -> Seq<char> {
        match self {
            EditOptions::Name => "Name"@,
            EditOptions::Description => "Description"@,
            EditOptions::Due => "Due"@,
            EditOptions::Priority => "Priority"@,
            EditOptions::Quit => "Quit"@,
        }
    }

    /// The entry of the menu for this option.
    pub fn name(self) -> (name: &'static str)
        ensures
            name@ == self.spec_name(),
    {
        match self {
            EditOptions::Name => "Name",
            EditOptions::Description => "Description",
            EditOptions::Due => "Due",
            EditOptions::Priority => "Priority",
            EditOptions::Quit => "Quit",
        }
    }

    /// The entries of the menu, in its order.
    pub fn variants() -> (names: Vec<&'static str>)
        ensures
            names@.len() == 5,
            forall|index: usize|
                index < 5 ==> (#[trigger] names@[index as int])@ == Self::spec_from_repr(
                    index,
                )->0.spec_name(),
    {
        let mut names: Vec<&'static str> = Vec::new();
        names.push(EditOptions::Name.name());
        names.push(EditOptions::Description.name());
        names.push(EditOptions::Due.name());
        names.push(EditOptions::Priority.name());
        names.push(EditOptions::Quit.name());
        names
    }

    /// The option asks for a text.
    pub open spec fn takes_text(self) -> bool {
        self == EditOptions::Name || self == EditOptions::Description || self == EditOptions::Due
    }
}

/// A change to one field of a task.
#[derive(Debug)]
pub enum Change {
    Name(String),
    Description(String),
    Due(String),
    Priority(Priority),
}

/// What follows from the choice made in the menu of a task.
#[derive(Debug, Clone, Copy, PartialEq, Eq, Structural)]
pub enum TaskStep {
    /// Nothing was chosen: say so.
    NoSelection,
    /// Close the task.
    Close { id: TaskID },
    /// Offer the menu of changes.
    Edit,
    /// Leave the task as it is.
    Quit,
}

/// What follows from the entry `choice` of the menu of the task `id`.
pub open spec fn spec_task_step(id: TaskID, choice: Option<usize>) -> TaskStep {
    match choice {
        None => TaskStep::NoSelection,
        Some(index) => match TaskOptions::spec_from_repr(index) {
            Some(TaskOptions::Close) => TaskStep::Close { id },
            Some(TaskOptions::Edit) => TaskStep::Edit,
            _ => TaskStep::Quit,
        },
    }
}

/// What follows from the choice made in the menu of the task `id`. The
/// choice is an entry of the menu, or none.
#[verifier::when_used_as_spec(spec_task_step)]
pub fn task_step(id: TaskID, choice: Option<usize>) -> (step: TaskStep)
    requires
        choice matches Some(index) ==> index < 3,
    ensures
        step == spec_task_step(id, choice),
{
    match choice {
        None => TaskStep::NoSelection,
        Some(index) => match TaskOptions::from_repr(index) {
            Some(TaskOptions::Close) => TaskStep::Close { id },
            Some(TaskOptions::Edit) => TaskStep::Edit,
            _ => TaskStep::Quit,
        },
    }
}

/// What follows from the choice made in the menu of changes.
#[derive(Debug, Clone, Copy, PartialEq, Eq, Structural)]
pub enum EditStep {
    /// Nothing was chosen: say so.
    NoSelection,
    /// Leave the task as it is.
    Quit,
    /// Ask for the new priority; the entry at `default` is the present one.
    AskPriority { default: usize },
    /// Ask for the new text of `field`.
    AskText { field: EditOptions },
}

/// What follows from the entry `choice` of the menu of changes, for a task
/// of the given priority.
pub open spec fn spec_edit_step(priority: Priority, choice: Option<usize>) -> EditStep {
    match choice {
        None => EditStep::NoSelection,
        Some(index) => match EditOptions::spec_from_repr(index) {
            Some(EditOptions::Priority) => EditStep::AskPriority {
                default: (priority.spec_level() - 1) as usize,
            },
            Some(EditOptions::Name) => EditStep::AskText { field: EditOptions::Name },
            Some(EditOptions::Description) => EditStep::AskText { field: EditOptions::Description },
            Some(EditOptions::Due) => EditStep::AskText { field: EditOptions::Due },
            _ => EditStep::Quit,
        },
    }
}

/// What follows from the choice made in the menu of changes. The choice is
/// an entry of the menu, or none.
#[verifier::when_used_as_spec(spec_edit_step)]
pub fn edit_step(priority: Priority, choice: Option<usize>) -> (step: EditStep)
    requires
        choice matches Some(index) ==> index < 5,
    ensures
        step == spec_edit_step(priority, choice),
{
    match choice {
        None => EditStep::NoSelection,
        Some(index) => match EditOptions::from_repr(index) {
            Some(EditOptions::Priority) => {
                let level: u8 = priority.level();
                let default: u8 = level - 1;
                EditStep::AskPriority { default: default as usize }
            },
            Some(EditOptions::Name) => EditStep::AskText { field: EditOptions::Name },
            Some(EditOptions::Description) => EditStep::AskText { field: EditOptions::Description },
            Some(EditOptions::Due) => EditStep::AskText { field: EditOptions::Due },
            _ => EditStep::Quit,
        },
    }
}

/// The change to the priority that the entry `selection` of the list of
/// priorities stands for: the entries are the levels 1 to 4, in that order.
pub fn priority_change(selection: usize) -> (change: Option<Change>)
    ensures
        selection < 4 <==> change is Some,
        change matches Some(c) ==> c matches Change::Priority(p) && p.spec_level() == selection + 1,
{
    if selection < 4 {
        let level: u8 = (selection + 1) as u8;
        match Priority::from_level(level) {
            Some(priority) => Some(Change::Priority(priority)),
            None => None,
        }
    } else {
        None
    }
}

/// The change that sets `field` to `text`.
pub fn text_change(field: EditOptions, text: String) -> (change: Change)
    requires
        field.takes_text(),
    ensures
        match field {
            EditOptions::Name => change == Change::Name(text),
            EditOptions::Description => change == Change::Description(text),
            _ => change == Change::Due(text),
        },
{
    match field {
        EditOptions::Name => Change::Name(text),
        EditOptions::Description => Change::Description(text),
        _ => Change::Due(text),
    }
}

} // verus!
