//! Closing a task.
use crate::api::rest::TaskID;
use crate::text::{bright_red, bright_red_text, decimal, decimal_string};
use vstd::prelude::*;

verus! {

/// Which task to close.
#[derive(Debug)]
pub struct Params {
    /// The identifier of the task, as the list of tasks shows it.
    pub id: TaskID,
}

impl Params {
    pub fn new(id: TaskID) -> (params: Params)
        ensures
            params.id == id,
    {
        Params { id }
    }

    /// The line that reports the task as closed.
    pub open spec fn spec_report(self) -> Seq<char> {
        "closed task "@ + bright_red_text(decimal(self.id as nat))
    }

    /// The line that reports the task as closed, with its identifier in
    /// bright red.
    pub fn report(&self) -> (line: String)
        ensures
            line@ == self.spec_report(),
    {
        let mut line = String::from_str("closed task ");
        let digits = decimal_string(self.id);
        let id = bright_red(digits.as_str());
        line.append(id.as_str());
        line
    }
}

} // verus!
