//! The task data model: the three-valued workflow status and the task
//! record itself, with partial updates that leave omitted fields alone.

use vstd::prelude::*;
use vstd::string::StrSliceExecFns;
use vstd::string::StringExecFns;

verus! {

/// Workflow state of a task. Exactly these three values are legal; a task
/// never holds anything else.
#[derive(Clone, Copy, Debug, PartialEq, Eq, Structural)]
pub enum Status {
    Todo,
    InProgress,
    Done,
}

/// The canonical spelling of a status, as stored on disk and displayed.
pub open spec fn status_name(s: Status) -> Seq<char> {
    match s {
        Status::Todo => "todo"@,
        Status::InProgress => "in-progress"@,
        Status::Done => "done"@,
    }
}

/// Whether a string is one of the three canonical status spellings
/// (case-sensitive, exact match).
pub open spec fn valid_status(s: Seq<char>) -> bool {
    s == "todo"@ || s == "in-progress"@ || s == "done"@
}

/// The status a canonical spelling stands for. Meaningful only on strings
/// accepted by `valid_status`.
pub open spec fn status_of(s: Seq<char>) -> Status {
    if s == "todo"@ {
        Status::Todo
    } else if s == "in-progress"@ {
        Status::InProgress
    } else {
        Status::Done
    }
}

/// Compares two strings character by character.
pub fn str_eq(a: &str, b: &str) -> (r: bool)
    ensures
        r == (a@ == b@),
{
    let la = a.unicode_len();
    let lb = b.unicode_len();
    if la != lb {
        return false;
    }
    let mut i: usize = 0;
    while i < la
        invariant
            la == a@.len(),
            la == b@.len(),
            0 <= i <= la,
            forall|k: int| 0 <= k < i ==> a@[k] == b@[k],
        decreases la - i,
    {
        if a.get_char(i) != b.get_char(i) {
            return false;
        }
        i += 1;
    }
    proof {
        assert(a@ =~= b@);
    }
    true
}

impl Status {
    /// The canonical spelling of this status, as a fresh `String`.
    pub fn get(&self) -> (r: String)
        ensures
            r@ == status_name(*self),
    {
        match self {
            Status::Todo => String::from_str("todo"),
            Status::InProgress => String::from_str("in-progress"),
            Status::Done => String::from_str("done"),
        }
    }

    /// Whether `status` is one of the three recognized spellings.
    pub fn verify(status: &String) -> (r: bool)
        ensures
            r == valid_status(status@),
    {
        str_eq(status.as_str(), "todo") || str_eq(status.as_str(), "in-progress") || str_eq(
            status.as_str(),
            "done",
        )
    }

    /// Parses a canonical spelling back into a status; rejects anything else.
    pub fn from_name(s: &str) -> (r: Option<Status>)
        ensures
            r is Some <==> valid_status(s@),
            r matches Some(st) ==> st == status_of(s@),
    {
        proof {
            lemma_status_names_distinct();
        }
        if str_eq(s, "todo") {
            Some(Status::Todo)
        } else if str_eq(s, "in-progress") {
            Some(Status::InProgress)
        } else if str_eq(s, "done") {
            Some(Status::Done)
        } else {
            None
        }
    }
}

/// The three canonical spellings differ from one another.
pub proof fn lemma_status_names_distinct()
    ensures
        "todo"@ != "in-progress"@,
        "todo"@ != "done"@,
        "in-progress"@ != "done"@,
{
    reveal_strlit("todo");
    reveal_strlit("in-progress");
    reveal_strlit("done");
    assert("todo"@.len() == 4);
    assert("in-progress"@.len() == 11);
    assert("done"@.len() == 4);
    assert("todo"@[0] == 't');
    assert("done"@[0] == 'd');
}

/// The mathematical value of a task: every field as a plain value.
pub struct TaskV {
    pub id: u32,
    pub description: Seq<char>,
    pub status: Status,
    pub created_at: Seq<char>,
    pub updated_at: Seq<char>,
}

/// One unit of work: a unique positive id, free-form description, workflow
/// status, and two timestamps kept as plain RFC 3339 strings.
#[derive(Clone, Debug, PartialEq)]
pub struct Task {
    pub id: u32,
    pub description: String,
    pub status: Status,
    pub created_at: String,
    pub updated_at: String,
}

impl View for Task {
    type V = TaskV;

    open spec fn view(&self) -> TaskV {
        TaskV {
            id: self.id,
            description: self.description@,
            status: self.status,
            created_at: self.created_at@,
            updated_at: self.updated_at@,
        }
    }
}

/// Relies on chrono's `Local::now`: the current local time, formatted per
/// RFC 3339. No two calls need agree, so nothing is promised of the result.
#[verifier::external_body]
fn now_rfc3339() -> String {
    chrono::Local::now().to_rfc3339()
}

impl Task {
    /// A fresh task: the given id and description, status `Todo`, both
    /// timestamps set to the same "now".
    pub fn new(id: u32, description: String) -> (r: Task)
        ensures
            r@.id == id,
            r@.description == description@,
            r@.status == Status::Todo,
            r@.created_at == r@.updated_at,
    {
        let now = now_rfc3339();
        let now2 = now.clone();
        Task { id, description, status: Status::Todo, created_at: now, updated_at: now2 }
    }

    /// A second task equal to this one, field for field.
    pub fn duplicate(&self) -> (r: Task)
        ensures
            r@ == self@,
    {
        Task {
            id: self.id,
            description: self.description.clone(),
            status: self.status,
            created_at: self.created_at.clone(),
            updated_at: self.updated_at.clone(),
        }
    }

    /// A new task derived from this one: each provided field overwritten,
    /// omitted fields left untouched, `updated_at` refreshed. The id and
    /// `created_at` never change.
    pub fn update(&self, description: Option<&String>, status: Option<Status>) -> (r: Task)
        ensures
            r@.id == self@.id,
            r@.created_at == self@.created_at,
            r@.description == match description {
                Some(d) => d@,
                None => self@.description,
            },
            r@.status == match status {
                Some(st) => st,
                None => self@.status,
            },
    {
        let new_description = match description {
            Some(d) => d.clone(),
            None => self.description.clone(),
        };
        let new_status = match status {
            Some(st) => st,
            None => self.status,
        };
        Task {
            id: self.id,
            description: new_description,
            status: new_status,
            created_at: self.created_at.clone(),
            updated_at: now_rfc3339(),
        }
    }

    /// A new task derived from this one, with only the status overwritten
    /// and `updated_at` refreshed.
    pub fn update_status(&self, status: Status) -> (r: Task)
        ensures
            r@.id == self@.id,
            r@.created_at == self@.created_at,
            r@.description == self@.description,
            r@.status == status,
    {
        self.update(None, Some(status))
    }
}

} // verus!
