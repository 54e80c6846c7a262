//! The task store: an ordered collection of tasks with unique positive ids,
//! and the operations a command applies to it (add, delete, partial update,
//! status shorthands, filtered listing).

use vstd::prelude::*;
use crate::task::{status_of, valid_status, Status, Task, TaskV};

verus! {

/// Why an operation was rejected. Validation happens before any mutation,
/// so a rejected command leaves the store exactly as it was.
#[derive(Clone, Copy, Debug, PartialEq, Eq, Structural)]
pub enum TaskError {
    /// No task in the store has the requested id.
    NotFound,
    /// The provided status string is not one of the three recognized values.
    InvalidStatus,
}

impl TaskError {
    /// A one-line message describing the error.
    pub fn message(&self) -> (r: String)
        ensures
            self is NotFound ==> r@ == "no task has the requested id"@,
            self is InvalidStatus ==> r@ == "status must be todo, in-progress or done"@,
    {
        match self {
            TaskError::NotFound => "no task has the requested id".to_owned(),
            TaskError::InvalidStatus => "status must be todo, in-progress or done".to_owned(),
        }
    }
}

/// The views of a sequence of tasks.
pub open spec fn task_views(ts: Seq<Task>) -> Seq<TaskV> {
    ts.map_values(|t: Task| t@)
}

/// No two tasks share an id.
pub open spec fn ids_unique(s: Seq<TaskV>) -> bool {
    forall|i: int, j: int| 0 <= i < j < s.len() ==> s[i].id != s[j].id
}

/// Every id is positive.
pub open spec fn ids_positive(s: Seq<TaskV>) -> bool {
    forall|i: int| 0 <= i < s.len() ==> s[i].id >= 1
}

/// The store invariant: ids are unique and positive.
pub open spec fn wf_tasks(s: Seq<TaskV>) -> bool {
    ids_unique(s) && ids_positive(s)
}

/// The largest id present, or 0 for an empty store.
pub open spec fn max_id(s: Seq<TaskV>) -> nat
    decreases s.len(),
{
    if s.len() == 0 {
        0
    } else {
        let m = max_id(s.drop_last());
        if s.last().id > m {
            s.last().id as nat
        } else {
            m
        }
    }
}

/// Whether some task in `s` has the given id.
pub open spec fn has_id(s: Seq<TaskV>, id: u32) -> bool {
    exists|i: int| 0 <= i < s.len() && s[i].id == id
}

/// The first position whose task has the given id (the length if none has).
pub open spec fn idx_of(s: Seq<TaskV>, id: u32) -> int
    decreases s.len(),
{
    if s.len() == 0 {
        0
    } else if s[0].id == id {
        0
    } else {
        1 + idx_of(s.drop_first(), id)
    }
}

/// `idx_of` finds the first occurrence of an id, and only that.
pub proof fn lemma_idx_of(s: Seq<TaskV>, id: u32)
    ensures
        has_id(s, id) ==> {
            let i = idx_of(s, id);
            &&& 0 <= i < s.len()
            &&& s[i].id == id
            &&& forall|k: int| 0 <= k < i ==> s[k].id != id
        },
        !has_id(s, id) ==> idx_of(s, id) == s.len(),
    decreases s.len(),
{
    if s.len() == 0 {
    } else if s[0].id == id {
    } else {
        lemma_idx_of(s.drop_first(), id);
        assert(has_id(s, id) ==> has_id(s.drop_first(), id)) by {
            if has_id(s, id) {
                let i = choose|i: int| 0 <= i < s.len() && s[i].id == id;
                assert(s.drop_first()[i - 1].id == id);
            }
        }
        assert(has_id(s.drop_first(), id) ==> has_id(s, id)) by {
            if has_id(s.drop_first(), id) {
                let i = choose|i: int|
                    0 <= i < s.drop_first().len() && s.drop_first()[i].id == id;
                assert(s[i + 1].id == id);
            }
        }
        if has_id(s.drop_first(), id) {
            let i = idx_of(s.drop_first(), id);
            assert(s[1 + i] == s.drop_first()[i]);
            assert(forall|k: int| 1 <= k < 1 + i ==> s[k] == s.drop_first()[k - 1]);
        }
    }
}

/// Every id present is bounded by `max_id`.
pub proof fn lemma_max_id_ge(s: Seq<TaskV>, i: int)
    requires
        0 <= i < s.len(),
    ensures
        s[i].id <= max_id(s),
    decreases s.len(),
{
    if i < s.len() - 1 {
        lemma_max_id_ge(s.drop_last(), i);
    }
}

/// The mathematical effect of adding a task: appending a record whose id is
/// one above the largest present, status `Todo`, both timestamps `stamp`.
pub open spec fn spec_add(s: Seq<TaskV>, description: Seq<char>, stamp: Seq<char>) -> Seq<TaskV> {
    s.push(
        TaskV {
            id: (max_id(s) + 1) as u32,
            description: description,
            status: Status::Todo,
            created_at: stamp,
            updated_at: stamp,
        },
    )
}

/// The fields of a task after a partial update: provided fields overwritten,
/// omitted ones kept, `created_at` kept, `updated_at` set to `stamp`.
pub open spec fn spec_updated(
    t: TaskV,
    description: Option<Seq<char>>,
    status: Option<Status>,
    stamp: Seq<char>,
) -> TaskV {
    TaskV {
        id: t.id,
        description: match description {
            Some(d) => d,
            None => t.description,
        },
        status: match status {
            Some(st) => st,
            None => t.status,
        },
        created_at: t.created_at,
        updated_at: stamp,
    }
}

/// The predicate a status filter selects by.
pub open spec fn status_pred(f: Status) -> spec_fn(TaskV) -> bool {
    |t: TaskV| t.status == f
}

/// The view of an optional string argument.
pub open spec fn opt_view(s: Option<String>) -> Option<Seq<char>> {
    match s {
        Some(d) => Some(d@),
        None => None,
    }
}

/// The in-memory store: the full collection of tasks, in insertion order.
pub struct TaskStore {
    pub tasks: Vec<Task>,
}

impl View for TaskStore {
    type V = Seq<TaskV>;

    open spec fn view(&self) -> Seq<TaskV> {
        task_views(self.tasks@)
    }
}

impl TaskStore {
    /// The store invariant.
    pub open spec fn wf(&self) -> bool {
        wf_tasks(self@)
    }

    /// An empty store.
    pub fn new() -> (r: TaskStore)
        ensures
            r@ == Seq::<TaskV>::empty(),
            r.wf(),
    {
        let r = TaskStore { tasks: Vec::new() };
        proof {
            assert(r@ =~= Seq::<TaskV>::empty());
        }
        r
    }

    /// How many tasks the store holds.
    pub fn len(&self) -> (r: usize)
        ensures
            r == self@.len(),
    {
        self.tasks.len()
    }

    /// The id the next added task will receive: one above the largest
    /// present, or 1 for an empty store.
    pub fn next_id(&self) -> (r: u32)
        requires
            max_id(self@) < u32::MAX,
        ensures
            r == max_id(self@) + 1,
    {
        let mut m: u32 = 0;
        let mut k: usize = 0;
        proof {
            assert(self@.take(0) =~= Seq::<TaskV>::empty());
        }
        while k < self.tasks.len()
            invariant
                0 <= k <= self.tasks.len(),
                self@.len() == self.tasks@.len(),
                m == max_id(self@.take(k as int)),
                max_id(self@) < u32::MAX,
            decreases self.tasks.len() - k,
        {
            proof {
                assert(self@.take(k + 1).drop_last() =~= self@.take(k as int));
                assert(self@.take(k + 1).last() == self@[k as int]);
                lemma_max_id_take_bound(self@, k + 1);
            }
            let t = &self.tasks[k];
            if t.id > m {
                m = t.id;
            }
            k += 1;
        }
        proof {
            assert(self@.take(self@.len() as int) =~= self@);
        }
        m + 1
    }

    /// The position of the task with the given id, if any.
    fn find_index(&self, id: u32) -> (r: Option<usize>)
        ensures
            match r {
                Some(i) => i == idx_of(self@, id) && i < self@.len() && self@[i as int].id == id
                    && has_id(self@, id),
                None => !has_id(self@, id),
            },
    {
        let mut k: usize = 0;
        while k < self.tasks.len()
            invariant
                0 <= k <= self.tasks.len(),
                self@.len() == self.tasks@.len(),
                forall|j: int| 0 <= j < k ==> self@[j].id != id,
            decreases self.tasks.len() - k,
        {
            if self.tasks[k].id == id {
                proof {
                    lemma_idx_of(self@, id);
                }
                return Some(k);
            }
            k += 1;
        }
        None
    }

    /// The task with the given id, if any.
    pub fn get(&self, id: u32) -> (r: Option<Task>)
        ensures
            match r {
                Some(t) => has_id(self@, id) && t@ == self@[idx_of(self@, id)],
                None => !has_id(self@, id),
            },
    {
        match self.find_index(id) {
            Some(i) => Some(self.tasks[i].duplicate()),
            None => None,
        }
    }

    /// Creates a task with the next id, status `Todo` and fresh timestamps,
    /// appends it, and returns it for display.
    pub fn add(&mut self, description: String) -> (r: Task)
        requires
            old(self).wf(),
            max_id(old(self)@) < u32::MAX,
        ensures
            final(self).wf(),
            r@.id == max_id(old(self)@) + 1,
            r@.description == description@,
            r@.status == Status::Todo,
            r@.created_at == r@.updated_at,
            final(self)@ == spec_add(old(self)@, description@, r@.created_at),
    {
        let id = self.next_id();
        let t = Task::new(id, description);
        let copy = t.duplicate();
        self.tasks.push(t);
        proof {
            assert(self@ =~= old(self)@.push(copy@));
            assert forall|i: int, j: int| 0 <= i < j < self@.len() implies self@[i].id
                != self@[j].id by {
                if j == self@.len() - 1 {
                    lemma_max_id_ge(old(self)@, i);
                }
            }
        }
        copy
    }

    /// Removes the task with the given id and returns it; rejects unknown
    /// ids without touching the store.
    pub fn delete(&mut self, id: u32) -> (r: Result<Task, TaskError>)
        requires
            old(self).wf(),
        ensures
            final(self).wf(),
            has_id(old(self)@, id) ==> {
                &&& final(self)@ == old(self)@.remove(idx_of(old(self)@, id))
                &&& r matches Ok(t) && t@ == old(self)@[idx_of(old(self)@, id)]
            },
            !has_id(old(self)@, id) ==> r == Err::<Task, TaskError>(TaskError::NotFound)
                && final(self)@ == old(self)@,
    {
        match self.find_index(id) {
            Some(i) => {
                let t = self.tasks.remove(i);
                proof {
                    assert(self@ =~= old(self)@.remove(i as int));
                }
                Ok(t)
            },
            None => Err(TaskError::NotFound),
        }
    }

    /// Applies a partial update to the task with the given id: each provided
    /// field overwrites the old one, omitted fields stay, `updated_at` is
    /// refreshed. An unrecognized status string is rejected before anything
    /// is looked up or changed; an unknown id is rejected before any change.
    pub fn update(&mut self, id: u32, description: Option<String>, status: Option<String>) -> (r:
        Result<Task, TaskError>)
        requires
            old(self).wf(),
        ensures
            final(self).wf(),
            (status matches Some(st) && !valid_status(st@)) ==> r == Err::<Task, TaskError>(
                TaskError::InvalidStatus,
            ) && final(self)@ == old(self)@,
            (match status {
                Some(st) => valid_status(st@),
                None => true,
            } && !has_id(old(self)@, id)) ==> r == Err::<Task, TaskError>(TaskError::NotFound)
                && final(self)@ == old(self)@,
            (match status {
                Some(st) => valid_status(st@),
                None => true,
            } && has_id(old(self)@, id)) ==> {
                let i = idx_of(old(self)@, id);
                &&& r matches Ok(t) && t@ == final(self)@[i]
                &&& final(self)@ == old(self)@.update(
                    i,
                    spec_updated(
                        old(self)@[i],
                        opt_view(description),
                        match status {
                            Some(st) => Some(status_of(st@)),
                            None => None,
                        },
                        final(self)@[i].updated_at,
                    ),
                )
            },
    {
        let parsed: Option<Status> = match &status {
            Some(st) => {
                match Status::from_name(st.as_str()) {
                    Some(v) => Some(v),
                    None => {
                        return Err(TaskError::InvalidStatus);
                    },
                }
            },
            None => None,
        };
        let i = match self.find_index(id) {
            Some(i) => i,
            None => {
                return Err(TaskError::NotFound);
            },
        };
        let t = self.tasks[i].update(description.as_ref(), parsed);
        let copy = t.duplicate();
        self.tasks.remove(i);
        self.tasks.insert(i, t);
        proof {
            assert(self@ =~= old(self)@.update(i as int, copy@));
            lemma_update_same_id_wf(old(self)@, i as int, copy@);
        }
        Ok(copy)
    }

    /// Shorthand for an update that only sets the status to `InProgress`.
    pub fn mark_in_progress(&mut self, id: u32) -> (r: Result<Task, TaskError>)
        requires
            old(self).wf(),
        ensures
            final(self).wf(),
            !has_id(old(self)@, id) ==> r == Err::<Task, TaskError>(TaskError::NotFound)
                && final(self)@ == old(self)@,
            has_id(old(self)@, id) ==> {
                let i = idx_of(old(self)@, id);
                &&& r matches Ok(t) && t@ == final(self)@[i]
                &&& final(self)@ == old(self)@.update(
                    i,
                    spec_updated(
                        old(self)@[i],
                        None,
                        Some(Status::InProgress),
                        final(self)@[i].updated_at,
                    ),
                )
            },
    {
        self.mark(id, Status::InProgress)
    }

    /// Shorthand for an update that only sets the status to `Done`.
    pub fn mark_done(&mut self, id: u32) -> (r: Result<Task, TaskError>)
        requires
            old(self).wf(),
        ensures
            final(self).wf(),
            !has_id(old(self)@, id) ==> r == Err::<Task, TaskError>(TaskError::NotFound)
                && final(self)@ == old(self)@,
            has_id(old(self)@, id) ==> {
                let i = idx_of(old(self)@, id);
                &&& r matches Ok(t) && t@ == final(self)@[i]
                &&& final(self)@ == old(self)@.update(
                    i,
                    spec_updated(
                        old(self)@[i],
                        None,
                        Some(Status::Done),
                        final(self)@[i].updated_at,
                    ),
                )
            },
    {
        self.mark(id, Status::Done)
    }

    /// Sets the status of the task with the given id.
    fn mark(&mut self, id: u32, status: Status) -> (r: Result<Task, TaskError>)
        requires
            old(self).wf(),
        ensures
            final(self).wf(),
            !has_id(old(self)@, id) ==> r == Err::<Task, TaskError>(TaskError::NotFound)
                && final(self)@ == old(self)@,
            has_id(old(self)@, id) ==> {
                let i = idx_of(old(self)@, id);
                &&& r matches Ok(t) && t@ == final(self)@[i]
                &&& final(self)@ == old(self)@.update(
                    i,
                    spec_updated(old(self)@[i], None, Some(status), final(self)@[i].updated_at),
                )
            },
    {
        let i = match self.find_index(id) {
            Some(i) => i,
            None => {
                return Err(TaskError::NotFound);
            },
        };
        let t = self.tasks[i].update_status(status);
        let copy = t.duplicate();
        self.tasks.remove(i);
        self.tasks.insert(i, t);
        proof {
            assert(self@ =~= old(self)@.update(i as int, copy@));
            lemma_update_same_id_wf(old(self)@, i as int, copy@);
        }
        Ok(copy)
    }

    /// The tasks, in store order, optionally restricted to exactly one
    /// status.
    pub fn list(&self, filter: Option<Status>) -> (r: Vec<Task>)
        ensures
            match filter {
                Some(f) => task_views(r@) == self@.filter(status_pred(f)),
                None => task_views(r@) == self@,
            },
    {
        let mut out: Vec<Task> = Vec::new();
        let mut k: usize = 0;
        proof {
            assert(task_views(out@) =~= Seq::<TaskV>::empty());
            assert(self@.take(0) =~= Seq::<TaskV>::empty());
            reveal(Seq::filter);
        }
        while k < self.tasks.len()
            invariant
                0 <= k <= self.tasks.len(),
                self@.len() == self.tasks@.len(),
                match filter {
                    Some(f) => task_views(out@) == self@.take(k as int).filter(status_pred(f)),
                    None => task_views(out@) == self@.take(k as int),
                },
            decreases self.tasks.len() - k,
        {
            let ghost prev = task_views(out@);
            let keep = match filter {
                Some(f) => self.tasks[k].status == f,
                None => true,
            };
            if keep {
                out.push(self.tasks[k].duplicate());
            }
            proof {
                reveal(Seq::filter);
                assert(self@.take(k + 1).drop_last() =~= self@.take(k as int));
                assert(self@.take(k + 1).last() == self@[k as int]);
                if keep {
                    assert(task_views(out@) =~= prev.push(self@[k as int]));
                }
            }
            k += 1;
        }
        proof {
            assert(self@.take(self@.len() as int) =~= self@);
        }
        out
    }
}

/// Helper for `next_id`: the largest id of a prefix never exceeds the
/// largest id of the whole.
pub proof fn lemma_max_id_take_bound(s: Seq<TaskV>, k: int)
    requires
        0 <= k <= s.len(),
    ensures
        max_id(s.take(k)) <= max_id(s),
    decreases s.len() - k,
{
    if k == s.len() {
        assert(s.take(k) =~= s);
    } else {
        lemma_max_id_take_bound(s, k + 1);
        assert(s.take(k + 1).drop_last() =~= s.take(k));
    }
}

/// Replacing a task by one with the same id preserves the store invariant.
pub proof fn lemma_update_same_id_wf(s: Seq<TaskV>, i: int, t: TaskV)
    requires
        wf_tasks(s),
        0 <= i < s.len(),
        t.id == s[i].id,
        t.id >= 1,
    ensures
        wf_tasks(s.update(i, t)),
{
}

/// Id assignment: starting from an empty store, the nth added task receives
/// id n. `spec_add_all` folds a sequence of additions (descriptions paired
/// with timestamps) over the empty store; every task then holds the id one
/// above its position.
pub open spec fn spec_add_all(items: Seq<(Seq<char>, Seq<char>)>) -> Seq<TaskV>
    decreases items.len(),
{
    if items.len() == 0 {
        Seq::empty()
    } else {
        spec_add(spec_add_all(items.drop_last()), items.last().0, items.last().1)
    }
}

/// After any sequence of additions to an initially empty store, the task at
/// position k (counting from 0) has id k + 1, and the descriptions land in
/// order.
pub proof fn lemma_id_assignment(items: Seq<(Seq<char>, Seq<char>)>)
    requires
        items.len() < u32::MAX,
    ensures
        spec_add_all(items).len() == items.len(),
        forall|k: int|
            0 <= k < items.len() ==> (#[trigger] spec_add_all(items)[k]).id == k + 1,
        forall|k: int|
            0 <= k < items.len() ==> (#[trigger] spec_add_all(items)[k]).description == items[k].0,
    decreases items.len(),
{
    if items.len() > 0 {
        lemma_id_assignment(items.drop_last());
        let prev = spec_add_all(items.drop_last());
        lemma_max_id_linear(prev);
        assert(max_id(prev) == prev.len());
        assert forall|k: int|
            0 <= k < items.len() implies (#[trigger] spec_add_all(items)[k]).id == k + 1 by {
            if k < items.len() - 1 {
                assert(spec_add_all(items)[k] == prev[k]);
            }
        }
    }
}

/// In a store whose ids are exactly 1..=n in order, the largest id is n.
proof fn lemma_max_id_linear(s: Seq<TaskV>)
    requires
        s.len() < u32::MAX,
        forall|k: int| 0 <= k < s.len() ==> (#[trigger] s[k]).id == k + 1,
    ensures
        max_id(s) == s.len(),
    decreases s.len(),
{
    if s.len() > 0 {
        lemma_max_id_linear(s.drop_last());
    }
}

/// Delete then lookup: once the task with an id is removed, no task with
/// that id remains, so any later operation referencing it reports
/// `NotFound` (their contracts return `NotFound` exactly when `has_id`
/// fails).
pub proof fn lemma_delete_then_lookup(s: Seq<TaskV>, id: u32)
    requires
        wf_tasks(s),
        has_id(s, id),
    ensures
        !has_id(s.remove(idx_of(s, id)), id),
{
    let i = idx_of(s, id);
    lemma_idx_of(s, id);
    let s2 = s.remove(i);
    assert forall|k: int| 0 <= k < s2.len() implies s2[k].id != id by {
        if k < i {
            assert(s2[k] == s[k]);
        } else {
            assert(s2[k] == s[k + 1]);
        }
    }
}

/// Filtered list: the filtered sequence holds only tasks of the requested
/// status, and every task of that status appears in it; `Seq::filter`
/// itself keeps the original order.
pub proof fn lemma_filtered_list(s: Seq<TaskV>, f: Status)
    ensures
        forall|k: int|
            0 <= k < s.filter(status_pred(f)).len() ==> (#[trigger] s.filter(
                status_pred(f),
            )[k]).status == f,
        forall|k: int|
            0 <= k < s.len() && (#[trigger] s[k]).status == f ==> s.filter(
                status_pred(f),
            ).contains(s[k]),
        (forall|k: int| 0 <= k < s.len() ==> (#[trigger] s[k]).status != f) ==> s.filter(
            status_pred(f),
        ).len() == 0,
{
    let pred = status_pred(f);
    #[allow(deprecated)]
    s.filter_lemma(pred);
    if forall|k: int| 0 <= k < s.len() ==> (#[trigger] s[k]).status != f {
        lemma_filter_no_match(s, pred);
    }
}

/// A filter that matches nothing yields the empty sequence.
proof fn lemma_filter_no_match(s: Seq<TaskV>, pred: spec_fn(TaskV) -> bool)
    requires
        forall|k: int| 0 <= k < s.len() ==> !pred(#[trigger] s[k]),
    ensures
        s.filter(pred).len() == 0,
    decreases s.len(),
{
    reveal(Seq::filter);
    if s.len() > 0 {
        assert(forall|k: int|
            0 <= k < s.drop_last().len() ==> !pred(#[trigger] s.drop_last()[k]));
        lemma_filter_no_match(s.drop_last(), pred);
    }
}

/// Partial update: updating only the description leaves id, status and
/// `created_at` unchanged; updating only the status leaves id, description
/// and `created_at` unchanged; updating neither changes nothing but the
/// refreshed `updated_at`.
pub proof fn lemma_partial_update(t: TaskV, d: Seq<char>, st: Status, stamp: Seq<char>)
    ensures
        spec_updated(t, Some(d), None, stamp) == (TaskV {
            description: d,
            updated_at: stamp,
            ..t
        }),
        spec_updated(t, None, Some(st), stamp) == (TaskV { status: st, updated_at: stamp, ..t }),
        spec_updated(t, None, None, stamp) == (TaskV { updated_at: stamp, ..t }),
{
}

} // verus!
